use rusty_vault::names::{encrypt_name, name_has_marker};
use rusty_vault::walker::{
    depth_of, holds_failed, next_rename, path_is_ancestor, plan_pass, EntryAction, PassPlan, TreeEntry,
};

fn e(path: &str, is_dir: bool) -> TreeEntry {
    TreeEntry { path: String::from(path), is_dir }
}

fn steps(plan: &PassPlan) -> (Vec<(String, EntryAction)>, Vec<(String, EntryAction)>) {
    (
        plan.files.iter().map(|s| (s.path.clone(), s.action)).collect(),
        plan.folders.iter().map(|s| (s.path.clone(), s.action)).collect(),
    )
}

fn plain_tree() -> Vec<TreeEntry> {
    vec![
        e("masterfile.e", false),
        e("a.txt", false),
        e("docs", true),
        e("docs/b.txt", false),
        e("docs/old", true),
        e("docs/old/c.txt", false),
        e("music", true),
        e(".DS_Store", false),
        e("docs/old/.DS_Store", false),
    ]
}

#[test]
fn lock_plan_files_then_folders_deepest_first() {
    let plan = plan_pass("/tmp/v", &plain_tree(), true);
    let (files, folders) = steps(&plan);
    assert_eq!(
        files,
        vec![
            (String::from("/tmp/v/a.txt"), EntryAction::Encrypt),
            (String::from("/tmp/v/docs/b.txt"), EntryAction::Encrypt),
            (String::from("/tmp/v/docs/old/c.txt"), EntryAction::Encrypt),
        ]
    );
    assert_eq!(
        folders,
        vec![
            (String::from("/tmp/v/docs/old"), EntryAction::Encrypt),
            (String::from("/tmp/v/docs"), EntryAction::Encrypt),
            (String::from("/tmp/v/music"), EntryAction::Encrypt),
        ]
    );
}

#[test]
fn unlock_plan_on_plain_tree_is_empty() {
    let plan = plan_pass("/tmp/v", &plain_tree(), false);
    assert!(plan.files.is_empty());
    assert!(plan.folders.is_empty());
}

#[test]
fn second_lock_pass_plans_nothing() {
    let key = [1u8; 32];
    let nonce = [2u8; 24];
    let d = encrypt_name("docs", &key, &nonce).unwrap();
    let o = encrypt_name("old", &key, &nonce).unwrap();
    let f = encrypt_name("a.txt", &key, &nonce).unwrap();
    let locked = vec![
        e("masterfile.e", false),
        e(&f, false),
        e(&d, true),
        e(&format!("{}/{}", d, o), true),
        e(&format!("{}/{}/{}", d, o, f), false),
    ];
    for entry in &locked {
        if entry.path != "masterfile.e" {
            assert!(name_has_marker(entry.path.rsplit('/').next().unwrap()));
        }
    }
    let again = plan_pass("/tmp/v", &locked, true);
    assert!(again.files.is_empty());
    assert!(again.folders.is_empty());
    let unlock = plan_pass("/tmp/v", &locked, false);
    assert_eq!(unlock.files.len(), 2);
    assert!(unlock.files.iter().all(|s| s.action == EntryAction::Decrypt));
    let (_, folders) = steps(&unlock);
    assert_eq!(
        folders,
        vec![
            (format!("/tmp/v/{}/{}", d, o), EntryAction::Decrypt),
            (format!("/tmp/v/{}", d), EntryAction::Decrypt),
        ]
    );
}

#[test]
fn mixed_tree_locks_only_what_is_plain() {
    let tree = vec![e("x.encrypted", false), e("y.txt", false), e("Icon", false)];
    let (files, folders) = steps(&plan_pass("r", &tree, true));
    assert_eq!(files, vec![(String::from("r/y.txt"), EntryAction::Encrypt)]);
    assert!(folders.is_empty());
}

#[test]
fn depth_counts_separators() {
    assert_eq!(depth_of(""), 0);
    assert_eq!(depth_of("a"), 0);
    assert_eq!(depth_of("a/b/c"), 2);
}

#[test]
fn renames_wait_for_every_content_step() {
    let plan = plan_pass("/tmp/v", &plain_tree(), true);
    assert_eq!(plan.files.len(), 3);
    let mut finished = vec![false; plan.files.len()];
    assert_eq!(next_rename(&plan, &finished, 0), None);
    finished[0] = true;
    finished[2] = true;
    assert_eq!(next_rename(&plan, &finished, 0), None);
    finished[1] = true;
    assert_eq!(next_rename(&plan, &finished, 0), Some(0));
    assert_eq!(next_rename(&plan, &finished, 2), Some(2));
    assert_eq!(next_rename(&plan, &finished, 3), None);
}

#[test]
fn failed_rename_blocks_only_folders_above_it() {
    let failed = vec![String::from("/tmp/v/docs/old")];
    assert!(holds_failed("/tmp/v/docs", &failed));
    assert!(holds_failed("/tmp/v", &failed));
    assert!(!holds_failed("/tmp/v/music", &failed));
    assert!(!holds_failed("/tmp/v/docs/old", &failed));
    assert!(!holds_failed("/tmp/v/do", &failed));
    assert!(path_is_ancestor("a", "a/b"));
    assert!(!path_is_ancestor("a", "ab"));
    assert!(!path_is_ancestor("a/b", "a"));
}
