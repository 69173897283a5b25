//! The decisions of the tree walker. A lock pass (`force_encrypt`) encrypts
//! every file and folder whose name lacks the `.encrypted` marker; an unlock
//! pass decrypts every one that carries it; entries already in the target state,
//! and sentinel files, are left alone. File contents are handled first, over
//! the whole tree; folder names afterwards, deepest first.

use vstd::prelude::*;
use crate::names::{
    file_name_nonce, has_marker, is_token, lemma_name_round_trip, name_has_marker, name_token,
    opens_to,
};
use crate::vault::{is_sentinel, is_sentinel_name, lemma_sentinel_unmarked};
use crate::text::{find_segment_start, last_segment, lemma_segment_start_bounds, substring};
use vstd::string::*;

verus! {

/// What a pass does with one entry.
#[derive(Clone, Copy, Debug, PartialEq, Eq, Structural)]
pub enum EntryAction {
    Encrypt,
    Decrypt,
    Leave,
}

/// What a pass in the given direction does with the file called `name`.
pub open spec fn file_action_of(name: Seq<char>, force_encrypt: bool) -> EntryAction {
    if is_sentinel(name) {
        EntryAction::Leave
    } else {
        folder_action_of(name, force_encrypt)
    }
}

/// What a pass in the given direction does with the folder called `name`.
pub open spec fn folder_action_of(name: Seq<char>, force_encrypt: bool) -> EntryAction {
    if has_marker(name) {
        if force_encrypt {
            EntryAction::Leave
        } else {
            EntryAction::Decrypt
        }
    } else {
        if force_encrypt {
            EntryAction::Encrypt
        } else {
            EntryAction::Leave
        }
    }
}

/// What a pass in the given direction does with the file called `name`.
pub fn file_action(name: &str, force_encrypt: bool) -> (r: EntryAction)
    ensures
        r == file_action_of(name@, force_encrypt),
{
    if is_sentinel_name(name) {
        EntryAction::Leave
    } else {
        folder_action(name, force_encrypt)
    }
}

/// What a pass in the given direction does with the folder called `name`.
pub fn folder_action(name: &str, force_encrypt: bool) -> (r: EntryAction)
    ensures
        r == folder_action_of(name@, force_encrypt),
{
    let marked = name_has_marker(name);
    if marked == force_encrypt {
        EntryAction::Leave
    } else if force_encrypt {
        EntryAction::Encrypt
    } else {
        EntryAction::Decrypt
    }
}

/// The name a file has after a lock pass, when its name is sealed under `key`
/// and `nonce`.
pub open spec fn locked_file_name(key: Seq<u8>, nonce: Seq<u8>, name: Seq<char>) -> Seq<char> {
    if file_action_of(name, true) == EntryAction::Encrypt {
        name_token(key, nonce, name)
    } else {
        name
    }
}

/// The name a folder has after a lock pass, under `key` and `nonce`.
pub open spec fn locked_folder_name(key: Seq<u8>, nonce: Seq<u8>, name: Seq<char>) -> Seq<char> {
    if folder_action_of(name, true) == EntryAction::Encrypt {
        name_token(key, nonce, name)
    } else {
        name
    }
}

/// Locking twice changes nothing the second time: after a lock pass, a second
/// lock pass leaves every file and every folder as it is.
pub proof fn lemma_lock_pass_idempotent(key: Seq<u8>, nonce: Seq<u8>, name: Seq<char>)
    ensures
        file_action_of(locked_file_name(key, nonce, name), true) == EntryAction::Leave,
        folder_action_of(locked_folder_name(key, nonce, name), true) == EntryAction::Leave,
{
    lemma_name_round_trip(key, nonce, name);
}

/// Unlocking twice changes nothing the second time: a name that a lock pass
/// encrypted comes back from its token under the same key and nonce, and a
/// second unlock pass leaves the restored name as it is.
pub proof fn lemma_unlock_pass_idempotent(key: Seq<u8>, nonce: Seq<u8>, name: Seq<char>)
    ensures
        file_action_of(name, true) == EntryAction::Encrypt ==> {
            &&& file_action_of(name_token(key, nonce, name), false) == EntryAction::Decrypt
            &&& opens_to(key, nonce, name_token(key, nonce, name), name)
            &&& file_action_of(name, false) == EntryAction::Leave
        },
        folder_action_of(name, true) == EntryAction::Encrypt ==> {
            &&& folder_action_of(name_token(key, nonce, name), false) == EntryAction::Decrypt
            &&& opens_to(key, nonce, name_token(key, nonce, name), name)
            &&& folder_action_of(name, false) == EntryAction::Leave
        },
{
    lemma_name_round_trip(key, nonce, name);
    if is_sentinel(name_token(key, nonce, name)) {
        lemma_sentinel_unmarked(name_token(key, nonce, name));
    }
}

/// After a lock pass every file but the sentinels carries the marker, and every
/// folder name is a well-formed token, unless it already carried the marker
/// without being one.
pub proof fn lemma_lock_pass_marks(key: Seq<u8>, nonce: Seq<u8>, name: Seq<char>)
    ensures
        !is_sentinel(name) ==> has_marker(locked_file_name(key, nonce, name)),
        (has_marker(name) ==> is_token(name)) ==> is_token(locked_folder_name(key, nonce, name)),
{
    lemma_name_round_trip(key, nonce, name);
}

/// How many `/` separators `p` holds: its depth below the root it is
/// relative to.
pub open spec fn depth(p: Seq<char>) -> nat
    decreases p.len(),
{
    if p.len() == 0 {
        0
    } else {
        depth(p.drop_last()) + if p.last() == '/' {
            1nat
        } else {
            0nat
        }
    }
}

/// Whether the directory at `a` holds `b`, directly or further down.
pub open spec fn is_ancestor(a: Seq<char>, b: Seq<char>) -> bool {
    a.len() < b.len() && b.take(a.len() as int) == a && b[a.len() as int] == '/'
}

/// Depth adds up over concatenation.
pub proof fn lemma_depth_concat(a: Seq<char>, b: Seq<char>)
    ensures
        depth(a + b) == depth(a) + depth(b),
    decreases b.len(),
{
    if b.len() == 0 {
        assert(a + b =~= a);
    } else {
        lemma_depth_concat(a, b.drop_last());
        assert((a + b).drop_last() =~= a + b.drop_last());
    }
}

/// A directory is shallower than everything it holds.
pub proof fn lemma_ancestor_depth(a: Seq<char>, b: Seq<char>)
    requires
        is_ancestor(a, b),
    ensures
        depth(a) < depth(b),
{
    let rest = b.skip(a.len() as int);
    assert(b =~= a + rest);
    lemma_depth_concat(a, rest);
    assert(rest =~= seq!['/'] + rest.drop_first());
    lemma_depth_concat(seq!['/'], rest.drop_first());
    assert(seq!['/'].drop_last() =~= Seq::<char>::empty());
}

proof fn lemma_join_depth(root: Seq<char>, rel: Seq<char>)
    ensures
        depth(join_path(root, rel)) == depth(root) + 1 + depth(rel),
{
    lemma_depth_concat(root + seq!['/'], rel);
    lemma_depth_concat(root, seq!['/']);
    assert(seq!['/'].drop_last() =~= Seq::<char>::empty());
    assert(depth(Seq::<char>::empty()) == 0);
    assert(depth(seq!['/']) == 1);
}

/// One entry of a snapshot of a vault's tree: its path relative to the root,
/// segments joined by `/`, and whether it is a directory.
pub struct TreeEntry {
    pub path: String,
    pub is_dir: bool,
}

/// One step of a pass: the full path of an entry and what to do with it.
pub struct PassStep {
    pub path: String,
    pub action: EntryAction,
}

/// A pass over a vault: the content steps, which may run in any order and in
/// parallel, and then the folder renames, to be run one at a time in order.
pub struct PassPlan {
    pub files: Vec<PassStep>,
    pub folders: Vec<PassStep>,
}

/// The full path of `rel` under `root`.
pub open spec fn join_path(root: Seq<char>, rel: Seq<char>) -> Seq<char> {
    root + seq!['/'] + rel
}

/// A step's path and action.
pub open spec fn step_view(s: PassStep) -> (Seq<char>, EntryAction) {
    (s.path@, s.action)
}

/// The views of a list of steps.
pub open spec fn steps_view(v: Seq<PassStep>) -> Seq<(Seq<char>, EntryAction)> {
    v.map_values(|s: PassStep| step_view(s))
}

/// The content steps of a pass over `tree`: every file whose action is not
/// `Leave`, in snapshot order.
pub open spec fn file_steps(root: Seq<char>, tree: Seq<TreeEntry>, force_encrypt: bool) -> Seq<
    (Seq<char>, EntryAction),
>
    decreases tree.len(),
{
    if tree.len() == 0 {
        Seq::empty()
    } else {
        let rest = file_steps(root, tree.drop_last(), force_encrypt);
        let e = tree.last();
        let a = file_action_of(last_segment(e.path@), force_encrypt);
        if !e.is_dir && a != EntryAction::Leave {
            rest.push((join_path(root, e.path@), a))
        } else {
            rest
        }
    }
}

/// The folder steps at depth `d`: every directory at that depth whose action is
/// not `Leave`, in snapshot order.
pub open spec fn folder_steps_at(
    root: Seq<char>,
    tree: Seq<TreeEntry>,
    force_encrypt: bool,
    d: nat,
) -> Seq<(Seq<char>, EntryAction)>
    decreases tree.len(),
{
    if tree.len() == 0 {
        Seq::empty()
    } else {
        let rest = folder_steps_at(root, tree.drop_last(), force_encrypt, d);
        let e = tree.last();
        let a = folder_action_of(last_segment(e.path@), force_encrypt);
        if e.is_dir && depth(e.path@) == d && a != EntryAction::Leave {
            rest.push((join_path(root, e.path@), a))
        } else {
            rest
        }
    }
}

/// The folder steps at depth `d` and above, deepest first.
pub open spec fn folder_steps_from(
    root: Seq<char>,
    tree: Seq<TreeEntry>,
    force_encrypt: bool,
    d: int,
) -> Seq<(Seq<char>, EntryAction)>
    decreases d + 1,
{
    if d < 0 {
        Seq::empty()
    } else {
        folder_steps_at(root, tree, force_encrypt, d as nat) + folder_steps_from(
            root,
            tree,
            force_encrypt,
            d - 1,
        )
    }
}

/// The depth of the deepest entry of `tree`.
pub open spec fn max_depth(tree: Seq<TreeEntry>) -> nat
    decreases tree.len(),
{
    if tree.len() == 0 {
        0
    } else {
        let m = max_depth(tree.drop_last());
        let d = depth(tree.last().path@);
        if d > m {
            d
        } else {
            m
        }
    }
}

/// The folder steps of a pass over `tree`, deepest first.
pub open spec fn folder_steps(root: Seq<char>, tree: Seq<TreeEntry>, force_encrypt: bool) -> Seq<
    (Seq<char>, EntryAction),
> {
    folder_steps_from(root, tree, force_encrypt, max_depth(tree) as int)
}

/// How many separators `p` holds.
pub fn depth_of(p: &str) -> (r: usize)
    ensures
        r == depth(p@),
{
    let n = p.unicode_len();
    let mut count: usize = 0;
    let mut i: usize = 0;
    while i < n
        invariant
            n == p@.len(),
            i <= n,
            count == depth(p@.take(i as int)),
            count <= i,
        decreases n - i,
    {
        assert(p@.take(i + 1).drop_last() =~= p@.take(i as int));
        if p.get_char(i) == '/' {
            count = count + 1;
        }
        i = i + 1;
    }
    assert(p@.take(n as int) =~= p@);
    count
}

/// The last segment of `p`: the entry's own name.
fn entry_name(p: &str) -> (r: String)
    ensures
        r@ == last_segment(p@),
{
    let n = p.unicode_len();
    let start = find_segment_start(p);
    proof {
        lemma_segment_start_bounds(p@);
    }
    substring(p, start, n)
}

/// The full path of `rel` under `root`.
fn join(root: &str, rel: &str) -> (r: String)
    ensures
        r@ == join_path(root@, rel@),
{
    proof {
        reveal_strlit("/");
        assert("/"@ =~= seq!['/']);
    }
    String::from_str(root).concat("/").concat(rel)
}

/// Plans a lock (`force_encrypt`) or unlock pass over a snapshot of the tree
/// under `root`: first every file to encrypt or decrypt, then every folder to
/// rename, deepest first.
pub fn plan_pass(root: &str, tree: &Vec<TreeEntry>, force_encrypt: bool) -> (r: PassPlan)
    ensures
        steps_view(r.files@) == file_steps(root@, tree@, force_encrypt),
        steps_view(r.folders@) == folder_steps(root@, tree@, force_encrypt),
{
    let mut files: Vec<PassStep> = Vec::new();
    let mut depths: Vec<usize> = Vec::new();
    let mut deepest: usize = 0;
    let mut i: usize = 0;
    while i < tree.len()
        invariant
            i <= tree@.len(),
            steps_view(files@) == file_steps(root@, tree@.take(i as int), force_encrypt),
            depths@.len() == i,
            forall|j: int| 0 <= j < i ==> depths@[j] == depth(#[trigger] tree@[j].path@),
            deepest == max_depth(tree@.take(i as int)),
        decreases tree.len() - i,
    {
        let e = &tree[i];
        proof {
            assert(tree@.take(i + 1).drop_last() =~= tree@.take(i as int));
        }
        let d = depth_of(e.path.as_str());
        depths.push(d);
        if d > deepest {
            deepest = d;
        }
        if !e.is_dir {
            let name = entry_name(e.path.as_str());
            let a = file_action(name.as_str(), force_encrypt);
            let ghost before = files@;
            if a != EntryAction::Leave {
                files.push(PassStep { path: join(root, e.path.as_str()), action: a });
                assert(steps_view(files@) =~= steps_view(before).push(
                    (join_path(root@, e.path@), a),
                ));
            }
        }
        i = i + 1;
    }
    assert(tree@.take(tree@.len() as int) =~= tree@);
    let mut folders: Vec<PassStep> = Vec::new();
    let mut level: usize = deepest;
    let mut more = true;
    while more
        invariant
            level <= deepest,
            deepest == max_depth(tree@),
            depths@.len() == tree@.len(),
            forall|j: int| 0 <= j < tree@.len() ==> depths@[j] == depth(#[trigger] tree@[j].path@),
            more ==> steps_view(folders@) + folder_steps_from(root@, tree@, force_encrypt, level as int)
                == folder_steps(root@, tree@, force_encrypt),
            !more ==> steps_view(folders@) == folder_steps(root@, tree@, force_encrypt),
        decreases level + if more {
            1int
        } else {
            0int
        },
    {
        let d = level;
        let ghost at_start = folders@;
        let mut k: usize = 0;
        while k < tree.len()
            invariant
                k <= tree@.len(),
                d == level,
                depths@.len() == tree@.len(),
                forall|j: int|
                    0 <= j < tree@.len() ==> depths@[j] == depth(#[trigger] tree@[j].path@),
                steps_view(folders@) == steps_view(at_start) + folder_steps_at(
                    root@,
                    tree@.take(k as int),
                    force_encrypt,
                    d as nat,
                ),
            decreases tree.len() - k,
        {
            let e = &tree[k];
            proof {
                assert(tree@.take(k + 1).drop_last() =~= tree@.take(k as int));
            }
            if e.is_dir && depths[k] == d {
                let name = entry_name(e.path.as_str());
                let a = folder_action(name.as_str(), force_encrypt);
                let ghost before = folders@;
                if a != EntryAction::Leave {
                    folders.push(PassStep { path: join(root, e.path.as_str()), action: a });
                    assert(steps_view(folders@) =~= steps_view(before).push(
                        (join_path(root@, e.path@), a),
                    ));
                }
            }
            k = k + 1;
        }
        assert(tree@.take(tree@.len() as int) =~= tree@);
        proof {
            let rest = folder_steps_from(root@, tree@, force_encrypt, d - 1);
            let here = folder_steps_at(root@, tree@, force_encrypt, d as nat);
            assert(steps_view(at_start) + here + rest =~= steps_view(at_start) + (here + rest));
            if d == 0 {
                assert(rest =~= Seq::<(Seq<char>, EntryAction)>::empty());
                assert(steps_view(folders@) + rest =~= steps_view(folders@));
            }
        }
        if level == 0 {
            more = false;
        } else {
            level = level - 1;
        }
    }
    PassPlan { files, folders }
}

proof fn lemma_steps_at_depth(root: Seq<char>, tree: Seq<TreeEntry>, force_encrypt: bool, d: nat)
    ensures
        forall|k: int|
            0 <= k < folder_steps_at(root, tree, force_encrypt, d).len() ==> depth(
                #[trigger] folder_steps_at(root, tree, force_encrypt, d)[k].0,
            ) == depth(root) + 1 + d,
    decreases tree.len(),
{
    if tree.len() > 0 {
        lemma_steps_at_depth(root, tree.drop_last(), force_encrypt, d);
        lemma_join_depth(root, tree.last().path@);
        let s = folder_steps_at(root, tree, force_encrypt, d);
        let r = folder_steps_at(root, tree.drop_last(), force_encrypt, d);
        assert forall|k: int| 0 <= k < s.len() implies depth(#[trigger] s[k].0) == depth(root) + 1
            + d by {
            if k < r.len() {
                assert(s[k] == r[k]);
            }
        }
    }
}

proof fn lemma_steps_from_sorted(root: Seq<char>, tree: Seq<TreeEntry>, force_encrypt: bool, d: int)
    ensures
        ({
            let s = folder_steps_from(root, tree, force_encrypt, d);
            &&& forall|k: int| 0 <= k < s.len() ==> depth(#[trigger] s[k].0) <= depth(root) + 1 + d
            &&& forall|i: int, j: int|
                0 <= i < j < s.len() ==> depth(#[trigger] s[i].0) >= depth(#[trigger] s[j].0)
        }),
    decreases d + 1,
{
    if d >= 0 {
        lemma_steps_from_sorted(root, tree, force_encrypt, d - 1);
        lemma_steps_at_depth(root, tree, force_encrypt, d as nat);
        let a = folder_steps_at(root, tree, force_encrypt, d as nat);
        let b = folder_steps_from(root, tree, force_encrypt, d - 1);
        let s = a + b;
        assert(s == folder_steps_from(root, tree, force_encrypt, d));
        assert forall|k: int| 0 <= k < s.len() implies depth(#[trigger] s[k].0) <= depth(root) + 1
            + d by {
            if k >= a.len() {
                assert(s[k] == b[k - a.len()]);
            }
        }
        assert forall|i: int, j: int| 0 <= i < j < s.len() implies depth(#[trigger] s[i].0) >= depth(
            #[trigger] s[j].0,
        ) by {
            if j < a.len() {
            } else if i < a.len() {
                assert(s[j] == b[j - a.len()]);
            } else {
                assert(s[i] == b[i - a.len()]);
                assert(s[j] == b[j - a.len()]);
            }
        }
    }
}

/// Folder renames run deepest first: in a pass, no folder is renamed before a
/// folder that it holds, so every rename finds its path as the snapshot had it,
/// with only the folder's own descendants already renamed.
pub proof fn lemma_renames_deepest_first(root: Seq<char>, tree: Seq<TreeEntry>, force_encrypt: bool)
    ensures
        ({
            let s = folder_steps(root, tree, force_encrypt);
            forall|i: int, j: int|
                0 <= i < j < s.len() ==> !is_ancestor(#[trigger] s[i].0, #[trigger] s[j].0)
        }),
{
    lemma_steps_from_sorted(root, tree, force_encrypt, max_depth(tree) as int);
    let s = folder_steps(root, tree, force_encrypt);
    assert forall|i: int, j: int| 0 <= i < j < s.len() implies !is_ancestor(
        #[trigger] s[i].0,
        #[trigger] s[j].0,
    ) by {
        if is_ancestor(s[i].0, s[j].0) {
            lemma_ancestor_depth(s[i].0, s[j].0);
        }
    }
}

/// Whether a pass in the given direction leaves every entry of `tree` alone.
pub open spec fn all_settled(tree: Seq<TreeEntry>, force_encrypt: bool) -> bool {
    forall|i: int|
        0 <= i < tree.len() ==> if (#[trigger] tree[i]).is_dir {
            folder_action_of(last_segment(tree[i].path@), force_encrypt) == EntryAction::Leave
        } else {
            file_action_of(last_segment(tree[i].path@), force_encrypt) == EntryAction::Leave
        }
}

proof fn lemma_settled_prefix(tree: Seq<TreeEntry>, force_encrypt: bool)
    requires
        tree.len() > 0,
        all_settled(tree, force_encrypt),
    ensures
        all_settled(tree.drop_last(), force_encrypt),
{
    assert forall|i: int| 0 <= i < tree.drop_last().len() implies #[trigger] tree.drop_last()[i]
        == tree[i] by {}
}

proof fn lemma_settled_no_steps(root: Seq<char>, tree: Seq<TreeEntry>, force_encrypt: bool, d: nat)
    requires
        all_settled(tree, force_encrypt),
    ensures
        file_steps(root, tree, force_encrypt).len() == 0,
        folder_steps_at(root, tree, force_encrypt, d).len() == 0,
    decreases tree.len(),
{
    if tree.len() > 0 {
        lemma_settled_prefix(tree, force_encrypt);
        lemma_settled_no_steps(root, tree.drop_last(), force_encrypt, d);
        assert(tree.last() == tree[tree.len() - 1]);
    }
}

proof fn lemma_settled_no_renames(root: Seq<char>, tree: Seq<TreeEntry>, force_encrypt: bool, d: int)
    requires
        all_settled(tree, force_encrypt),
    ensures
        folder_steps_from(root, tree, force_encrypt, d).len() == 0,
    decreases d + 1,
{
    if d >= 0 {
        lemma_settled_no_steps(root, tree, force_encrypt, d as nat);
        lemma_settled_no_renames(root, tree, force_encrypt, d - 1);
    }
}

/// A pass over a tree whose entries are all in its target state plans nothing:
/// with the laws on single entries, running a pass twice in the same direction
/// does nothing the second time.
pub proof fn lemma_settled_tree_needs_nothing(root: Seq<char>, tree: Seq<TreeEntry>, force_encrypt: bool)
    requires
        all_settled(tree, force_encrypt),
    ensures
        file_steps(root, tree, force_encrypt).len() == 0,
        folder_steps(root, tree, force_encrypt).len() == 0,
{
    lemma_settled_no_steps(root, tree, force_encrypt, 0);
    lemma_settled_no_renames(root, tree, force_encrypt, max_depth(tree) as int);
}

/// Locking twice changes nothing the second time: a snapshot taken after a
/// lock pass, with every entry named as that pass names it (files under the
/// master key and their own stream nonces, folders under the folder key and
/// nonce), plans nothing for another lock pass.
pub proof fn lemma_second_lock_pass_idle(
    root: Seq<char>,
    before: Seq<TreeEntry>,
    after: Seq<TreeEntry>,
    master_key: Seq<u8>,
    stream_nonces: Seq<Seq<u8>>,
    folder_key: Seq<u8>,
    folder_nonce: Seq<u8>,
)
    requires
        after.len() == before.len(),
        stream_nonces.len() == before.len(),
        forall|i: int| 0 <= i < before.len() ==> (#[trigger] after[i]).is_dir == before[i].is_dir,
        forall|i: int|
            0 <= i < before.len() && before[i].is_dir ==> last_segment((#[trigger] after[i]).path@)
                == locked_folder_name(folder_key, folder_nonce, last_segment(before[i].path@)),
        forall|i: int|
            0 <= i < before.len() && !before[i].is_dir ==> last_segment(
                (#[trigger] after[i]).path@,
            ) == locked_file_name(
                master_key,
                file_name_nonce(stream_nonces[i]),
                last_segment(before[i].path@),
            ),
    ensures
        file_steps(root, after, true).len() == 0,
        folder_steps(root, after, true).len() == 0,
{
    assert forall|i: int| 0 <= i < after.len() implies if (#[trigger] after[i]).is_dir {
        folder_action_of(last_segment(after[i].path@), true) == EntryAction::Leave
    } else {
        file_action_of(last_segment(after[i].path@), true) == EntryAction::Leave
    } by {
        if before[i].is_dir {
            lemma_lock_pass_idempotent(folder_key, folder_nonce, last_segment(before[i].path@));
        } else {
            lemma_lock_pass_idempotent(
                master_key,
                file_name_nonce(stream_nonces[i]),
                last_segment(before[i].path@),
            );
        }
    }
    lemma_settled_tree_needs_nothing(root, after, true);
}

/// Unlocking twice changes nothing the second time. `before` is a snapshot, and
/// `after` the snapshot once an unlock pass has run on it: entries the pass
/// leaves keep their names, and every decrypted entry has the name its token
/// opens to (under that entry's key and nonce). Another unlock pass on `after`
/// plans nothing, provided no decrypted name carries the marker itself; a lock
/// pass never seals such a name (see `lemma_unlock_pass_idempotent`).
pub proof fn lemma_second_unlock_pass_idle(
    root: Seq<char>,
    before: Seq<TreeEntry>,
    after: Seq<TreeEntry>,
    keys: Seq<Seq<u8>>,
    nonces: Seq<Seq<u8>>,
)
    requires
        after.len() == before.len(),
        keys.len() == before.len(),
        nonces.len() == before.len(),
        forall|i: int| 0 <= i < before.len() ==> (#[trigger] after[i]).is_dir == before[i].is_dir,
        forall|i: int|
            0 <= i < before.len() ==> {
                let old_name = last_segment(before[i].path@);
                let new_name = last_segment((#[trigger] after[i]).path@);
                let act = if before[i].is_dir {
                    folder_action_of(old_name, false)
                } else {
                    file_action_of(old_name, false)
                };
                if act == EntryAction::Leave {
                    new_name == old_name
                } else {
                    opens_to(keys[i], nonces[i], old_name, new_name) && !has_marker(new_name)
                }
            },
    ensures
        file_steps(root, after, false).len() == 0,
        folder_steps(root, after, false).len() == 0,
{
    assert forall|i: int| 0 <= i < after.len() implies if (#[trigger] after[i]).is_dir {
        folder_action_of(last_segment(after[i].path@), false) == EntryAction::Leave
    } else {
        file_action_of(last_segment(after[i].path@), false) == EntryAction::Leave
    } by {
        let old_name = last_segment(before[i].path@);
        if is_sentinel(old_name) {
            lemma_sentinel_unmarked(old_name);
        }
    }
    lemma_settled_tree_needs_nothing(root, after, false);
}

proof fn lemma_file_steps_cover(root: Seq<char>, tree: Seq<TreeEntry>, force_encrypt: bool, i: int)
    requires
        0 <= i < tree.len(),
        !tree[i].is_dir,
        file_action_of(last_segment(tree[i].path@), force_encrypt) != EntryAction::Leave,
    ensures
        file_steps(root, tree, force_encrypt).contains(
            (
                join_path(root, tree[i].path@),
                file_action_of(last_segment(tree[i].path@), force_encrypt),
            ),
        ),
    decreases tree.len(),
{
    let s = file_steps(root, tree, force_encrypt);
    let x = (
        join_path(root, tree[i].path@),
        file_action_of(last_segment(tree[i].path@), force_encrypt),
    );
    if i == tree.len() - 1 {
        assert(s[s.len() - 1] == x);
    } else {
        lemma_file_steps_cover(root, tree.drop_last(), force_encrypt, i);
        let r = file_steps(root, tree.drop_last(), force_encrypt);
        let k = choose|k: int| 0 <= k < r.len() && r[k] == x;
        assert(s[k] == x);
    }
}

proof fn lemma_depth_within_max(tree: Seq<TreeEntry>, i: int)
    requires
        0 <= i < tree.len(),
    ensures
        depth(tree[i].path@) <= max_depth(tree),
    decreases tree.len(),
{
    if i < tree.len() - 1 {
        lemma_depth_within_max(tree.drop_last(), i);
    }
}

proof fn lemma_folder_steps_at_cover(
    root: Seq<char>,
    tree: Seq<TreeEntry>,
    force_encrypt: bool,
    i: int,
)
    requires
        0 <= i < tree.len(),
        tree[i].is_dir,
        folder_action_of(last_segment(tree[i].path@), force_encrypt) != EntryAction::Leave,
    ensures
        folder_steps_at(root, tree, force_encrypt, depth(tree[i].path@)).contains(
            (
                join_path(root, tree[i].path@),
                folder_action_of(last_segment(tree[i].path@), force_encrypt),
            ),
        ),
    decreases tree.len(),
{
    let d = depth(tree[i].path@);
    let s = folder_steps_at(root, tree, force_encrypt, d);
    let x = (
        join_path(root, tree[i].path@),
        folder_action_of(last_segment(tree[i].path@), force_encrypt),
    );
    if i == tree.len() - 1 {
        assert(s[s.len() - 1] == x);
    } else {
        lemma_folder_steps_at_cover(root, tree.drop_last(), force_encrypt, i);
        let r = folder_steps_at(root, tree.drop_last(), force_encrypt, d);
        let k = choose|k: int| 0 <= k < r.len() && r[k] == x;
        assert(s[k] == x);
    }
}

proof fn lemma_folder_steps_from_cover(
    root: Seq<char>,
    tree: Seq<TreeEntry>,
    force_encrypt: bool,
    i: int,
    d: int,
)
    requires
        0 <= i < tree.len(),
        tree[i].is_dir,
        folder_action_of(last_segment(tree[i].path@), force_encrypt) != EntryAction::Leave,
        depth(tree[i].path@) <= d,
    ensures
        folder_steps_from(root, tree, force_encrypt, d).contains(
            (
                join_path(root, tree[i].path@),
                folder_action_of(last_segment(tree[i].path@), force_encrypt),
            ),
        ),
    decreases d + 1,
{
    let x = (
        join_path(root, tree[i].path@),
        folder_action_of(last_segment(tree[i].path@), force_encrypt),
    );
    let a = folder_steps_at(root, tree, force_encrypt, d as nat);
    let b = folder_steps_from(root, tree, force_encrypt, d - 1);
    assert(folder_steps_from(root, tree, force_encrypt, d) == a + b);
    if depth(tree[i].path@) == d {
        lemma_folder_steps_at_cover(root, tree, force_encrypt, i);
        let k = choose|k: int| 0 <= k < a.len() && a[k] == x;
        assert((a + b)[k] == x);
    } else {
        lemma_folder_steps_from_cover(root, tree, force_encrypt, i, d - 1);
        let k = choose|k: int| 0 <= k < b.len() && b[k] == x;
        assert((a + b)[a.len() + k] == x);
    }
}

/// A pass misses nothing: every file and every folder of the snapshot that is
/// not yet in the target state has its step in the plan, so after a lock pass
/// every file but the sentinels carries the marker and every folder is renamed
/// to a token.
pub proof fn lemma_plan_covers(root: Seq<char>, tree: Seq<TreeEntry>, force_encrypt: bool, i: int)
    requires
        0 <= i < tree.len(),
    ensures
        !tree[i].is_dir && file_action_of(last_segment(tree[i].path@), force_encrypt)
            != EntryAction::Leave ==> file_steps(root, tree, force_encrypt).contains(
            (
                join_path(root, tree[i].path@),
                file_action_of(last_segment(tree[i].path@), force_encrypt),
            ),
        ),
        tree[i].is_dir && folder_action_of(last_segment(tree[i].path@), force_encrypt)
            != EntryAction::Leave ==> folder_steps(root, tree, force_encrypt).contains(
            (
                join_path(root, tree[i].path@),
                folder_action_of(last_segment(tree[i].path@), force_encrypt),
            ),
        ),
{
    if !tree[i].is_dir && file_action_of(last_segment(tree[i].path@), force_encrypt)
        != EntryAction::Leave {
        lemma_file_steps_cover(root, tree, force_encrypt, i);
    }
    if tree[i].is_dir && folder_action_of(last_segment(tree[i].path@), force_encrypt)
        != EntryAction::Leave {
        lemma_depth_within_max(tree, i);
        lemma_folder_steps_from_cover(root, tree, force_encrypt, i, max_depth(tree) as int);
    }
}

/// Whether a step of `steps` is for the file or folder `tree[i]` and carries
/// its action.
pub open spec fn step_from_file(
    root: Seq<char>,
    tree: Seq<TreeEntry>,
    force_encrypt: bool,
    step: (Seq<char>, EntryAction),
) -> bool {
    exists|i: int|
        0 <= i < tree.len() && !(#[trigger] tree[i]).is_dir && step == (
            join_path(root, tree[i].path@),
            file_action_of(last_segment(tree[i].path@), force_encrypt),
        ) && step.1 != EntryAction::Leave
}

/// Whether `step` is for a folder of `tree` and carries its action.
pub open spec fn step_from_folder(
    root: Seq<char>,
    tree: Seq<TreeEntry>,
    force_encrypt: bool,
    step: (Seq<char>, EntryAction),
) -> bool {
    exists|i: int|
        0 <= i < tree.len() && (#[trigger] tree[i]).is_dir && step == (
            join_path(root, tree[i].path@),
            folder_action_of(last_segment(tree[i].path@), force_encrypt),
        ) && step.1 != EntryAction::Leave
}

proof fn lemma_file_steps_sound(root: Seq<char>, tree: Seq<TreeEntry>, force_encrypt: bool)
    ensures
        forall|k: int|
            0 <= k < file_steps(root, tree, force_encrypt).len() ==> step_from_file(
                root,
                tree,
                force_encrypt,
                #[trigger] file_steps(root, tree, force_encrypt)[k],
            ),
    decreases tree.len(),
{
    if tree.len() > 0 {
        let t = tree.drop_last();
        lemma_file_steps_sound(root, t, force_encrypt);
        let s = file_steps(root, tree, force_encrypt);
        let r = file_steps(root, t, force_encrypt);
        assert forall|k: int| 0 <= k < s.len() implies step_from_file(
            root,
            tree,
            force_encrypt,
            #[trigger] s[k],
        ) by {
            if k < r.len() {
                assert(s[k] == r[k]);
                let i = choose|i: int|
                    0 <= i < t.len() && !(#[trigger] t[i]).is_dir && r[k] == (
                        join_path(root, t[i].path@),
                        file_action_of(last_segment(t[i].path@), force_encrypt),
                    ) && r[k].1 != EntryAction::Leave;
                assert(tree[i] == t[i]);
            } else {
                assert(tree[tree.len() - 1] == tree.last());
            }
        }
    }
}

proof fn lemma_folder_steps_at_sound(
    root: Seq<char>,
    tree: Seq<TreeEntry>,
    force_encrypt: bool,
    d: nat,
)
    ensures
        forall|k: int|
            0 <= k < folder_steps_at(root, tree, force_encrypt, d).len() ==> step_from_folder(
                root,
                tree,
                force_encrypt,
                #[trigger] folder_steps_at(root, tree, force_encrypt, d)[k],
            ),
    decreases tree.len(),
{
    if tree.len() > 0 {
        let t = tree.drop_last();
        lemma_folder_steps_at_sound(root, t, force_encrypt, d);
        let s = folder_steps_at(root, tree, force_encrypt, d);
        let r = folder_steps_at(root, t, force_encrypt, d);
        assert forall|k: int| 0 <= k < s.len() implies step_from_folder(
            root,
            tree,
            force_encrypt,
            #[trigger] s[k],
        ) by {
            if k < r.len() {
                assert(s[k] == r[k]);
                let i = choose|i: int|
                    0 <= i < t.len() && (#[trigger] t[i]).is_dir && r[k] == (
                        join_path(root, t[i].path@),
                        folder_action_of(last_segment(t[i].path@), force_encrypt),
                    ) && r[k].1 != EntryAction::Leave;
                assert(tree[i] == t[i]);
            } else {
                assert(tree[tree.len() - 1] == tree.last());
            }
        }
    }
}

proof fn lemma_folder_steps_from_sound(
    root: Seq<char>,
    tree: Seq<TreeEntry>,
    force_encrypt: bool,
    d: int,
)
    ensures
        forall|k: int|
            0 <= k < folder_steps_from(root, tree, force_encrypt, d).len() ==> step_from_folder(
                root,
                tree,
                force_encrypt,
                #[trigger] folder_steps_from(root, tree, force_encrypt, d)[k],
            ),
    decreases d + 1,
{
    if d >= 0 {
        lemma_folder_steps_at_sound(root, tree, force_encrypt, d as nat);
        lemma_folder_steps_from_sound(root, tree, force_encrypt, d - 1);
        let a = folder_steps_at(root, tree, force_encrypt, d as nat);
        let b = folder_steps_from(root, tree, force_encrypt, d - 1);
        let s = a + b;
        assert(s == folder_steps_from(root, tree, force_encrypt, d));
        assert forall|k: int| 0 <= k < s.len() implies step_from_folder(
            root,
            tree,
            force_encrypt,
            #[trigger] s[k],
        ) by {
            if k < a.len() {
                assert(s[k] == a[k]);
            } else {
                assert(s[k] == b[k - a.len()]);
            }
        }
    }
}

/// Whether no two entries of the snapshot share a path.
pub open spec fn distinct_paths(tree: Seq<TreeEntry>) -> bool {
    forall|a: int, b: int|
        0 <= a < tree.len() && 0 <= b < tree.len() && a != b ==> (#[trigger] tree[a]).path@
            != (#[trigger] tree[b]).path@
}

/// The plan touches only what needs it: every content step is for a file of
/// the snapshot, every rename for a folder of it, each with that entry's
/// action. So an entry already in the target state gets no step, even in a
/// tree where other entries still need one: a folder that a pass leaves keeps
/// its name, while the folders beneath it are still processed.
pub proof fn lemma_settled_entry_untouched(
    root: Seq<char>,
    tree: Seq<TreeEntry>,
    force_encrypt: bool,
    i: int,
)
    requires
        0 <= i < tree.len(),
        distinct_paths(tree),
    ensures
        forall|k: int|
            0 <= k < file_steps(root, tree, force_encrypt).len() ==> step_from_file(
                root,
                tree,
                force_encrypt,
                #[trigger] file_steps(root, tree, force_encrypt)[k],
            ),
        forall|k: int|
            0 <= k < folder_steps(root, tree, force_encrypt).len() ==> step_from_folder(
                root,
                tree,
                force_encrypt,
                #[trigger] folder_steps(root, tree, force_encrypt)[k],
            ),
        tree[i].is_dir && folder_action_of(last_segment(tree[i].path@), force_encrypt)
            == EntryAction::Leave ==> forall|k: int|
            0 <= k < folder_steps(root, tree, force_encrypt).len() ==> (#[trigger] folder_steps(
                root,
                tree,
                force_encrypt,
            )[k]).0 != join_path(root, tree[i].path@),
        !tree[i].is_dir && file_action_of(last_segment(tree[i].path@), force_encrypt)
            == EntryAction::Leave ==> forall|k: int|
            0 <= k < file_steps(root, tree, force_encrypt).len() ==> (#[trigger] file_steps(
                root,
                tree,
                force_encrypt,
            )[k]).0 != join_path(root, tree[i].path@),
{
    lemma_file_steps_sound(root, tree, force_encrypt);
    lemma_folder_steps_from_sound(root, tree, force_encrypt, max_depth(tree) as int);
    let fs = file_steps(root, tree, force_encrypt);
    let ds = folder_steps(root, tree, force_encrypt);
    assert forall|k: int| 0 <= k < ds.len() && tree[i].is_dir && folder_action_of(
        last_segment(tree[i].path@),
        force_encrypt,
    ) == EntryAction::Leave implies (#[trigger] ds[k]).0 != join_path(root, tree[i].path@) by {
        let j = choose|j: int|
            0 <= j < tree.len() && (#[trigger] tree[j]).is_dir && ds[k] == (
                join_path(root, tree[j].path@),
                folder_action_of(last_segment(tree[j].path@), force_encrypt),
            ) && ds[k].1 != EntryAction::Leave;
        if join_path(root, tree[j].path@) == join_path(root, tree[i].path@) {
            lemma_join_injective(root, tree[j].path@, tree[i].path@);
        }
    }
    assert forall|k: int| 0 <= k < fs.len() && !tree[i].is_dir && file_action_of(
        last_segment(tree[i].path@),
        force_encrypt,
    ) == EntryAction::Leave implies (#[trigger] fs[k]).0 != join_path(root, tree[i].path@) by {
        let j = choose|j: int|
            0 <= j < tree.len() && !(#[trigger] tree[j]).is_dir && fs[k] == (
                join_path(root, tree[j].path@),
                file_action_of(last_segment(tree[j].path@), force_encrypt),
            ) && fs[k].1 != EntryAction::Leave;
        if join_path(root, tree[j].path@) == join_path(root, tree[i].path@) {
            lemma_join_injective(root, tree[j].path@, tree[i].path@);
        }
    }
}

proof fn lemma_join_injective(root: Seq<char>, a: Seq<char>, b: Seq<char>)
    requires
        join_path(root, a) == join_path(root, b),
    ensures
        a == b,
{
    let n = root.len() as int + 1;
    assert(join_path(root, a).skip(n) =~= a);
    assert(join_path(root, b).skip(n) =~= b);
}

/// The phase gate of a pass: which rename may run next, given which content
/// steps have finished (succeeded or failed) and how many renames have run. A
/// rename is handed out only once every content step has finished, so no
/// folder is renamed while a file beneath it may still be in use; renames then
/// come one at a time, in the planned order.
pub fn next_rename(plan: &PassPlan, finished: &Vec<bool>, renamed: usize) -> (r: Option<usize>)
    requires
        finished@.len() == plan.files@.len(),
    ensures
        r is Some <==> (forall|i: int| 0 <= i < finished@.len() ==> #[trigger] finished@[i])
            && renamed < plan.folders@.len(),
        r is Some ==> r->Some_0 == renamed,
{
    let mut i: usize = 0;
    while i < finished.len()
        invariant
            i <= finished@.len(),
            forall|j: int| 0 <= j < i ==> #[trigger] finished@[j],
        decreases finished.len() - i,
    {
        if !finished[i] {
            return None;
        }
        i = i + 1;
    }
    if renamed < plan.folders.len() {
        Some(renamed)
    } else {
        None
    }
}

/// Whether the directory `a` holds `b`.
pub fn path_is_ancestor(a: &str, b: &str) -> (r: bool)
    ensures
        r == is_ancestor(a@, b@),
{
    let n = a.unicode_len();
    let m = b.unicode_len();
    if n >= m {
        return false;
    }
    let mut k: usize = 0;
    while k < n
        invariant
            n == a@.len(),
            m == b@.len(),
            n < m,
            k <= n,
            forall|j: int| 0 <= j < k ==> a@[j] == b@[j],
        decreases n - k,
    {
        if a.get_char(k) != b.get_char(k) {
            assert(b@.take(n as int)[k as int] != a@[k as int]);
            return false;
        }
        k = k + 1;
    }
    assert(b@.take(n as int) =~= a@);
    b.get_char(n) == '/'
}

/// Whether a rename at `path` must be skipped: a folder beneath it failed to
/// be renamed, so its subtree is not as the plan expects. Failures stop only
/// the renames of the folders above them.
pub fn holds_failed(path: &str, failed: &Vec<String>) -> (r: bool)
    ensures
        r == exists|i: int| 0 <= i < failed@.len() && is_ancestor(path@, #[trigger] failed@[i]@),
{
    let mut i: usize = 0;
    while i < failed.len()
        invariant
            i <= failed@.len(),
            forall|j: int| 0 <= j < i ==> !is_ancestor(path@, #[trigger] failed@[j]@),
        decreases failed.len() - i,
    {
        if path_is_ancestor(path, failed[i].as_str()) {
            return true;
        }
        i = i + 1;
    }
    false
}

} // verus!
