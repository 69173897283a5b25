//! Vault descriptors: where a vault's masterfile and root are, how its status is
//! classified from the entries of its root, and the registry text that lists
//! vaults one per line as `name,master_file_path`.

use vstd::prelude::*;
use vstd::string::*;
use crate::names::{has_marker, marker};
use crate::text::{
    drop_last_if, ends_with, split_on, split_str, str_ends_with, str_equal, string_views, substring,
};

verus! {

/// The file name of every vault's masterfile.
pub const MASTERFILE_NAME: &'static str = "masterfile.e";

/// The masterfile's file name as characters.
pub open spec fn masterfile_name() -> Seq<char> {
    seq!['m', 'a', 's', 't', 'e', 'r', 'f', 'i', 'l', 'e', '.', 'e']
}

/// What a masterfile path ends with: a separator and the masterfile's name.
pub open spec fn masterfile_suffix() -> Seq<char> {
    seq!['/'] + masterfile_name()
}

/// The path of the masterfile of the vault rooted at `root`.
pub open spec fn masterfile_path_of(root: Seq<char>) -> Seq<char> {
    if root.len() > 0 && root.last() == '/' {
        root + masterfile_name()
    } else {
        root + masterfile_suffix()
    }
}

proof fn lemma_literals()
    ensures
        MASTERFILE_NAME@ == masterfile_name(),
        "/"@ == seq!['/'],
        "/masterfile.e"@ == masterfile_suffix(),
        ".DS_Store"@ == ds_store_name(),
        "Icon"@ == icon_name(),
{
    reveal_strlit("masterfile.e");
    reveal_strlit("/");
    reveal_strlit("/masterfile.e");
    reveal_strlit(".DS_Store");
    reveal_strlit("Icon");
    assert(MASTERFILE_NAME@ =~= masterfile_name());
    assert("/"@ =~= seq!['/']);
    assert("/masterfile.e"@ =~= masterfile_suffix());
    assert(".DS_Store"@ =~= ds_store_name());
    assert("Icon"@ =~= icon_name());
}

/// The path of the masterfile of the vault rooted at `root`.
pub fn masterfile_path(root: &str) -> (r: String)
    ensures
        r@ == masterfile_path_of(root@),
{
    proof {
        lemma_literals();
    }
    let n = root.unicode_len();
    if n > 0 && root.get_char(n - 1) == '/' {
        String::from_str(root).concat(MASTERFILE_NAME)
    } else {
        String::from_str(root).concat("/masterfile.e")
    }
}

/// The root directory of the vault whose masterfile is at `master_file_path`:
/// the path without its `/masterfile.e` suffix, or `None` when it has none.
pub fn vault_root(master_file_path: &str) -> (r: Option<String>)
    ensures
        r is Some <==> ends_with(master_file_path@, masterfile_suffix()),
        r is Some ==> r->Some_0@ + masterfile_suffix() == master_file_path@,
{
    proof {
        lemma_literals();
    }
    if !str_ends_with(master_file_path, "/masterfile.e") {
        return None;
    }
    let n = master_file_path.unicode_len();
    let root = substring(master_file_path, 0, n - 13);
    assert(root@ + masterfile_suffix() =~= master_file_path@);
    Some(root)
}

/// macOS's folder metadata file.
pub open spec fn ds_store_name() -> Seq<char> {
    seq!['.', 'D', 'S', '_', 'S', 't', 'o', 'r', 'e']
}

/// macOS's custom-icon file.
pub open spec fn icon_name() -> Seq<char> {
    seq!['I', 'c', 'o', 'n']
}

/// Names that belong to the vault's machinery or to the operating system and
/// are never encrypted, decrypted or counted.
pub open spec fn is_sentinel(name: Seq<char>) -> bool {
    name == masterfile_name() || name == ds_store_name() || name == icon_name()
}

/// Whether `name` is a sentinel name.
pub fn is_sentinel_name(name: &str) -> (r: bool)
    ensures
        r == is_sentinel(name@),
{
    proof {
        lemma_literals();
    }
    str_equal(name, MASTERFILE_NAME) || str_equal(name, ".DS_Store") || str_equal(name, "Icon")
}

/// No sentinel name carries the encrypted marker.
pub proof fn lemma_sentinel_unmarked(name: Seq<char>)
    requires
        is_sentinel(name),
    ensures
        !has_marker(name),
{
    if name == masterfile_name() {
        let tail = name.subrange(name.len() - 10, name.len() as int);
        assert(tail[0] == 's');
        assert(marker()[0] == '.');
    } else if name == ds_store_name() {
        assert(name.len() < 10);
    } else {
        assert(name.len() < 10);
    }
}

/// The encryption status of a vault.
#[derive(Clone, Copy, Debug, PartialEq, Eq, Structural)]
pub enum VaultStatus {
    /// Only encrypted files.
    Locked,
    /// Only plaintext files.
    Unlocked,
    /// Both: a state to resolve by locking again.
    Mixed,
    /// Neither: no files but sentinels.
    Unknown,
}

/// One entry of a directory: its file name and whether it is a regular file.
pub struct DirEntry {
    pub name: String,
    pub is_file: bool,
}

/// Whether an entry counts as an encrypted file.
pub open spec fn counts_encrypted(e: DirEntry) -> bool {
    e.is_file && !is_sentinel(e.name@) && has_marker(e.name@)
}

/// Whether an entry counts as a plaintext file.
pub open spec fn counts_plain(e: DirEntry) -> bool {
    e.is_file && !is_sentinel(e.name@) && !has_marker(e.name@)
}

/// The status of a vault whose root holds `entries`.
pub open spec fn status_of(entries: Seq<DirEntry>) -> VaultStatus {
    let enc = exists|i: int| 0 <= i < entries.len() && #[trigger] counts_encrypted(entries[i]);
    let plain = exists|i: int| 0 <= i < entries.len() && #[trigger] counts_plain(entries[i]);
    if enc && plain {
        VaultStatus::Mixed
    } else if enc {
        VaultStatus::Locked
    } else if plain {
        VaultStatus::Unlocked
    } else {
        VaultStatus::Unknown
    }
}

/// Classifies a vault from the entries directly under its root.
pub fn check_vault_status(entries: &Vec<DirEntry>) -> (r: VaultStatus)
    ensures
        r == status_of(entries@),
{
    let mut enc = false;
    let mut plain = false;
    let mut i: usize = 0;
    while i < entries.len()
        invariant
            i <= entries@.len(),
            enc == exists|j: int| 0 <= j < i && #[trigger] counts_encrypted(entries@[j]),
            plain == exists|j: int| 0 <= j < i && #[trigger] counts_plain(entries@[j]),
        decreases entries.len() - i,
    {
        let e = &entries[i];
        if e.is_file && !is_sentinel_name(e.name.as_str()) {
            if crate::names::name_has_marker(e.name.as_str()) {
                enc = true;
            } else {
                plain = true;
            }
        }
        let ghost k = i as int;
        i = i + 1;
        proof {
            assert(enc == exists|j: int| 0 <= j < i && #[trigger] counts_encrypted(entries@[j])) by {
                if counts_encrypted(entries@[k]) {
                    assert(0 <= k < i);
                } else {
                    assert forall|j: int| 0 <= j < i && #[trigger] counts_encrypted(entries@[j])
                        implies 0 <= j < k by {}
                }
            }
            assert(plain == exists|j: int| 0 <= j < i && #[trigger] counts_plain(entries@[j])) by {
                if counts_plain(entries@[k]) {
                    assert(0 <= k < i);
                } else {
                    assert forall|j: int| 0 <= j < i && #[trigger] counts_plain(entries@[j])
                        implies 0 <= j < k by {}
                }
            }
        }
    }
    if enc && plain {
        VaultStatus::Mixed
    } else if enc {
        VaultStatus::Locked
    } else if plain {
        VaultStatus::Unlocked
    } else {
        VaultStatus::Unknown
    }
}

/// A registered vault.
pub struct Vault {
    pub name: String,
    /// Where its masterfile is.
    pub master_file_path: String,
    /// Its root directory: the masterfile's directory.
    pub path: String,
    /// Its status when last classified.
    pub status: VaultStatus,
}

impl Vault {
    /// Whether the root is the masterfile's directory.
    pub open spec fn well_formed(&self) -> bool {
        self.path@ + masterfile_suffix() == self.master_file_path@
    }

    /// A vault whose masterfile is at `master_file_path`; its status is
    /// `Unknown` until it is classified.
    pub fn new(name: String, master_file_path: String) -> (r: Vault)
        requires
            ends_with(master_file_path@, masterfile_suffix()),
        ensures
            r.name@ == name@,
            r.master_file_path@ == master_file_path@,
            r.status == VaultStatus::Unknown,
            r.well_formed(),
    {
        let path = match vault_root(master_file_path.as_str()) {
            Some(p) => p,
            None => vstd::pervasive::unreached(),
        };
        Vault { name, master_file_path, path, status: VaultStatus::Unknown }
    }

    /// Records a fresh classification of the vault; returns whether it is
    /// mixed, a state the operator must resolve by locking the vault again.
    pub fn check_status(&mut self, status: VaultStatus) -> (needs_resolution: bool)
        ensures
            final(self).status == status,
            final(self).name == old(self).name,
            final(self).master_file_path == old(self).master_file_path,
            final(self).path == old(self).path,
            needs_resolution == (status == VaultStatus::Mixed),
    {
        self.status = status;
        status == VaultStatus::Mixed
    }
}

/// Records freshly classified statuses, one per vault, in order; nothing else
/// about the vaults changes.
pub fn recheck_vault_status(vaults: &mut Vec<Vault>, statuses: &Vec<VaultStatus>)
    requires
        old(vaults)@.len() == statuses@.len(),
    ensures
        final(vaults)@.len() == old(vaults)@.len(),
        forall|i: int|
            0 <= i < final(vaults)@.len() ==> {
                &&& #[trigger] final(vaults)@[i].status == statuses@[i]
                &&& final(vaults)@[i].name == old(vaults)@[i].name
                &&& final(vaults)@[i].master_file_path == old(vaults)@[i].master_file_path
                &&& final(vaults)@[i].path == old(vaults)@[i].path
            },
{
    let mut i: usize = 0;
    while i < vaults.len()
        invariant
            vaults@.len() == old(vaults)@.len(),
            statuses@.len() == old(vaults)@.len(),
            i <= vaults@.len(),
            forall|j: int|
                0 <= j < vaults@.len() ==> {
                    &&& #[trigger] vaults@[j].name == old(vaults)@[j].name
                    &&& vaults@[j].master_file_path == old(vaults)@[j].master_file_path
                    &&& vaults@[j].path == old(vaults)@[j].path
                },
            forall|j: int| 0 <= j < i ==> #[trigger] vaults@[j].status == statuses@[j],
        decreases old(vaults)@.len() - i,
    {
        let v = vaults.remove(i);
        vaults.insert(
            i,
            Vault {
                name: v.name,
                master_file_path: v.master_file_path,
                path: v.path,
                status: statuses[i],
            },
        );
        i = i + 1;
    }
}

/// A registry line without a final carriage return.
pub open spec fn line_body(line: Seq<char>) -> Seq<char> {
    drop_last_if(line, '\r')
}

/// The vault that a registry line names, as its name and masterfile path: the
/// first two comma-separated fields, when the second is a masterfile path.
pub open spec fn registry_entry(line: Seq<char>) -> Option<(Seq<char>, Seq<char>)> {
    let fields = split_on(line_body(line), ',');
    if fields.len() >= 2 && ends_with(fields[1], masterfile_suffix()) {
        Some((fields[0], fields[1]))
    } else {
        None
    }
}

/// The vaults that a sequence of registry lines names, in order.
pub open spec fn registry_entries(lines: Seq<Seq<char>>) -> Seq<(Seq<char>, Seq<char>)>
    decreases lines.len(),
{
    if lines.len() == 0 {
        Seq::empty()
    } else {
        let rest = registry_entries(lines.drop_last());
        match registry_entry(lines.last()) {
            Some(e) => rest.push(e),
            None => rest,
        }
    }
}

/// The vaults that registry text names, in order.
pub open spec fn registry_vaults(text: Seq<char>) -> Seq<(Seq<char>, Seq<char>)> {
    registry_entries(split_on(text, '\n'))
}

/// Reads the vaults listed in registry text, one `name,master_file_path` per
/// line; lines without such a pair are passed over. Their statuses are
/// `Unknown` until classified.
pub fn read_config_file(contents: &str) -> (r: Vec<Vault>)
    ensures
        r@.len() == registry_vaults(contents@).len(),
        forall|i: int|
            0 <= i < r@.len() ==> {
                &&& (#[trigger] r@[i]).name@ == registry_vaults(contents@)[i].0
                &&& r@[i].master_file_path@ == registry_vaults(contents@)[i].1
                &&& r@[i].status == VaultStatus::Unknown
                &&& r@[i].well_formed()
            },
{
    let lines = split_str(contents, '\n');
    let ghost lv = string_views(lines@);
    let mut vaults: Vec<Vault> = Vec::new();
    let mut i: usize = 0;
    while i < lines.len()
        invariant
            lv == string_views(lines@),
            lv == split_on(contents@, '\n'),
            i <= lines@.len(),
            vaults@.len() == registry_entries(lv.take(i as int)).len(),
            forall|j: int|
                0 <= j < vaults@.len() ==> {
                    &&& (#[trigger] vaults@[j]).name@ == registry_entries(lv.take(i as int))[j].0
                    &&& vaults@[j].master_file_path@ == registry_entries(lv.take(i as int))[j].1
                    &&& vaults@[j].status == VaultStatus::Unknown
                    &&& vaults@[j].well_formed()
                },
        decreases lines.len() - i,
    {
        let line = lines[i].as_str();
        let n = line.unicode_len();
        let body = if n > 0 && line.get_char(n - 1) == '\r' {
            line.substring_char(0, n - 1)
        } else {
            line
        };
        assert(body@ =~= line_body(lv[i as int]));
        let fields = split_str(body, ',');
        let ghost fv = string_views(fields@);
        proof {
            assert(lv.take(i + 1).drop_last() =~= lv.take(i as int));
            assert(lv.take(i + 1).last() == lv[i as int]);
        }
        if fields.len() >= 2 && str_ends_with(fields[1].as_str(), "/masterfile.e") {
            proof {
                lemma_literals();
                assert(fv[0] == fields@[0]@ && fv[1] == fields@[1]@);
            }
            let v = Vault::new(
                String::from_str(fields[0].as_str()),
                String::from_str(fields[1].as_str()),
            );
            vaults.push(v);
        } else {
            proof {
                lemma_literals();
                if fields@.len() >= 2 {
                    assert(fv[1] == fields@[1]@);
                }
            }
        }
        i = i + 1;
    }
    assert(lv.take(lines@.len() as int) =~= lv);
    vaults
}

/// The registry line for a vault: its name, a comma, its masterfile path and a
/// line feed.
pub open spec fn registry_line(name: Seq<char>, master_file_path: Seq<char>) -> Seq<char> {
    name + seq![','] + master_file_path + seq!['\n']
}

/// The registry line for a vault.
pub fn config_line(name: &str, master_file_path: &str) -> (r: String)
    ensures
        r@ == registry_line(name@, master_file_path@),
{
    proof {
        reveal_strlit(",");
        reveal_strlit("\n");
        assert(","@ =~= seq![',']);
        assert("\n"@ =~= seq!['\n']);
    }
    String::from_str(name).concat(",").concat(master_file_path).concat("\n")
}

/// The registry text listing `vaults`, one line each, in order.
pub open spec fn registry_text(vaults: Seq<Vault>) -> Seq<char>
    decreases vaults.len(),
{
    if vaults.len() == 0 {
        Seq::empty()
    } else {
        registry_text(vaults.drop_last()) + registry_line(
            vaults.last().name@,
            vaults.last().master_file_path@,
        )
    }
}

/// The registry text listing `vaults`.
pub fn render_config(vaults: &Vec<Vault>) -> (r: String)
    ensures
        r@ == registry_text(vaults@),
{
    let mut text = String::new();
    let mut i: usize = 0;
    while i < vaults.len()
        invariant
            i <= vaults@.len(),
            text@ == registry_text(vaults@.take(i as int)),
        decreases vaults.len() - i,
    {
        let line = config_line(vaults[i].name.as_str(), vaults[i].master_file_path.as_str());
        proof {
            assert(vaults@.take(i + 1).drop_last() =~= vaults@.take(i as int));
        }
        text = text.concat(line.as_str());
        i = i + 1;
    }
    assert(vaults@.take(vaults@.len() as int) =~= vaults@);
    text
}

} // verus!
