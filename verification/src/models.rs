//! Shared data model: vaults, their metadata, directory entries, change
//! events, the error taxonomy, and the in-memory vault registry.

use vstd::prelude::*;
use vstd::map::*;

verus! {

/// A vault identifier: the 128 bits of a time-ordered unique id.
pub type VaultId = u128;

/// A known vault, as surfaced to callers. Identity is `id`; `name` and `path`
/// are derived and change on rename. `version` is persisted but never advanced
/// by any current operation. Timestamps are whole seconds.
#[derive(Debug, Clone)]
pub struct Vault {
    pub id: VaultId,
    pub name: String,
    pub path: String,
    pub version: u32,
    pub created_at: i64,
    pub updated_at: i64,
}

pub ghost struct VaultV {
    pub id: VaultId,
    pub name: Seq<char>,
    pub path: Seq<char>,
    pub version: u32,
    pub created_at: i64,
    pub updated_at: i64,
}

impl View for Vault {
    type V = VaultV;

    open spec fn view(&self) -> VaultV {
        VaultV {
            id: self.id,
            name: self.name@,
            path: self.path@,
            version: self.version,
            created_at: self.created_at,
            updated_at: self.updated_at,
        }
    }
}

impl DeepView for Vault {
    type V = VaultV;

    open spec fn deep_view(&self) -> VaultV {
        self.view()
    }
}

/// The self-describing record persisted inside a vault at
/// `<vault>/.inkrypt/vault.json`: the authoritative source of its identity.
#[derive(Debug, Clone, Copy, PartialEq, Eq, Structural)]
pub struct VaultMetadata {
    pub id: VaultId,
    pub version: u32,
    pub created_at: i64,
}

/// Whether a listed entry is a directory or a note.
#[derive(Debug, Clone, Copy, PartialEq, Eq, Structural)]
pub enum EntryType {
    Directory,
    Note,
}

/// One row of a single-level directory listing; rebuilt from the filesystem
/// on every call, never persisted. `path` is vault-relative with `/`
/// separators; timestamps are absent when the platform cannot supply them.
#[derive(Debug, Clone)]
pub struct Entry {
    pub name: String,
    pub path: String,
    pub entry_type: EntryType,
    pub created_at: Option<i64>,
    pub updated_at: Option<i64>,
}

pub ghost struct EntryV {
    pub name: Seq<char>,
    pub path: Seq<char>,
    pub entry_type: EntryType,
    pub created_at: Option<i64>,
    pub updated_at: Option<i64>,
}

impl View for Entry {
    type V = EntryV;

    open spec fn view(&self) -> EntryV {
        EntryV {
            name: self.name@,
            path: self.path@,
            entry_type: self.entry_type,
            created_at: self.created_at,
            updated_at: self.updated_at,
        }
    }
}

impl DeepView for Entry {
    type V = EntryV;

    open spec fn deep_view(&self) -> EntryV {
        self.view()
    }
}

/// The kind of a coalesced change event. `Rename` is declared for the emitted
/// stream but the current native-event mapping never produces it: a native
/// rename arrives as separate delete and create events.
#[derive(Debug, Clone, Copy, PartialEq, Eq, Structural)]
pub enum FileEventType {
    Create,
    Modify,
    Delete,
    Rename,
}

/// A coalesced change event: `path` is relative to the watched vault root,
/// `/`-separated.
#[derive(Debug, Clone)]
pub struct FileSystemEvent {
    pub event_type: FileEventType,
    pub path: String,
    pub vault_id: VaultId,
}

pub ghost struct FileSystemEventV {
    pub event_type: FileEventType,
    pub path: Seq<char>,
    pub vault_id: VaultId,
}

impl View for FileSystemEvent {
    type V = FileSystemEventV;

    open spec fn view(&self) -> FileSystemEventV {
        FileSystemEventV { event_type: self.event_type, path: self.path@, vault_id: self.vault_id }
    }
}

impl DeepView for FileSystemEvent {
    type V = FileSystemEventV;

    open spec fn deep_view(&self) -> FileSystemEventV {
        self.view()
    }
}

/// The error taxonomy of every vault operation.
#[derive(Debug, Clone, Copy, PartialEq, Eq, Structural)]
pub enum VaultError {
    /// Target path or name collision on create or rename.
    AlreadyExists,
    /// Unknown vault id.
    NotFound,
    /// Missing or unparseable vault metadata at open or resolve time.
    InvalidVault,
    /// An underlying filesystem operation failed.
    IOFailure,
    /// Registry or metadata encode/decode failure.
    SerializationFailure,
}

impl VaultError {
    /// A human-readable description of the error.
    pub fn message(&self) -> (r: String)
        ensures
            *self is AlreadyExists ==> r@ == "A directory with this name already exists"@,
            *self is NotFound ==> r@ == "Vault not found"@,
            *self is InvalidVault ==> r@ == "Not a valid vault: vault.json not found"@,
            *self is IOFailure ==> r@ == "The filesystem operation failed"@,
            *self is SerializationFailure ==> r@ == "Failed to encode or decode a record"@,
    {
        match self {
            VaultError::AlreadyExists => "A directory with this name already exists".to_owned(),
            VaultError::NotFound => "Vault not found".to_owned(),
            VaultError::InvalidVault => "Not a valid vault: vault.json not found".to_owned(),
            VaultError::IOFailure => "The filesystem operation failed".to_owned(),
            VaultError::SerializationFailure => "Failed to encode or decode a record".to_owned(),
        }
    }
}

/// One registry row: a vault id and the absolute path it was last seen at.
#[derive(Debug, Clone)]
pub struct RegEntry {
    pub id: VaultId,
    pub path: String,
}

/// The durable index mapping vault identity to filesystem location. A cache
/// only: the metadata file inside each vault is authoritative, and an entry
/// is trusted only after that file has been re-read and its id matched.
#[derive(Debug, Clone)]
pub struct VaultRegistry {
    pub vaults: Vec<RegEntry>,
}

/// The mapping a sequence of registry rows denotes: later rows win.
pub open spec fn reg_map(s: Seq<RegEntry>) -> Map<VaultId, Seq<char>>
    decreases s.len(),
{
    if s.len() == 0 {
        Map::empty()
    } else {
        reg_map(s.drop_last()).insert(s.last().id, s.last().path@)
    }
}

/// A key is in the denoted mapping exactly when some row carries it.
pub proof fn lemma_reg_map_dom(s: Seq<RegEntry>, id: VaultId)
    ensures
        reg_map(s).contains_key(id) <==> exists|i: int| 0 <= i < s.len() && s[i].id == id,
    decreases s.len(),
{
    if s.len() > 0 {
        lemma_reg_map_dom(s.drop_last(), id);
        if s.last().id != id {
            if exists|i: int| 0 <= i < s.len() && s[i].id == id {
                let i = choose|i: int| 0 <= i < s.len() && s[i].id == id;
                assert(s.drop_last()[i] == s[i]);
            }
        }
    }
}

/// Under distinct ids, the row carrying a key gives its value.
pub proof fn lemma_reg_map_index(s: Seq<RegEntry>, i: int)
    requires
        reg_distinct(s),
        0 <= i < s.len(),
    ensures
        reg_map(s).contains_key(s[i].id),
        reg_map(s)[s[i].id] == s[i].path@,
    decreases s.len(),
{
    lemma_reg_map_dom(s, s[i].id);
    if i < s.len() - 1 {
        assert(s.drop_last()[i] == s[i]);
        assert(reg_distinct(s.drop_last()));
        lemma_reg_map_index(s.drop_last(), i);
    }
}

/// Removing the row that carries a key removes the key, under distinct ids.
pub proof fn lemma_reg_map_remove(s: Seq<RegEntry>, i: int)
    requires
        reg_distinct(s),
        0 <= i < s.len(),
    ensures
        reg_map(s.remove(i)) == reg_map(s).remove(s[i].id),
    decreases s.len(),
{
    if i == s.len() - 1 {
        assert(s.remove(i) =~= s.drop_last());
        lemma_reg_map_dom(s.drop_last(), s[i].id);
        assert_maps_equal!(reg_map(s.drop_last()), reg_map(s).remove(s[i].id));
    } else {
        assert(s.remove(i).drop_last() =~= s.drop_last().remove(i));
        assert(s.remove(i).last() == s.last());
        assert(reg_distinct(s.drop_last()));
        assert(forall|k: int| 0 <= k < s.drop_last().len() ==> s.drop_last()[k] == s[k]);
        lemma_reg_map_remove(s.drop_last(), i);
        assert_maps_equal!(
            reg_map(s.drop_last()).remove(s[i].id).insert(s.last().id, s.last().path@),
            reg_map(s).remove(s[i].id)
        );
    }
}

/// No two registry rows carry the same id.
pub open spec fn reg_distinct(s: Seq<RegEntry>) -> bool {
    forall|i: int, j: int| 0 <= i < s.len() && 0 <= j < s.len() && i != j ==> s[i].id != s[j].id
}

impl VaultRegistry {
    /// The mapping this registry holds.
    pub open spec fn as_map(&self) -> Map<VaultId, Seq<char>> {
        reg_map(self.vaults@)
    }

    /// Well-formedness: each id appears in at most one row.
    pub open spec fn wf(&self) -> bool {
        reg_distinct(self.vaults@)
    }

    /// An empty registry.
    pub fn new() -> (r: Self)
        ensures
            r.wf(),
            r.as_map() == Map::<VaultId, Seq<char>>::empty(),
    {
        VaultRegistry { vaults: Vec::new() }
    }

    /// Index of the row carrying `id`, if any.
    fn find_index(&self, id: VaultId) -> (r: Option<usize>)
        ensures
            match r {
                Some(i) => i < self.vaults@.len() && self.vaults@[i as int].id == id,
                None => forall|i: int| 0 <= i < self.vaults@.len() ==> self.vaults@[i].id != id,
            },
    {
        let mut i: usize = 0;
        while i < self.vaults.len()
            invariant
                i <= self.vaults@.len(),
                forall|j: int| 0 <= j < i ==> self.vaults@[j].id != id,
            decreases self.vaults@.len() - i,
        {
            if self.vaults[i].id == id {
                return Some(i);
            }
            i = i + 1;
        }
        None
    }

    /// Record that `id` lives at `path`, overwriting any previous row for it.
    pub fn insert_vault(&mut self, id: VaultId, path: String)
        requires
            old(self).wf(),
        ensures
            final(self).wf(),
            final(self).as_map() == old(self).as_map().insert(id, path@),
    {
        self.remove_vault(id);
        proof {
            lemma_reg_map_dom(self.vaults@, id);
        }
        let ghost pre = self.vaults@;
        self.vaults.push(RegEntry { id, path });
        proof {
            assert(self.vaults@.drop_last() =~= pre);
            assert_maps_equal!(
                reg_map(pre).insert(id, self.vaults@.last().path@),
                old(self).as_map().insert(id, self.vaults@.last().path@)
            );
        }
    }

    /// Forget `id`; a no-op when it is unknown.
    pub fn remove_vault(&mut self, id: VaultId)
        requires
            old(self).wf(),
        ensures
            final(self).wf(),
            final(self).as_map() == old(self).as_map().remove(id),
            !final(self).as_map().contains_key(id),
    {
        proof {
            lemma_reg_map_dom(self.vaults@, id);
        }
        match self.find_index(id) {
            Some(i) => {
                let ghost pre = self.vaults@;
                self.vaults.remove(i);
                proof {
                    lemma_reg_map_remove(pre, i as int);
                    assert(forall|a: int, b: int|
                        0 <= a < self.vaults@.len() && 0 <= b < self.vaults@.len() && a != b
                            ==> self.vaults@[a].id != self.vaults@[b].id) by {
                        assert(forall|a: int|
                            0 <= a < self.vaults@.len()
                                ==> self.vaults@[a] == if a < i as int {
                                pre[a]
                            } else {
                                pre[a + 1]
                            });
                    }
                    lemma_reg_map_dom(self.vaults@, id);
                    assert(forall|j: int|
                        0 <= j < self.vaults@.len() ==> self.vaults@[j] == pre.remove(i as int)[j]);
                    assert(self.vaults@ =~= pre.remove(i as int));
                }
            },
            None => {
                proof {
                    assert_maps_equal!(self.as_map().remove(id), self.as_map());
                }
            },
        }
    }

    /// The path recorded for `id`, if any.
    pub fn get_vault_path(&self, id: VaultId) -> (r: Option<&String>)
        requires
            self.wf(),
        ensures
            match r {
                Some(p) => self.as_map().contains_key(id) && p@ == self.as_map()[id],
                None => !self.as_map().contains_key(id),
            },
    {
        proof {
            lemma_reg_map_dom(self.vaults@, id);
        }
        match self.find_index(id) {
            Some(i) => {
                proof {
                    lemma_reg_map_index(self.vaults@, i as int);
                }
                Some(&self.vaults[i].path)
            },
            None => None,
        }
    }

    /// All rows, in insertion order.
    pub fn get_vaults(&self) -> (r: &Vec<RegEntry>)
        ensures
            r == &self.vaults,
    {
        &self.vaults
    }
}

impl Default for VaultRegistry {
    /// An empty registry.
    fn default() -> (r: Self)
        ensures
            r.wf(),
            r.as_map() == Map::<VaultId, Seq<char>>::empty(),
    {
        VaultRegistry::new()
    }
}

} // verus!
