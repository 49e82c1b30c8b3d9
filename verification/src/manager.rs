//! The vault manager: identity-addressed CRUD on vaults and their contents.
//! It owns the in-memory registry and pairs every registry mutation with a
//! persist of exactly the snapshot that mutation produced. Every operation
//! that resolves a vault by id re-reads the vault's own metadata file, so an
//! externally relocated or corrupted vault is detected on next use.

use vstd::prelude::*;
use vstd::multiset::Multiset;
use crate::models::Vault;
use crate::models::VaultV;
use crate::models::Entry;
use crate::models::EntryV;
use crate::models::EntryType;
use crate::models::VaultId;
use crate::models::VaultMetadata;
use crate::models::VaultError;
use crate::models::VaultRegistry;
use crate::models::RegEntry;
use crate::models::reg_map;
use crate::fs_model::FsTree;
use crate::fs_model::FsNodeV;
use crate::fs_model::FileData;
use crate::fs_model::FileDataV;
use crate::fs_model::has_path;
use crate::fs_model::node_at;
use crate::fs_model::is_dir_at;
use crate::fs_model::is_file_at;
use crate::fs_model::file_at;
use crate::fs_model::at_or_under;
use crate::fs_model::remove_subtree_nodes;
use crate::fs_model::is_under;
use crate::fs_model::suffix_below;
use crate::fs_model::NodeKindV;
use crate::paths::lex_le;
use crate::paths::has_slash;
use crate::paths::safe_rel_path;
use crate::paths::is_safe_rel_path;
use crate::fs_model::lemma_ancestor_boundary;
use crate::fs_model::lemma_prefix_preserves_node_at;
use crate::paths::joined;
use crate::paths::join_path;
use crate::paths::last_seg;
use crate::paths::last_segment;

verus! {

/// Where a vault keeps its metadata file, below the vault root.
pub open spec fn vault_json_of(vp: Seq<char>) -> Seq<char> {
    joined(joined(vp, ".inkrypt"@), "vault.json"@)
}

/// The metadata record stored inside the vault at `vp`, when a readable one
/// is there: the authoritative statement of the vault's identity.
pub open spec fn meta_at(ns: Seq<FsNodeV>, vp: Seq<char>) -> Option<VaultMetadata> {
    if is_file_at(ns, vault_json_of(vp)) {
        match file_at(ns, vault_json_of(vp)) {
            FileDataV::Meta(m) => Some(m),
            FileDataV::Text(_) => None,
        }
    } else {
        None
    }
}

/// The vault value surfaced for a vault at `vp` with metadata `m`: the display
/// name is the final path segment, and `updated_at` is the time of the read.
pub open spec fn vault_of(vp: Seq<char>, m: VaultMetadata, now: i64) -> VaultV {
    VaultV {
        id: m.id,
        name: last_seg(vp),
        path: vp,
        version: m.version,
        created_at: m.created_at,
        updated_at: now,
    }
}

/// Loading the vault at a path: `InvalidVault` exactly when no readable
/// metadata record is inside it.
pub open spec fn spec_load(ns: Seq<FsNodeV>, vp: Seq<char>, now: i64) -> Result<
    VaultV,
    VaultError,
> {
    match meta_at(ns, vp) {
        Some(m) => Ok(vault_of(vp, m, now)),
        None => Err(VaultError::InvalidVault),
    }
}

/// Resolving a vault id: `NotFound` when the registry does not know it,
/// otherwise the vault is loaded from the registered path.
pub open spec fn spec_resolve(
    reg: Map<VaultId, Seq<char>>,
    ns: Seq<FsNodeV>,
    id: VaultId,
    now: i64,
) -> Result<VaultV, VaultError> {
    if !reg.contains_key(id) {
        Err(VaultError::NotFound)
    } else {
        spec_load(ns, reg[id], now)
    }
}

/// The vaults a registry row sequence yields: each row whose vault loads and
/// whose loaded id equals the row's key, in row order.
pub open spec fn spec_list_vaults(rows: Seq<RegEntry>, ns: Seq<FsNodeV>, now: i64) -> Seq<VaultV>
    decreases rows.len(),
{
    if rows.len() == 0 {
        Seq::empty()
    } else {
        let rest = spec_list_vaults(rows.drop_last(), ns, now);
        let row = rows.last();
        match meta_at(ns, row.path@) {
            Some(m) => if m.id == row.id {
                rest.push(vault_of(row.path@, m, now))
            } else {
                rest
            },
            None => rest,
        }
    }
}


/// A node that a listing of `base` surfaces: directly below `base`, with a
/// non-empty name that does not start with the hidden-file marker (which also
/// hides the internal metadata directory).
pub open spec fn is_visible_child(n: FsNodeV, base: Seq<char>) -> bool {
    is_under(n.path, base) && {
        let name = suffix_below(n.path, base);
        !has_slash(name) && name.len() > 0 && name[0] != '.'
    }
}

/// The listing row for a visible child: its name, its path relative to the
/// vault root, its kind, and its timestamps.
pub open spec fn child_entry(n: FsNodeV, vp: Seq<char>, base: Seq<char>) -> EntryV {
    EntryV {
        name: suffix_below(n.path, base),
        path: suffix_below(n.path, vp),
        entry_type: if n.kind is Dir {
            EntryType::Directory
        } else {
            EntryType::Note
        },
        created_at: Some(n.created),
        updated_at: Some(n.modified),
    }
}

/// The listing rows of all visible children, in node order.
pub open spec fn children_entries(ns: Seq<FsNodeV>, vp: Seq<char>, base: Seq<char>) -> Seq<EntryV>
    decreases ns.len(),
{
    if ns.len() == 0 {
        Seq::empty()
    } else {
        let rest = children_entries(ns.drop_last(), vp, base);
        if is_visible_child(ns.last(), base) {
            rest.push(child_entry(ns.last(), vp, base))
        } else {
            rest
        }
    }
}

/// The listing order: directories before notes; within a kind, ascending
/// lexicographic by name.
pub open spec fn entry_le(a: EntryV, b: EntryV) -> bool {
    match (a.entry_type, b.entry_type) {
        (EntryType::Directory, EntryType::Note) => true,
        (EntryType::Note, EntryType::Directory) => false,
        _ => lex_le(a.name, b.name),
    }
}

/// Non-decreasing in the listing order.
pub open spec fn entries_sorted(s: Seq<EntryV>) -> bool {
    forall|i: int, j: int| 0 <= i < j < s.len() ==> entry_le(s[i], s[j])
}

/// The listing order is total.
pub proof fn lemma_entry_le_total(a: EntryV, b: EntryV)
    ensures
        entry_le(a, b) || entry_le(b, a),
{
    crate::paths::lemma_lex_le_total(a.name, b.name);
}

/// The listing order is transitive.
pub proof fn lemma_entry_le_trans(a: EntryV, b: EntryV, c: EntryV)
    requires
        entry_le(a, b),
        entry_le(b, c),
    ensures
        entry_le(a, c),
{
    if a.entry_type == b.entry_type && b.entry_type == c.entry_type {
        crate::paths::lemma_lex_le_trans(a.name, b.name, c.name);
    }
}

/// Whether `a` comes at or before `b` in the listing order.
fn entry_le_exec(a: &Entry, b: &Entry) -> (r: bool)
    ensures
        r == entry_le(a@, b@),
{
    match (&a.entry_type, &b.entry_type) {
        (EntryType::Directory, EntryType::Note) => true,
        (EntryType::Note, EntryType::Directory) => false,
        _ => crate::paths::str_le(a.name.as_str(), b.name.as_str()),
    }
}

/// Sort listing rows by the listing order, by insertion.
#[verifier::loop_isolation(false)]
fn sort_entries(es: Vec<Entry>) -> (r: Vec<Entry>)
    ensures
        r.deep_view().to_multiset() == es.deep_view().to_multiset(),
        entries_sorted(r.deep_view()),
{
    broadcast use vstd::seq_lib::group_to_multiset_ensures;
    broadcast use vstd::seq_lib::to_multiset_insert;

    let mut src = es;
    let mut out: Vec<Entry> = Vec::new();
    loop
        invariant
            entries_sorted(out.deep_view()),
            out.deep_view().to_multiset().add(src.deep_view().to_multiset())
                =~= es.deep_view().to_multiset(),
        decreases src.len(),
    {
        let ghost src0 = src.deep_view();
        let e = match src.pop() {
            Some(e) => e,
            None => {
                proof {
                    assert(src.deep_view() =~= Seq::<EntryV>::empty());
                    assert(Seq::<EntryV>::empty().to_multiset() =~= Multiset::<EntryV>::empty())
                        by {
                        Seq::<EntryV>::empty().to_multiset_ensures();
                        assert(Seq::<EntryV>::empty().to_multiset().len() == 0);
                    }
                    assert(out.deep_view().to_multiset().add(Multiset::<EntryV>::empty())
                        =~= out.deep_view().to_multiset());
                }
                return out;
            },
        };
        proof {
            assert(src0 =~= src.deep_view().push(e@));
            assert(src.deep_view().push(e@).to_multiset() =~= src.deep_view().to_multiset().insert(
                e@,
            ));
        }
        let mut j: usize = 0;
        loop
            invariant
                j <= out.len(),
                entries_sorted(out.deep_view()),
                forall|k: int| 0 <= k < j ==> entry_le(out.deep_view()[k], e@),
            decreases out.len() - j,
        {
            if j == out.len() {
                break ;
            }
            if entry_le_exec(&out[j], &e) {
                j = j + 1;
            } else {
                break ;
            }
        }
        proof {
            if (j as int) < out.deep_view().len() {
                lemma_entry_le_total(out.deep_view()[j as int], e@);
            }
        }
        let ghost old_out = out.deep_view();
        let ghost je = j as int;
        out.insert(j, e);
        proof {
            assert(out.deep_view() =~= old_out.insert(je, e@));
            let nv = out.deep_view();
            assert forall|a: int, b: int| 0 <= a < b < nv.len() implies entry_le(
                nv[a],
                nv[b],
            ) by {
                if a < je && b == je {
                } else if a == je && b > je {
                    assert(nv[b] == old_out[b - 1]);
                    if je < old_out.len() {
                        assert(entry_le(e@, old_out[je]));
                        if b - 1 > je {
                            assert(entry_le(old_out[je], old_out[b - 1]));
                            lemma_entry_le_trans(e@, old_out[je], old_out[b - 1]);
                        }
                    }
                } else if a < je && b > je {
                    assert(nv[a] == old_out[a]);
                    assert(nv[b] == old_out[b - 1]);
                    if b - 1 == a {
                        assert(entry_le(old_out[a], e@));
                        assert(nv[b] == old_out[a]);
                        lemma_entry_le_total(old_out[a], old_out[a]);
                    } else {
                        assert(entry_le(old_out[a], old_out[b - 1]));
                    }
                } else if a < je && b < je {
                    assert(nv[a] == old_out[a] && nv[b] == old_out[b]);
                } else if a > je && b > je {
                    assert(nv[a] == old_out[a - 1] && nv[b] == old_out[b - 1]);
                }
            }
            assert(old_out.insert(je, e@).to_multiset() =~= old_out.to_multiset().insert(e@));
            assert(nv == old_out.insert(je, e@));
        }
    }
}

/// The view of a vault result.
pub open spec fn res_view(r: Result<Vault, VaultError>) -> Result<VaultV, VaultError> {
    match r {
        Ok(v) => Ok(v@),
        Err(e) => Err(e),
    }
}

/// Relies on `uuid::Uuid::now_v7` and `uuid::Uuid::as_u128`: a fresh
/// time-ordered unique identifier, returned as its 128 bits. The value depends
/// on the clock and on randomness, so nothing is promised of it.
#[verifier::external_body]
fn fresh_vault_id() -> VaultId {
    uuid::Uuid::now_v7().as_u128()
}

/// Copy registry rows verbatim.
fn clone_entries(v: &Vec<RegEntry>) -> (r: Vec<RegEntry>)
    ensures
        r@ == v@,
{
    let n = v.len();
    let mut out: Vec<RegEntry> = Vec::new();
    let mut i: usize = 0;
    while i < n
        invariant
            n == v@.len(),
            i <= n,
            out@ =~= v@.take(i as int),
        decreases n - i,
    {
        let e = RegEntry { id: v[i].id, path: v[i].path.clone() };
        proof {
            assert(e == v@[i as int]);
        }
        out.push(e);
        proof {
            assert(out@ =~= v@.take(i as int + 1));
        }
        i = i + 1;
    }
    proof {
        assert(v@.take(n as int) =~= v@);
    }
    out
}

/// The manager: the live registry and the snapshot most recently persisted.
/// The snapshot is replaced inside the same exclusive borrow as each registry
/// mutation, so it is always the one the paired mutation produced.
pub struct VaultManager {
    registry: VaultRegistry,
    persisted: VaultRegistry,
}

impl VaultManager {
    /// The live registry rows.
    pub closed spec fn rows(&self) -> Seq<RegEntry> {
        self.registry.vaults@
    }

    /// The rows of the persisted snapshot.
    pub closed spec fn persisted_rows(&self) -> Seq<RegEntry> {
        self.persisted.vaults@
    }

    /// Both registries are well-formed.
    pub open spec fn wf(&self) -> bool {
        crate::models::reg_distinct(self.rows()) && crate::models::reg_distinct(
            self.persisted_rows(),
        )
    }

    /// The mapping the live registry holds.
    pub open spec fn reg(&self) -> Map<VaultId, Seq<char>> {
        reg_map(self.rows())
    }

    /// The persisted snapshot denotes exactly the live mapping.
    pub open spec fn persist_consistent(&self) -> bool {
        reg_map(self.persisted_rows()) == self.reg()
    }

    /// A manager with an empty registry.
    pub fn new() -> (r: Self)
        ensures
            r.wf(),
            r.reg() == Map::<VaultId, Seq<char>>::empty(),
            r.persist_consistent(),
    {
        VaultManager { registry: VaultRegistry::new(), persisted: VaultRegistry::new() }
    }

    /// A manager whose registry holds the given rows, later rows winning, as
    /// when the persisted registry file has been read back at startup.
    pub fn with_entries(entries: Vec<RegEntry>) -> (r: Self)
        ensures
            r.wf(),
            r.reg() == reg_map(entries@),
            r.persist_consistent(),
    {
        let mut m = VaultManager::new();
        m.load_registry_for_testing(entries);
        m.save_registry();
        m
    }

    /// Replace the live registry with the given rows, later rows winning; the
    /// persisted snapshot is left alone, as when re-reading the registry file.
    pub fn load_registry_for_testing(&mut self, entries: Vec<RegEntry>)
        requires
            old(self).wf(),
        ensures
            final(self).wf(),
            final(self).reg() == reg_map(entries@),
            final(self).persisted_rows() == old(self).persisted_rows(),
    {
        let n = entries.len();
        let mut fresh = VaultRegistry::new();
        let mut i: usize = 0;
        while i < n
            invariant
                n == entries@.len(),
                i <= n,
                fresh.wf(),
                fresh.as_map() == reg_map(entries@.take(i as int)),
            decreases n - i,
        {
            let e = &entries[i];
            fresh.insert_vault(e.id, e.path.clone());
            proof {
                assert(entries@.take(i as int + 1).drop_last() =~= entries@.take(i as int));
                assert(entries@.take(i as int + 1).last() == entries@[i as int]);
            }
            i = i + 1;
        }
        proof {
            assert(entries@.take(n as int) =~= entries@);
        }
        self.registry = fresh;
    }

    /// The rows most recently persisted, for the host to write out.
    pub fn persisted_registry(&self) -> (r: &VaultRegistry)
        ensures
            r.vaults@ == self.persisted_rows(),
    {
        &self.persisted
    }

    /// The live registry rows.
    pub fn registry_rows(&self) -> (r: &VaultRegistry)
        ensures
            r.vaults@ == self.rows(),
    {
        &self.registry
    }

    /// Persist the current registry: the snapshot becomes the live mapping.
    fn save_registry(&mut self)
        requires
            old(self).wf(),
        ensures
            final(self).wf(),
            final(self).registry == old(self).registry,
            final(self).persist_consistent(),
    {
        self.persisted = VaultRegistry { vaults: clone_entries(&self.registry.vaults) };
    }

    /// Load the vault rooted at `vault_path`: read and validate its metadata
    /// file, deriving the display name from the final path segment.
    fn load_vault_from_path(&self, fs: &FsTree, vault_path: &str) -> (r: Result<Vault, VaultError>)
        requires
            fs.wf(),
        ensures
            res_view(r) == spec_load(fs@.nodes, vault_path@, fs@.now),
    {
        let ink = join_path(vault_path, ".inkrypt");
        let vjson = join_path(ink.as_str(), "vault.json");
        proof {
            assert(vjson@ == vault_json_of(vault_path@));
        }
        match fs.read_file(vjson.as_str()) {
            Some(FileData::Meta(m)) => {
                let name = last_segment(vault_path);
                Ok(
                    Vault {
                        id: m.id,
                        name,
                        path: vault_path.to_owned(),
                        version: m.version,
                        created_at: m.created_at,
                        updated_at: fs.now,
                    },
                )
            },
            Some(FileData::Text(_)) => Err(VaultError::InvalidVault),
            None => Err(VaultError::InvalidVault),
        }
    }

    /// Resolve a vault id through the registry, then load and validate it.
    fn find_vault_by_id(&self, fs: &FsTree, vault_id: VaultId) -> (r: Result<Vault, VaultError>)
        requires
            self.wf(),
            fs.wf(),
        ensures
            res_view(r) == spec_resolve(self.reg(), fs@.nodes, vault_id, fs@.now),
    {
        match self.registry.get_vault_path(vault_id) {
            Some(path) => {
                let path = path.clone();
                self.load_vault_from_path(fs, path.as_str())
            },
            None => Err(VaultError::NotFound),
        }
    }

    /// Open the vault at a path: validate its metadata, then register the
    /// discovered id at this path (also when the vault had moved) and persist.
    /// Fails `InvalidVault`, changing nothing, exactly when no readable
    /// metadata record is inside the directory.
    pub fn open_vault(&mut self, fs: &FsTree, vault_path: &str) -> (r: Result<Vault, VaultError>)
        requires
            old(self).wf(),
            fs.wf(),
        ensures
            final(self).wf(),
            res_view(r) == spec_load(fs@.nodes, vault_path@, fs@.now),
            match r {
                Ok(v) => final(self).reg() == old(self).reg().insert(v@.id, vault_path@) && final(self).persist_consistent(),
                Err(_) => *final(self) == *old(self),
            },
    {
        let vault = match self.load_vault_from_path(fs, vault_path) {
            Ok(v) => v,
            Err(e) => {
                return Err(e);
            },
        };
        self.registry.insert_vault(vault.id, vault_path.to_owned());
        self.save_registry();
        Ok(vault)
    }

    /// Create a vault named `name` under `root`: make the directory tree and
    /// the metadata directory, write a fresh metadata record with the given
    /// id and `version` 0, register the id and persist.
    ///
    /// Fails `AlreadyExists`, changing nothing, exactly when anything stands
    /// at `root/name`; fails `IOFailure`, changing nothing, exactly when a
    /// file blocks the directory tree or a directory stands where the
    /// metadata file goes.
    pub fn create_vault_with(
        &mut self,
        fs: &mut FsTree,
        root: &str,
        name: &str,
        id: VaultId,
    ) -> (r: Result<Vault, VaultError>)
        requires
            old(self).wf(),
            old(fs).wf(),
        ensures
            final(self).wf(),
            final(fs).wf(),
            final(fs)@.now == old(fs)@.now,
            match r {
                Ok(v) => {
                    let vp = joined(root@, name@);
                    let ink = joined(vp, ".inkrypt"@);
                    let vj = vault_json_of(vp);
                    let now = old(fs)@.now;
                    &&& !has_path(old(fs)@.nodes, vp)
                    &&& v@ == VaultV {
                        id,
                        name: name@,
                        path: vp,
                        version: 0,
                        created_at: now,
                        updated_at: now,
                    }
                    &&& final(self).reg() == old(self).reg().insert(id, vp)
                    &&& final(self).persist_consistent()
                    &&& is_dir_at(final(fs)@.nodes, vp)
                    &&& is_dir_at(final(fs)@.nodes, ink)
                    &&& forall|q: Seq<char>|
                        at_or_under(ink, q) ==> is_dir_at(final(fs)@.nodes, q)
                    &&& is_file_at(final(fs)@.nodes, vj)
                    &&& file_at(final(fs)@.nodes, vj) == FileDataV::Meta(
                        VaultMetadata { id, version: 0, created_at: now },
                    )
                    &&& forall|q: Seq<char>|
                        #[trigger] has_path(final(fs)@.nodes, q) <==> has_path(old(fs)@.nodes, q)
                            || at_or_under(ink, q) || q == vj
                    &&& forall|q: Seq<char>|
                        #[trigger] has_path(old(fs)@.nodes, q) && q != vj ==> node_at(
                            final(fs)@.nodes,
                            q,
                        ) == node_at(old(fs)@.nodes, q)
                },
                Err(VaultError::AlreadyExists) => has_path(old(fs)@.nodes, joined(root@, name@))
                    && final(fs)@.nodes == old(fs)@.nodes && *final(self) == *old(self),
                Err(VaultError::IOFailure) => !has_path(old(fs)@.nodes, joined(root@, name@)) && (
                is_dir_at(old(fs)@.nodes, vault_json_of(joined(root@, name@))) || (exists|
                    q: Seq<char>,
                |
                    at_or_under(joined(joined(root@, name@), ".inkrypt"@), q) && is_file_at(
                        old(fs)@.nodes,
                        q,
                    ))) && final(fs)@.nodes == old(fs)@.nodes && *final(self) == *old(self),
                Err(_) => false,
            },
    {
        let vault_path = join_path(root, name);
        if fs.contains_path(vault_path.as_str()) {
            return Err(VaultError::AlreadyExists);
        }
        let ink = join_path(vault_path.as_str(), ".inkrypt");
        let vjson = join_path(ink.as_str(), "vault.json");
        proof {
            assert(vjson@ == vault_json_of(vault_path@));
        }
        if fs.dir_exists(vjson.as_str()) {
            return Err(VaultError::IOFailure);
        }
        let ghost pre = fs@.nodes;
        match fs.create_dir_all(ink.as_str()) {
            Ok(()) => {},
            Err(_) => {
                return Err(VaultError::IOFailure);
            },
        }
        // The metadata path is longer than any ancestor of the metadata
        // directory, so the inserted directories cannot stand there.
        proof {
            assert(!is_dir_at(fs@.nodes, vjson@)) by {
                if has_path(fs@.nodes, vjson@) {
                    let i = crate::fs_model::path_index(fs@.nodes, vjson@);
                    assert(fs@.nodes[i].path == vjson@);
                    if i < pre.len() {
                        assert(pre[i] == fs@.nodes.take(pre.len() as int)[i]);
                        assert(has_path(pre, vjson@)) by {
                            assert(0 <= i < pre.len() && pre[i].path == vjson@);
                        }
                        lemma_prefix_preserves_node_at(pre, fs@.nodes, vjson@);
                        assert(node_at(pre, vjson@).kind is Dir ==> is_dir_at(pre, vjson@));
                    } else {
                        assert(at_or_under(ink@, fs@.nodes[i].path));
                        lemma_ancestor_boundary(ink@, vjson@);
                        assert(vjson@.len() > ink@.len());
                    }
                }
            }
        }
        let now = fs.now;
        let meta = VaultMetadata { id, version: 0, created_at: now };
        let ghost mid = fs@.nodes;
        match fs.write_file(vjson.as_str(), FileData::Meta(meta)) {
            Ok(()) => {},
            Err(_) => {
                proof {
                    assert(false);
                }
                return Err(VaultError::IOFailure);
            },
        }
        self.registry.insert_vault(id, vault_path.clone());
        self.save_registry();
        let vault = Vault {
            id,
            name: name.to_owned(),
            path: vault_path,
            version: 0,
            created_at: now,
            updated_at: now,
        };
        proof {
            assert(!at_or_under(ink@, vjson@)) by {
                if at_or_under(ink@, vjson@) {
                    if ink@ == vjson@ {
                        assert(vjson@.len() == ink@.len() + 1 + "vault.json"@.len());
                        assert("vault.json"@.len() >= 0);
                    } else {
                        let r = choose|r: Seq<char>| ink@ == joined(vjson@, r);
                        assert(ink@.len() == vjson@.len() + 1 + r.len());
                        assert(vjson@.len() == ink@.len() + 1 + "vault.json"@.len());
                    }
                }
            }
            lemma_dirs_then_write(
                pre,
                mid,
                fs@.nodes,
                ink@,
                vjson@,
                FileDataV::Meta(meta),
                now,
            );
            assert(at_or_under(ink@, ink@));
            assert(at_or_under(ink@, vault.path@)) by {
                assert(ink@ == joined(vault.path@, ".inkrypt"@));
            }
        }
        Ok(vault)
    }

    /// Create a vault with a freshly allocated time-ordered id. The id value
    /// comes from the outside world, so the contract speaks of everything but
    /// its value; `create_vault_with` pins the rest down for every id.
    pub fn create_vault(&mut self, fs: &mut FsTree, root: &str, name: &str) -> (r: Result<
        Vault,
        VaultError,
    >)
        requires
            old(self).wf(),
            old(fs).wf(),
        ensures
            final(self).wf(),
            final(fs).wf(),
            final(fs)@.now == old(fs)@.now,
            match r {
                Ok(v) => {
                    let vp = joined(root@, name@);
                    let now = old(fs)@.now;
                    &&& !has_path(old(fs)@.nodes, vp)
                    &&& v@.name == name@
                    &&& v@.path == vp
                    &&& v@.version == 0
                    &&& v@.created_at == now
                    &&& v@.updated_at == now
                    &&& final(self).reg() == old(self).reg().insert(v@.id, vp)
                    &&& final(self).persist_consistent()
                    &&& is_dir_at(final(fs)@.nodes, vp)
                    &&& is_dir_at(final(fs)@.nodes, joined(vp, ".inkrypt"@))
                    &&& forall|q: Seq<char>|
                        at_or_under(joined(vp, ".inkrypt"@), q) ==> is_dir_at(
                            final(fs)@.nodes,
                            q,
                        )
                    &&& is_file_at(final(fs)@.nodes, vault_json_of(vp))
                    &&& meta_at(final(fs)@.nodes, vp) == Some(
                        VaultMetadata { id: v@.id, version: 0, created_at: now },
                    )
                    &&& forall|q: Seq<char>|
                        #[trigger] has_path(final(fs)@.nodes, q) <==> has_path(old(fs)@.nodes, q)
                            || at_or_under(joined(vp, ".inkrypt"@), q) || q == vault_json_of(vp)
                    &&& forall|q: Seq<char>|
                        #[trigger] has_path(old(fs)@.nodes, q) && q != vault_json_of(vp)
                            ==> node_at(final(fs)@.nodes, q) == node_at(old(fs)@.nodes, q)
                },
                Err(VaultError::AlreadyExists) => has_path(old(fs)@.nodes, joined(root@, name@))
                    && final(fs)@.nodes == old(fs)@.nodes && *final(self) == *old(self),
                Err(VaultError::IOFailure) => !has_path(old(fs)@.nodes, joined(root@, name@)) && (
                is_dir_at(old(fs)@.nodes, vault_json_of(joined(root@, name@))) || (exists|
                    q: Seq<char>,
                |
                    at_or_under(joined(joined(root@, name@), ".inkrypt"@), q) && is_file_at(
                        old(fs)@.nodes,
                        q,
                    ))) && final(fs)@.nodes == old(fs)@.nodes && *final(self) == *old(self),
                Err(_) => false,
            },
    {
        let id = fresh_vault_id();
        self.create_vault_with(fs, root, name, id)
    }

    /// Delete a vault: a no-op for an unknown id; otherwise its whole
    /// directory tree is removed, then its registry row, and the registry is
    /// persisted. Never fails.
    pub fn delete_vault(&mut self, fs: &mut FsTree, vault_id: VaultId) -> (r: Result<
        (),
        VaultError,
    >)
        requires
            old(self).wf(),
            old(fs).wf(),
        ensures
            final(self).wf(),
            final(fs).wf(),
            final(fs)@.now == old(fs)@.now,
            r is Ok,
            old(self).reg().contains_key(vault_id) ==> final(fs)@.nodes == remove_subtree_nodes(
                old(fs)@.nodes,
                old(self).reg()[vault_id],
            ) && final(self).reg() == old(self).reg().remove(vault_id) && final(self).persist_consistent(),
            !old(self).reg().contains_key(vault_id) ==> final(fs)@.nodes == old(fs)@.nodes
                && *final(self) == *old(self),
    {
        let path = match self.registry.get_vault_path(vault_id) {
            Some(p) => p.clone(),
            None => {
                return Ok(());
            },
        };
        fs.remove_subtree(path.as_str());
        self.registry.remove_vault(vault_id);
        self.save_registry();
        Ok(())
    }

    /// Rename a vault: move its directory to a sibling path named `new_name`,
    /// update the registry row under the vault's own (metadata) id, persist,
    /// and return the vault with its id, version and creation time preserved
    /// and `updated_at` refreshed.
    ///
    /// Fails `NotFound` for an unknown id, `InvalidVault` when the metadata
    /// cannot be read, `AlreadyExists` when anything stands at the destination,
    /// and `IOFailure` when the path has no parent, the source directory is
    /// gone, or something stands below the destination; a failed call changes
    /// nothing.
    pub fn rename_vault(&mut self, fs: &mut FsTree, vault_id: VaultId, new_name: &str) -> (r:
        Result<Vault, VaultError>)
        requires
            old(self).wf(),
            old(fs).wf(),
        ensures
            final(self).wf(),
            final(fs).wf(),
            final(fs)@.now == old(fs)@.now,
            match spec_resolve(old(self).reg(), old(fs)@.nodes, vault_id, old(fs)@.now) {
                Err(e0) => r == Err::<Vault, VaultError>(e0) && final(fs)@.nodes == old(fs)@.nodes
                    && *final(self) == *old(self),
                Ok(v0) => {
                    let np = joined(crate::paths::parent_dir(v0.path), new_name@);
                    if !crate::paths::has_slash(v0.path) {
                        r == Err::<Vault, VaultError>(VaultError::IOFailure) && final(fs)@.nodes
                            == old(fs)@.nodes && *final(self) == *old(self)
                    } else if has_path(old(fs)@.nodes, np) {
                        r == Err::<Vault, VaultError>(VaultError::AlreadyExists) && final(fs)@.nodes == old(fs)@.nodes && *final(self) == *old(self)
                    } else if !has_path(old(fs)@.nodes, v0.path) || (exists|i: int|
                        0 <= i < old(fs)@.nodes.len() && at_or_under(old(fs)@.nodes[i].path, np)) {
                        r == Err::<Vault, VaultError>(VaultError::IOFailure) && final(fs)@.nodes
                            == old(fs)@.nodes && *final(self) == *old(self)
                    } else {
                        match r {
                            Ok(v) => v@ == (VaultV {
                                id: v0.id,
                                name: new_name@,
                                path: np,
                                version: v0.version,
                                created_at: v0.created_at,
                                updated_at: old(fs)@.now,
                            }) && final(fs)@.nodes == crate::fs_model::rename_nodes(
                                old(fs)@.nodes,
                                v0.path,
                                np,
                            ) && !has_path(final(fs)@.nodes, v0.path) && has_path(
                                final(fs)@.nodes,
                                np,
                            ) && final(self).reg() == old(self).reg().insert(v0.id, np) && final(self).persist_consistent(),
                            Err(_) => false,
                        }
                    }
                },
            },
    {
        let vault = match self.find_vault_by_id(fs, vault_id) {
            Ok(v) => v,
            Err(e) => {
                return Err(e);
            },
        };
        let parent = match crate::paths::split_path(vault.path.as_str()) {
            Some(pair) => {
                proof {
                    crate::paths::lemma_parent_of_joined(pair.0@, pair.1@);
                    assert(crate::paths::has_slash(vault.path@)) by {
                        assert(vault.path@[pair.0@.len() as int] == '/');
                    }
                }
                pair.0
            },
            None => {
                return Err(VaultError::IOFailure);
            },
        };
        let new_path = join_path(parent.as_str(), new_name);
        if fs.contains_path(new_path.as_str()) {
            return Err(VaultError::AlreadyExists);
        }
        match fs.rename_subtree(vault.path.as_str(), new_path.as_str()) {
            Ok(()) => {},
            Err(_) => {
                return Err(VaultError::IOFailure);
            },
        }
        self.registry.insert_vault(vault.id, new_path.clone());
        self.save_registry();
        Ok(
            Vault {
                id: vault.id,
                name: new_name.to_owned(),
                path: new_path,
                version: vault.version,
                created_at: vault.created_at,
                updated_at: fs.now,
            },
        )
    }

    /// Create a directory (and any missing ancestors) below the vault root.
    /// Fails as resolution does, or `IOFailure`, changing nothing, exactly
    /// when the relative path could escape the vault root or a file blocks
    /// the directory path.
    #[verifier::rlimit(60)]
    #[verifier::spinoff_prover]
    pub fn create_directory(&mut self, fs: &mut FsTree, vault_id: VaultId, directory_path: &str)
        -> (r: Result<(), VaultError>)
        requires
            old(self).wf(),
            old(fs).wf(),
        ensures
            final(self).wf(),
            final(fs).wf(),
            final(fs)@.now == old(fs)@.now,
            *final(self) == *old(self),
            match spec_resolve(old(self).reg(), old(fs)@.nodes, vault_id, old(fs)@.now) {
                Err(e0) => r == Err::<(), VaultError>(e0) && final(fs)@.nodes == old(fs)@.nodes,
                Ok(v0) => {
                    let full = joined(v0.path, directory_path@);
                    match r {
                        Ok(()) => safe_rel_path(directory_path@) && crate::fs_model::dirs_added(
                            old(fs)@.nodes,
                            final(fs)@.nodes,
                            full,
                            old(fs)@.now,
                        ),
                        Err(e) => e == VaultError::IOFailure && (!safe_rel_path(directory_path@)
                            || (exists|q: Seq<char>|
                            at_or_under(full, q) && is_file_at(old(fs)@.nodes, q))) && final(fs)@.nodes == old(fs)@.nodes,
                    }
                },
            },
    {
        let ghost rv = spec_resolve(self.reg(), fs@.nodes, vault_id, fs@.now);
        let vault = match self.find_vault_by_id(fs, vault_id) {
            Ok(v) => v,
            Err(e) => {
                return Err(e);
            },
        };
        if !is_safe_rel_path(directory_path) {
            return Err(VaultError::IOFailure);
        }
        let full = join_path(vault.path.as_str(), directory_path);
        proof {
            assert(rv matches Ok(v0) && vault@ == v0 && full@ == joined(v0.path, directory_path@));
        }
        match fs.create_dir_all(full.as_str()) {
            Ok(()) => {
                proof {
                    assert(crate::fs_model::dirs_added(
                        old(fs)@.nodes,
                        fs@.nodes,
                        full@,
                        old(fs)@.now,
                    ));
                }
                Ok(())
            },
            Err(_) => {
                proof {
                    assert(exists|q: Seq<char>|
                        at_or_under(full@, q) && is_file_at(old(fs)@.nodes, q));
                }
                Err(VaultError::IOFailure)
            },
        }
    }

    /// Create an empty note below the vault root, making any missing parent
    /// directories first. Fails as resolution does, or `IOFailure`, changing
    /// nothing, exactly when the relative path could escape the vault root, a
    /// directory stands at the note path, or a file blocks a parent
    /// directory.
    pub fn create_note(&mut self, fs: &mut FsTree, vault_id: VaultId, note_path: &str) -> (r:
        Result<(), VaultError>)
        requires
            old(self).wf(),
            old(fs).wf(),
        ensures
            final(self).wf(),
            final(fs).wf(),
            final(fs)@.now == old(fs)@.now,
            *final(self) == *old(self),
            match spec_resolve(old(self).reg(), old(fs)@.nodes, vault_id, old(fs)@.now) {
                Err(e0) => r == Err::<(), VaultError>(e0) && final(fs)@.nodes == old(fs)@.nodes,
                Ok(v0) => {
                    let full = joined(v0.path, note_path@);
                    let par = crate::paths::parent_dir(full);
                    match r {
                        Ok(()) => {
                            &&& safe_rel_path(note_path@)
                            &&& !is_dir_at(old(fs)@.nodes, full)
                            &&& is_file_at(final(fs)@.nodes, full)
                            &&& file_at(final(fs)@.nodes, full) == FileDataV::Text(Seq::empty())
                            &&& forall|q: Seq<char>|
                                at_or_under(par, q) ==> is_dir_at(final(fs)@.nodes, q)
                            &&& forall|q: Seq<char>|
                                #[trigger] has_path(final(fs)@.nodes, q) <==> has_path(
                                    old(fs)@.nodes,
                                    q,
                                ) || at_or_under(par, q) || q == full
                            &&& forall|q: Seq<char>|
                                #[trigger] has_path(old(fs)@.nodes, q) && q != full ==> node_at(
                                    final(fs)@.nodes,
                                    q,
                                ) == node_at(old(fs)@.nodes, q)
                        },
                        Err(e) => e == VaultError::IOFailure && (!safe_rel_path(note_path@)
                            || is_dir_at(old(fs)@.nodes, full) || (exists|q: Seq<char>|
                            at_or_under(par, q) && is_file_at(old(fs)@.nodes, q))) && final(fs)@.nodes == old(fs)@.nodes,
                    }
                },
            },
    {
        let vault = match self.find_vault_by_id(fs, vault_id) {
            Ok(v) => v,
            Err(e) => {
                return Err(e);
            },
        };
        if !is_safe_rel_path(note_path) {
            return Err(VaultError::IOFailure);
        }
        let full = join_path(vault.path.as_str(), note_path);
        if fs.dir_exists(full.as_str()) {
            return Err(VaultError::IOFailure);
        }
        let parent = match crate::paths::split_path(full.as_str()) {
            Some(pair) => {
                proof {
                    crate::paths::lemma_parent_of_joined(pair.0@, pair.1@);
                    assert(crate::paths::has_slash(full@)) by {
                        assert(full@[pair.0@.len() as int] == '/');
                    }
                }
                pair.0
            },
            None => {
                proof {
                    assert(crate::paths::has_slash(full@)) by {
                        assert(full@[vault.path@.len() as int] == '/');
                    }
                }
                return Err(VaultError::IOFailure);
            },
        };
        let ghost pre = fs@.nodes;
        match fs.create_dir_all(parent.as_str()) {
            Ok(()) => {},
            Err(_) => {
                return Err(VaultError::IOFailure);
            },
        }
        let ghost mid = fs@.nodes;
        proof {
            assert(!at_or_under(parent@, full@)) by {
                if at_or_under(parent@, full@) {
                    if parent@ == full@ {
                        assert(full@.len() == parent@.len() + 1 + crate::paths::last_seg(
                            full@,
                        ).len());
                    } else {
                        let rr = choose|rr: Seq<char>| parent@ == joined(full@, rr);
                        assert(parent@.len() == full@.len() + 1 + rr.len());
                        assert(full@.len() == parent@.len() + 1 + crate::paths::last_seg(
                            full@,
                        ).len());
                    }
                }
            }
            assert(!is_dir_at(mid, full@)) by {
                if has_path(mid, full@) {
                    let i = crate::fs_model::path_index(mid, full@);
                    assert(mid[i].path == full@);
                    if i < pre.len() {
                        assert(pre[i] == mid.take(pre.len() as int)[i]);
                        assert(has_path(pre, full@)) by {
                            assert(0 <= i < pre.len() && pre[i].path == full@);
                        }
                        lemma_prefix_preserves_node_at(pre, mid, full@);
                    } else {
                        assert(at_or_under(parent@, mid[i].path));
                    }
                }
            }
        }
        match fs.write_file(full.as_str(), FileData::Text(String::new())) {
            Ok(()) => {},
            Err(_) => {
                proof {
                    assert(false);
                }
                return Err(VaultError::IOFailure);
            },
        }
        proof {
            lemma_dirs_then_write(
                pre,
                mid,
                fs@.nodes,
                parent@,
                full@,
                FileDataV::Text(Seq::empty()),
                old(fs)@.now,
            );
        }
        Ok(())
    }

    /// Overwrite the note at a path below the vault root with `content`.
    /// Fails as resolution does, or `IOFailure`, changing nothing, exactly
    /// when the relative path could escape the vault root, the note's parent
    /// directory is missing, or a directory stands at the note path.
    pub fn edit_note(
        &mut self,
        fs: &mut FsTree,
        vault_id: VaultId,
        note_path: &str,
        content: &str,
    ) -> (r: Result<(), VaultError>)
        requires
            old(self).wf(),
            old(fs).wf(),
        ensures
            final(self).wf(),
            final(fs).wf(),
            final(fs)@.now == old(fs)@.now,
            *final(self) == *old(self),
            match spec_resolve(old(self).reg(), old(fs)@.nodes, vault_id, old(fs)@.now) {
                Err(e0) => r == Err::<(), VaultError>(e0) && final(fs)@.nodes == old(fs)@.nodes,
                Ok(v0) => {
                    let full = joined(v0.path, note_path@);
                    let par = crate::paths::parent_dir(full);
                    match r {
                        Ok(()) => safe_rel_path(note_path@) && is_dir_at(old(fs)@.nodes, par)
                            && !is_dir_at(old(fs)@.nodes, full) && final(fs)@.nodes
                            == crate::fs_model::upsert_file(
                            old(fs)@.nodes,
                            full,
                            FileDataV::Text(content@),
                            old(fs)@.now,
                        ),
                        Err(e) => e == VaultError::IOFailure && (!safe_rel_path(note_path@)
                            || !is_dir_at(old(fs)@.nodes, par) || is_dir_at(old(fs)@.nodes, full))
                            && final(fs)@.nodes == old(fs)@.nodes,
                    }
                },
            },
    {
        let vault = match self.find_vault_by_id(fs, vault_id) {
            Ok(v) => v,
            Err(e) => {
                return Err(e);
            },
        };
        if !is_safe_rel_path(note_path) {
            return Err(VaultError::IOFailure);
        }
        let full = join_path(vault.path.as_str(), note_path);
        let parent = match crate::paths::split_path(full.as_str()) {
            Some(pair) => {
                proof {
                    crate::paths::lemma_parent_of_joined(pair.0@, pair.1@);
                    assert(crate::paths::has_slash(full@)) by {
                        assert(full@[pair.0@.len() as int] == '/');
                    }
                }
                pair.0
            },
            None => {
                proof {
                    assert(crate::paths::has_slash(full@)) by {
                        assert(full@[vault.path@.len() as int] == '/');
                    }
                }
                return Err(VaultError::IOFailure);
            },
        };
        if !fs.dir_exists(parent.as_str()) {
            return Err(VaultError::IOFailure);
        }
        match fs.write_file(full.as_str(), FileData::Text(content.to_owned())) {
            Ok(()) => Ok(()),
            Err(_) => Err(VaultError::IOFailure),
        }
    }

    /// Read the note at a path below the vault root. Fails as resolution
    /// does, or `IOFailure` exactly when the relative path could escape the
    /// vault root or no text file stands there. In this model a metadata
    /// record is never surfaced as text, so reading the metadata file also
    /// fails `IOFailure`, where a host reading raw bytes would return the
    /// encoded record.
    pub fn read_note(&self, fs: &FsTree, vault_id: VaultId, note_path: &str) -> (r: Result<
        String,
        VaultError,
    >)
        requires
            self.wf(),
            fs.wf(),
        ensures
            match spec_resolve(self.reg(), fs@.nodes, vault_id, fs@.now) {
                Err(e0) => r == Err::<String, VaultError>(e0),
                Ok(v0) => {
                    let full = joined(v0.path, note_path@);
                    match r {
                        Ok(s) => safe_rel_path(note_path@) && is_file_at(fs@.nodes, full)
                            && file_at(fs@.nodes, full) == FileDataV::Text(s@),
                        Err(e) => e == VaultError::IOFailure && !(safe_rel_path(note_path@)
                            && is_file_at(fs@.nodes, full) && file_at(fs@.nodes, full) is Text),
                    }
                },
            },
    {
        let vault = match self.find_vault_by_id(fs, vault_id) {
            Ok(v) => v,
            Err(e) => {
                return Err(e);
            },
        };
        if !is_safe_rel_path(note_path) {
            return Err(VaultError::IOFailure);
        }
        let full = join_path(vault.path.as_str(), note_path);
        match fs.read_file(full.as_str()) {
            Some(FileData::Text(s)) => Ok(s.clone()),
            Some(FileData::Meta(_)) => Err(VaultError::IOFailure),
            None => Err(VaultError::IOFailure),
        }
    }

    /// Delete the entry at a path below the vault root: a directory is removed
    /// with everything below it, a file alone, a missing path silently. Once
    /// the vault resolves it fails only `IOFailure`, changing nothing, exactly
    /// when the relative path could escape the vault root.
    pub fn delete_entry(&mut self, fs: &mut FsTree, vault_id: VaultId, entry_path: &str) -> (r:
        Result<(), VaultError>)
        requires
            old(self).wf(),
            old(fs).wf(),
        ensures
            final(self).wf(),
            final(fs).wf(),
            final(fs)@.now == old(fs)@.now,
            *final(self) == *old(self),
            match spec_resolve(old(self).reg(), old(fs)@.nodes, vault_id, old(fs)@.now) {
                Err(e0) => r == Err::<(), VaultError>(e0) && final(fs)@.nodes == old(fs)@.nodes,
                Ok(v0) => {
                    let full = joined(v0.path, entry_path@);
                    match r {
                        Ok(()) => {
                            &&& safe_rel_path(entry_path@)
                            &&& is_dir_at(old(fs)@.nodes, full) ==> final(fs)@.nodes
                                == remove_subtree_nodes(old(fs)@.nodes, full)
                            &&& is_file_at(old(fs)@.nodes, full) ==> final(fs)@.nodes
                                == crate::fs_model::remove_node_at(old(fs)@.nodes, full)
                            &&& !has_path(old(fs)@.nodes, full) ==> final(fs)@.nodes == old(fs)@.nodes
                        },
                        Err(e) => e == VaultError::IOFailure && !safe_rel_path(entry_path@)
                            && final(fs)@.nodes == old(fs)@.nodes,
                    }
                },
            },
    {
        let vault = match self.find_vault_by_id(fs, vault_id) {
            Ok(v) => v,
            Err(e) => {
                return Err(e);
            },
        };
        if !is_safe_rel_path(entry_path) {
            return Err(VaultError::IOFailure);
        }
        let full = join_path(vault.path.as_str(), entry_path);
        if fs.dir_exists(full.as_str()) {
            fs.remove_subtree(full.as_str());
        } else if fs.file_exists(full.as_str()) {
            fs.remove_node(full.as_str());
        }
        Ok(())
    }

    /// Move the entry at `old_path` to `new_path`, both below the vault root,
    /// making any missing parent directories of the destination first.
    ///
    /// Fails as resolution does, or `IOFailure`, changing nothing, exactly
    /// when either relative path could escape the vault root, nothing stands
    /// at the source, anything stands at or below the destination, or a file
    /// blocks a destination parent directory.
    pub fn rename_entry(
        &mut self,
        fs: &mut FsTree,
        vault_id: VaultId,
        old_path: &str,
        new_path: &str,
    ) -> (r: Result<(), VaultError>)
        requires
            old(self).wf(),
            old(fs).wf(),
        ensures
            final(self).wf(),
            final(fs).wf(),
            final(fs)@.now == old(fs)@.now,
            *final(self) == *old(self),
            match spec_resolve(old(self).reg(), old(fs)@.nodes, vault_id, old(fs)@.now) {
                Err(e0) => r == Err::<(), VaultError>(e0) && final(fs)@.nodes == old(fs)@.nodes,
                Ok(v0) => {
                    let oldf = joined(v0.path, old_path@);
                    let newf = joined(v0.path, new_path@);
                    let par = crate::paths::parent_dir(newf);
                    match r {
                        Ok(()) => {
                            &&& safe_rel_path(old_path@)
                            &&& safe_rel_path(new_path@)
                            &&& has_path(old(fs)@.nodes, oldf)
                            &&& !(exists|i: int|
                                0 <= i < old(fs)@.nodes.len() && at_or_under(
                                    old(fs)@.nodes[i].path,
                                    newf,
                                ))
                            &&& !has_path(final(fs)@.nodes, oldf)
                            &&& has_path(final(fs)@.nodes, newf)
                            &&& exists|mid: Seq<FsNodeV>|
                                crate::fs_model::dirs_added(
                                    old(fs)@.nodes,
                                    mid,
                                    par,
                                    old(fs)@.now,
                                ) && final(fs)@.nodes == crate::fs_model::rename_nodes(
                                    mid,
                                    oldf,
                                    newf,
                                )
                        },
                        Err(e) => e == VaultError::IOFailure && (!safe_rel_path(old_path@)
                            || !safe_rel_path(new_path@) || !has_path(old(fs)@.nodes, oldf) || (
                        exists|i: int|
                            0 <= i < old(fs)@.nodes.len() && at_or_under(
                                old(fs)@.nodes[i].path,
                                newf,
                            )) || (exists|q: Seq<char>|
                            at_or_under(par, q) && is_file_at(old(fs)@.nodes, q))) && final(fs)@.nodes == old(fs)@.nodes,
                    }
                },
            },
    {
        let vault = match self.find_vault_by_id(fs, vault_id) {
            Ok(v) => v,
            Err(e) => {
                return Err(e);
            },
        };
        if !is_safe_rel_path(old_path) {
            return Err(VaultError::IOFailure);
        }
        if !is_safe_rel_path(new_path) {
            return Err(VaultError::IOFailure);
        }
        let old_full = join_path(vault.path.as_str(), old_path);
        let new_full = join_path(vault.path.as_str(), new_path);
        if !fs.contains_path(old_full.as_str()) {
            return Err(VaultError::IOFailure);
        }
        if fs.occupied_at_or_under(new_full.as_str()) {
            return Err(VaultError::IOFailure);
        }
        let parent = match crate::paths::split_path(new_full.as_str()) {
            Some(pair) => {
                proof {
                    crate::paths::lemma_parent_of_joined(pair.0@, pair.1@);
                    assert(crate::paths::has_slash(new_full@)) by {
                        assert(new_full@[pair.0@.len() as int] == '/');
                    }
                }
                pair.0
            },
            None => {
                proof {
                    assert(crate::paths::has_slash(new_full@)) by {
                        assert(new_full@[vault.path@.len() as int] == '/');
                    }
                }
                return Err(VaultError::IOFailure);
            },
        };
        let ghost pre = fs@.nodes;
        match fs.create_dir_all(parent.as_str()) {
            Ok(()) => {},
            Err(_) => {
                return Err(VaultError::IOFailure);
            },
        }
        let ghost mid = fs@.nodes;
        proof {
            // the added ancestor directories are all shorter than the
            // destination, so nothing new stands at or below it
            assert(has_path(mid, old_full@)) by {
                lemma_prefix_preserves_node_at(pre, mid, old_full@);
            }
            assert forall|i: int| 0 <= i < mid.len() implies !at_or_under(
                mid[i].path,
                new_full@,
            ) by {
                if i < pre.len() {
                    assert(pre[i] == mid.take(pre.len() as int)[i]);
                    assert(mid[i] == pre[i]);
                } else {
                    assert(at_or_under(parent@, mid[i].path));
                    lemma_ancestor_boundary(parent@, mid[i].path);
                    assert(mid[i].path.len() <= parent@.len());
                    assert(new_full@.len() == parent@.len() + 1 + crate::paths::last_seg(
                        new_full@,
                    ).len());
                    if at_or_under(mid[i].path, new_full@) {
                        if mid[i].path == new_full@ {
                        } else {
                            let rr = choose|rr: Seq<char>| mid[i].path == joined(new_full@, rr);
                            assert(mid[i].path.len() == new_full@.len() + 1 + rr.len());
                        }
                    }
                }
            }
        }
        match fs.rename_subtree(old_full.as_str(), new_full.as_str()) {
            Ok(()) => {},
            Err(_) => {
                proof {
                    assert(false);
                }
                return Err(VaultError::IOFailure);
            },
        }
        proof {
            assert(crate::fs_model::dirs_added(pre, mid, parent@, old(fs)@.now) && fs@.nodes
                == crate::fs_model::rename_nodes(mid, old_full@, new_full@));
        }
        Ok(())
    }

    /// Every vault the registry knows whose directory still holds a readable
    /// metadata record carrying the registered id; rows that fail to load or
    /// whose id mismatches are silently absent. Never fails.
    pub fn list_vaults(&self, fs: &FsTree) -> (r: Result<Vec<Vault>, VaultError>)
        requires
            self.wf(),
            fs.wf(),
        ensures
            r is Ok,
            match r {
                Ok(vs) => vs.deep_view() == spec_list_vaults(self.rows(), fs@.nodes, fs@.now),
                Err(_) => false,
            },
    {
        let rows = self.registry_rows();
        let n = rows.vaults.len();
        let mut out: Vec<Vault> = Vec::new();
        let mut i: usize = 0;
        while i < n
            invariant
                self.wf(),
                fs.wf(),
                n == self.rows().len(),
                rows.vaults@ == self.rows(),
                i <= n,
                out.deep_view() =~= spec_list_vaults(self.rows().take(i as int), fs@.nodes, fs@.now),
            decreases n - i,
        {
            let row_id = rows.vaults[i].id;
            let path = rows.vaults[i].path.clone();
            proof {
                assert(self.rows().take(i as int + 1).drop_last() =~= self.rows().take(i as int));
                assert(self.rows().take(i as int + 1).last() == self.rows()[i as int]);
            }
            match self.load_vault_from_path(fs, path.as_str()) {
                Ok(v) => {
                    if v.id == row_id {
                        out.push(v);
                        proof {
                            assert(out.deep_view() =~= spec_list_vaults(
                                self.rows().take(i as int + 1),
                                fs@.nodes,
                                fs@.now,
                            ));
                        }
                    }
                },
                Err(_) => {},
            }
            i = i + 1;
        }
        proof {
            assert(self.rows().take(n as int) =~= self.rows());
        }
        Ok(out)
    }

    /// List one directory level below the vault root (the vault root itself
    /// when no directory is given): directories first, then notes, each group
    /// ascending by name; hidden names, including the internal metadata
    /// directory, are never surfaced. Fails as resolution does, or `IOFailure`
    /// exactly when the given relative directory could escape the vault root
    /// or no directory stands at the listed path.
    #[verifier::loop_isolation(false)]
    pub fn list_entries(
        &self,
        fs: &FsTree,
        vault_id: VaultId,
        directory_path: Option<&str>,
    ) -> (r: Result<Vec<Entry>, VaultError>)
        requires
            self.wf(),
            fs.wf(),
        ensures
            match spec_resolve(self.reg(), fs@.nodes, vault_id, fs@.now) {
                Err(e0) => r == Err::<Vec<Entry>, VaultError>(e0),
                Ok(v0) => {
                    let base = match directory_path {
                        Some(d) => joined(v0.path, d@),
                        None => v0.path,
                    };
                    match r {
                        Ok(es) => (directory_path matches Some(d) ==> safe_rel_path(d@))
                            && is_dir_at(fs@.nodes, base) && entries_sorted(es.deep_view())
                            && es.deep_view().to_multiset() == children_entries(
                            fs@.nodes,
                            v0.path,
                            base,
                        ).to_multiset(),
                        Err(e) => e == VaultError::IOFailure && ((directory_path matches Some(d)
                            && !safe_rel_path(d@)) || !is_dir_at(fs@.nodes, base)),
                    }
                },
            },
    {
        let vault = match self.find_vault_by_id(fs, vault_id) {
            Ok(v) => v,
            Err(e) => {
                return Err(e);
            },
        };
        match directory_path {
            Some(d) => {
                if !is_safe_rel_path(d) {
                    return Err(VaultError::IOFailure);
                }
            },
            None => {},
        }
        let base: String = match directory_path {
            Some(d) => join_path(vault.path.as_str(), d),
            None => vault.path.clone(),
        };
        proof {
            assert(match directory_path {
                Some(d) => base@ == joined(vault.path@, d@),
                None => base@ == vault.path@,
            });
        }
        if !fs.dir_exists(base.as_str()) {
            return Err(VaultError::IOFailure);
        }
        let ghost ns = fs@.nodes;
        let n = fs.nodes.len();
        let mut out: Vec<Entry> = Vec::new();
        let mut i: usize = 0;
        while i < n
            invariant
                self.wf(),
                fs.wf(),
                n == ns.len(),
                ns == fs@.nodes,
                i <= n,
                out.deep_view() =~= children_entries(ns.take(i as int), vault.path@, base@),
            decreases n - i,
        {
            proof {
                assert(ns.take(i as int + 1).drop_last() =~= ns.take(i as int));
                assert(ns.take(i as int + 1).last() == ns[i as int]);
                assert(ns[i as int].path == fs.nodes@[i as int].path@);
            }
            match crate::paths::strip_prefix(fs.nodes[i].path.as_str(), base.as_str()) {
                Some(name) => {
                    proof {
                        let sfx = suffix_below(ns[i as int].path, base@);
                        assert(ns[i as int].path == joined(base@, sfx));
                        crate::fs_model::lemma_joined_injective(base@, name@, sfx);
                    }
                    let name_len = vstd::string::StrSliceExecFns::unicode_len(name.as_str());
                    let visible = {
                        if name_len == 0 {
                            false
                        } else if vstd::string::StrSliceExecFns::get_char(name.as_str(), 0)
                            == '.' {
                            false
                        } else {
                            let fsl = crate::paths::find_first_slash(name.as_str());
                            fsl == name_len
                        }
                    };
                    proof {
                        crate::paths::lemma_first_slash(name@);
                        assert(visible == is_visible_child(ns[i as int], base@));
                    }
                    if visible {
                        let rel = match crate::paths::strip_prefix(
                            fs.nodes[i].path.as_str(),
                            vault.path.as_str(),
                        ) {
                            Some(rel) => rel,
                            None => {
                                proof {
                                    assert(ns[i as int].path == joined(base@, name@));
                                    match directory_path {
                                        Some(d) => {
                                            assert(base@ == joined(vault.path@, d@));
                                            assert(joined(joined(vault.path@, d@), name@)
                                                =~= joined(
                                                vault.path@,
                                                d@ + seq!['/'] + name@,
                                            ));
                                            assert(false);
                                        },
                                        None => {
                                            assert(base@ == vault.path@);
                                            assert(false);
                                        },
                                    }
                                }
                                return Err(VaultError::IOFailure);
                            },
                        };
                        proof {
                            let sfv = suffix_below(ns[i as int].path, vault.path@);
                            assert(ns[i as int].path == joined(vault.path@, sfv));
                            crate::fs_model::lemma_joined_injective(vault.path@, rel@, sfv);
                        }
                        let entry_type = match &fs.nodes[i].kind {
                            crate::fs_model::NodeKind::Dir => EntryType::Directory,
                            crate::fs_model::NodeKind::File(_) => EntryType::Note,
                        };
                        let entry = Entry {
                            name,
                            path: rel,
                            entry_type,
                            created_at: Some(fs.nodes[i].created),
                            updated_at: Some(fs.nodes[i].modified),
                        };
                        proof {
                            assert(entry@ == child_entry(ns[i as int], vault.path@, base@));
                        }
                        out.push(entry);
                        proof {
                            assert(out.deep_view() =~= children_entries(
                                ns.take(i as int + 1),
                                vault.path@,
                                base@,
                            ));
                        }
                    }
                },
                None => {
                    proof {
                        assert(!is_under(ns[i as int].path, base@));
                    }
                },
            }
            i = i + 1;
        }
        proof {
            assert(ns.take(n as int) =~= ns);
        }
        let sorted = sort_entries(out);
        Ok(sorted)
    }
}

/// After `create_dir_all(dirp)` followed by a file write at `filep` (not an
/// ancestor of `dirp`), the filesystem holds exactly the old nodes, the new
/// ancestor directories of `dirp`, and the written file.
pub proof fn lemma_dirs_then_write(
    pre: Seq<FsNodeV>,
    mid: Seq<FsNodeV>,
    post: Seq<FsNodeV>,
    dirp: Seq<char>,
    filep: Seq<char>,
    d: FileDataV,
    now: i64,
)
    requires
        crate::fs_model::fs_wf(mid),
        crate::fs_model::fs_wf(post),
        crate::fs_model::dirs_added(pre, mid, dirp, now),
        !at_or_under(dirp, filep),
        post == crate::fs_model::upsert_file(mid, filep, d, now),
        !is_dir_at(mid, filep),
    ensures
        is_file_at(post, filep),
        file_at(post, filep) == d,
        forall|q: Seq<char>| at_or_under(dirp, q) ==> is_dir_at(post, q),
        forall|q: Seq<char>|
            #[trigger] has_path(post, q) <==> has_path(pre, q) || at_or_under(dirp, q) || q
                == filep,
        forall|q: Seq<char>|
            #[trigger] has_path(pre, q) && q != filep ==> node_at(post, q) == node_at(pre, q),
{
    if has_path(mid, filep) {
        let i = crate::fs_model::path_index(mid, filep);
        assert(mid[i].path == filep);
        assert(post == mid.update(
            i,
            FsNodeV {
                path: filep,
                kind: crate::fs_model::NodeKindV::File(d),
                created: node_at(mid, filep).created,
                modified: now,
            },
        ));
        assert(post[i].path == filep);
        assert(has_path(post, filep)) by {
            assert(0 <= i < post.len() && post[i].path == filep);
        }
        let j = crate::fs_model::path_index(post, filep);
        assert(post[j].path == filep);
        assert(j == i) by {
            if j != i {
                assert(post[j] == mid[j]);
                assert(mid[j].path == filep);
            }
        }
        assert(is_file_at(post, filep) && file_at(post, filep) == d);
        assert forall|q: Seq<char>| #[trigger] has_path(pre, q) && q != filep implies node_at(
            post,
            q,
        ) == node_at(pre, q) by {
            lemma_prefix_preserves_node_at(pre, mid, q);
            let a = crate::fs_model::path_index(mid, q);
            assert(mid[a].path == q);
            assert(a != i);
            assert(post[a] == mid[a]);
            assert(has_path(post, q)) by {
                assert(0 <= a < post.len() && post[a].path == q);
            }
            let b = crate::fs_model::path_index(post, q);
            assert(post[b].path == q);
            assert(b == a) by {
                if b != a {
                    if b == i {
                        assert(post[b].path == filep);
                    } else {
                        assert(post[b] == mid[b]);
                        assert(mid[b].path == q);
                    }
                }
            }
        }
        assert forall|q: Seq<char>| #[trigger] has_path(post, q) implies has_path(pre, q)
            || at_or_under(dirp, q) || q == filep by {
            if q != filep {
                let a = crate::fs_model::path_index(post, q);
                assert(post[a].path == q);
                assert(a != i);
                assert(mid[a].path == q);
                if a < pre.len() {
                    assert(pre[a] == mid.take(pre.len() as int)[a]);
                    assert(has_path(pre, q)) by {
                        assert(0 <= a < pre.len() && pre[a].path == q);
                    }
                } else {
                    assert(at_or_under(dirp, mid[a].path));
                }
            }
        }
        assert forall|q: Seq<char>|
            has_path(pre, q) || at_or_under(dirp, q) || q == filep implies #[trigger] has_path(
            post,
            q,
        ) by {
            if has_path(pre, q) {
                lemma_prefix_preserves_node_at(pre, mid, q);
                let a = crate::fs_model::path_index(mid, q);
                assert(mid[a].path == q);
                assert(post[a].path == q);
                assert(0 <= a < post.len() && post[a].path == q);
            } else if at_or_under(dirp, q) {
                assert(is_dir_at(mid, q));
                let a = crate::fs_model::path_index(mid, q);
                assert(mid[a].path == q);
                assert(a != i);
                assert(post[a].path == q);
                assert(0 <= a < post.len() && post[a].path == q);
            }
        }
    } else {
        assert(post == mid.push(
            FsNodeV {
                path: filep,
                kind: crate::fs_model::NodeKindV::File(d),
                created: now,
                modified: now,
            },
        ));
        let i = mid.len() as int;
        assert(post[i].path == filep);
        assert(has_path(post, filep)) by {
            assert(0 <= i < post.len() && post[i].path == filep);
        }
        let j = crate::fs_model::path_index(post, filep);
        assert(post[j].path == filep);
        assert(j == i) by {
            if j != i {
                assert(post[j] == mid[j]);
                assert(has_path(mid, filep)) by {
                    assert(0 <= j < mid.len() && mid[j].path == filep);
                }
            }
        }
        assert(is_file_at(post, filep) && file_at(post, filep) == d);
        assert forall|q: Seq<char>| #[trigger] has_path(pre, q) && q != filep implies node_at(
            post,
            q,
        ) == node_at(pre, q) by {
            lemma_prefix_preserves_node_at(pre, mid, q);
            assert(post.take(mid.len() as int) =~= mid);
            lemma_prefix_preserves_node_at(mid, post, q);
        }
        assert forall|q: Seq<char>| #[trigger] has_path(post, q) implies has_path(pre, q)
            || at_or_under(dirp, q) || q == filep by {
            if q != filep {
                let a = crate::fs_model::path_index(post, q);
                assert(post[a].path == q);
                assert(a != i);
                assert(mid[a].path == q);
                if a < pre.len() {
                    assert(pre[a] == mid.take(pre.len() as int)[a]);
                    assert(0 <= a < pre.len() && pre[a].path == q);
                } else {
                    assert(at_or_under(dirp, mid[a].path));
                }
            }
        }
        assert forall|q: Seq<char>|
            has_path(pre, q) || at_or_under(dirp, q) || q == filep implies #[trigger] has_path(
            post,
            q,
        ) by {
            if has_path(pre, q) {
                lemma_prefix_preserves_node_at(pre, mid, q);
                let a = crate::fs_model::path_index(mid, q);
                assert(mid[a].path == q);
                assert(post[a].path == q);
                assert(0 <= a < post.len() && post[a].path == q);
            } else if at_or_under(dirp, q) {
                assert(is_dir_at(mid, q));
                let a = crate::fs_model::path_index(mid, q);
                assert(mid[a].path == q);
                assert(post[a].path == q);
                assert(0 <= a < post.len() && post[a].path == q);
            }
        }
    }
    // ancestors of the directory stay directories: the write never hits one
    assert forall|q: Seq<char>| at_or_under(dirp, q) implies is_dir_at(post, q) by {
        assert(is_dir_at(mid, q));
        assert(q != filep);
        let a = crate::fs_model::path_index(mid, q);
        assert(mid[a].path == q);
        assert(post[a] == mid[a]);
        assert(has_path(post, q)) by {
            assert(0 <= a < post.len() && post[a].path == q);
        }
        let b = crate::fs_model::path_index(post, q);
        assert(post[b].path == q);
        assert(b == a) by {
            if b != a {
                if b < mid.len() {
                    assert(post[b] == mid[b] || post[b].path == filep);
                    assert(mid[b].path == q || post[b].path == filep);
                } else {
                    assert(post[b].path == filep);
                }
            }
        }
    }
}



/// Law: a vault-relative path that passes the containment check addresses
/// something at or below the vault root once joined onto it, never outside;
/// every entry operation rejects, with nothing changed, any relative path
/// whose segments could escape (a `.` or `..` reference, an empty segment, a
/// leading separator).
pub proof fn lemma_safe_path_stays_inside(vp: Seq<char>, rel: Seq<char>)
    requires
        safe_rel_path(rel),
    ensures
        crate::fs_model::is_under(joined(vp, rel), vp),
{
    assert(joined(vp, rel) == joined(vp, rel));
}

/// Law: two creations of the same name under the same root cannot both
/// succeed. A successful creation leaves a directory standing at `root/name`
/// (`create_vault_with` ensures `is_dir_at`), and any later creation of the
/// same pair fails `AlreadyExists` and changes nothing, because its
/// `AlreadyExists` condition is exactly that something stands there.
pub proof fn lemma_create_vault_conflict(post: Seq<FsNodeV>, root: Seq<char>, name: Seq<char>)
    requires
        is_dir_at(post, joined(root, name)),
    ensures
        has_path(post, joined(root, name)),
{
}


/// Whether one registry row yields the vault `v` in a listing.
pub open spec fn row_yields(row: RegEntry, ns: Seq<FsNodeV>, now: i64, v: VaultV) -> bool {
    match meta_at(ns, row.path@) {
        Some(m) => m.id == row.id && v == vault_of(row.path@, m, now),
        None => false,
    }
}

/// Law: a vault appears in a listing exactly when some registry row resolves
/// to a readable metadata record whose id matches the row's key; a row whose
/// vault is missing, corrupt or id-mismatched is simply absent and never
/// aborts the listing (which always returns successfully).
pub proof fn lemma_list_vaults_membership(
    rows: Seq<RegEntry>,
    ns: Seq<FsNodeV>,
    now: i64,
    v: VaultV,
)
    ensures
        spec_list_vaults(rows, ns, now).contains(v) <==> exists|i: int|
            0 <= i < rows.len() && #[trigger] row_yields(rows[i], ns, now, v),
    decreases rows.len(),
{
    let out = spec_list_vaults(rows, ns, now);
    if rows.len() > 0 {
        lemma_list_vaults_membership(rows.drop_last(), ns, now, v);
        let sub = spec_list_vaults(rows.drop_last(), ns, now);
        let row = rows.last();
        let kept = match meta_at(ns, row.path@) {
            Some(m) => m.id == row.id,
            None => false,
        };
        if out.contains(v) {
            let k = choose|k: int| 0 <= k < out.len() && out[k] == v;
            if kept && k == out.len() - 1 {
                assert(rows[rows.len() - 1] == row);
                assert(row_yields(rows[rows.len() - 1], ns, now, v));
            } else {
                assert(sub[k] == v);
                let i = choose|i: int|
                    0 <= i < rows.drop_last().len() && #[trigger] row_yields(
                        rows.drop_last()[i],
                        ns,
                        now,
                        v,
                    );
                assert(rows[i] == rows.drop_last()[i]);
                assert(row_yields(rows[i], ns, now, v));
            }
        }
        if exists|i: int| 0 <= i < rows.len() && #[trigger] row_yields(rows[i], ns, now, v) {
            let i = choose|i: int|
                0 <= i < rows.len() && #[trigger] row_yields(rows[i], ns, now, v);
            if i == rows.len() - 1 {
                assert(out[out.len() - 1] == v);
            } else {
                assert(rows.drop_last()[i] == rows[i]);
                assert(row_yields(rows.drop_last()[i], ns, now, v));
                assert(sub.contains(v));
                let k = choose|k: int| 0 <= k < sub.len() && sub[k] == v;
                assert(out[k] == v);
            }
        }
    }
}

/// Law: reading a note straight after writing it returns exactly the written
/// content. `edit_note` leaves the filesystem at `upsert_file(..)`, and there
/// the written path holds a text file with precisely the written characters,
/// which is the one case in which `read_note` returns `Ok`.
pub proof fn lemma_edit_then_read(
    ns: Seq<FsNodeV>,
    full: Seq<char>,
    content: Seq<char>,
    now: i64,
)
    requires
        crate::fs_model::fs_wf(ns),
        !is_dir_at(ns, full),
    ensures
        is_file_at(crate::fs_model::upsert_file(ns, full, FileDataV::Text(content), now), full),
        file_at(crate::fs_model::upsert_file(ns, full, FileDataV::Text(content), now), full)
            == FileDataV::Text(content),
{
    let post = crate::fs_model::upsert_file(ns, full, FileDataV::Text(content), now);
    if has_path(ns, full) {
        let i = crate::fs_model::path_index(ns, full);
        assert(ns[i].path == full);
        assert(post[i].path == full);
        assert(has_path(post, full)) by {
            assert(0 <= i < post.len() && post[i].path == full);
        }
        let j = crate::fs_model::path_index(post, full);
        assert(post[j].path == full);
        assert(j == i) by {
            if j != i {
                assert(post[j] == ns[j]);
                assert(ns[j].path == full);
            }
        }
    } else {
        let i = ns.len() as int;
        assert(post[i].path == full);
        assert(has_path(post, full)) by {
            assert(0 <= i < post.len() && post[i].path == full);
        }
        let j = crate::fs_model::path_index(post, full);
        assert(post[j].path == full);
        assert(j == i) by {
            if j != i {
                assert(post[j] == ns[j]);
                assert(has_path(ns, full)) by {
                    assert(0 <= j < ns.len() && ns[j].path == full);
                }
            }
        }
    }
}

/// Below-or-at is carried through joining: what lies below a directory lies
/// below everything that directory lies below or at.
pub proof fn lemma_under_trans(x: Seq<char>, base: Seq<char>, p: Seq<char>)
    requires
        is_under(x, base),
        at_or_under(base, p),
    ensures
        at_or_under(x, p),
{
    let r = crate::fs_model::suffix_below(x, base);
    assert(x == joined(base, r));
    if base == p {
    } else {
        let r2 = crate::fs_model::suffix_below(base, p);
        assert(base == joined(p, r2));
        assert(x =~= joined(p, r2 + seq!['/'] + r));
    }
}

/// Law: after a directory is deleted, a listing of it, or of anything below
/// it, surfaces nothing: every descendant entry is gone.
pub proof fn lemma_delete_dir_removes_descendants(
    ns: Seq<FsNodeV>,
    p: Seq<char>,
    vp: Seq<char>,
    base: Seq<char>,
)
    requires
        at_or_under(base, p),
    ensures
        children_entries(remove_subtree_nodes(ns, p), vp, base) =~= Seq::<EntryV>::empty(),
{
    assert forall|x: FsNodeV| #[trigger] remove_subtree_nodes(ns, p).contains(x) implies
        !at_or_under(x.path, p) by {
        crate::fs_model::lemma_remove_subtree_members(ns, p, x);
    }
    lemma_children_of_clean(remove_subtree_nodes(ns, p), vp, base, p, ns);
}

/// No listing row comes out of a node set holding nothing at or below the
/// listed directory's ancestor `p`.
proof fn lemma_children_of_clean(
    ns2: Seq<FsNodeV>,
    vp: Seq<char>,
    base: Seq<char>,
    p: Seq<char>,
    ns: Seq<FsNodeV>,
)
    requires
        at_or_under(base, p),
        forall|x: FsNodeV| #[trigger] ns2.contains(x) ==> !at_or_under(x.path, p),
    ensures
        children_entries(ns2, vp, base) =~= Seq::<EntryV>::empty(),
    decreases ns2.len(),
{
    if ns2.len() > 0 {
        assert forall|x: FsNodeV| #[trigger] ns2.drop_last().contains(x) implies !at_or_under(
            x.path,
            p,
        ) by {
            let k = choose|k: int| 0 <= k < ns2.drop_last().len() && ns2.drop_last()[k] == x;
            assert(ns2[k] == x);
            assert(ns2.contains(x));
        }
        lemma_children_of_clean(ns2.drop_last(), vp, base, p, ns);
        if is_visible_child(ns2.last(), base) {
            assert(ns2.contains(ns2.last())) by {
                assert(ns2[ns2.len() - 1] == ns2.last());
            }
            lemma_under_trans(ns2.last().path, base, p);
            assert(false);
        }
    }
}

} // verus!
