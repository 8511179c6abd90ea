//! The directory-tree model: directories owning entries, per-file change and
//! conflict states, and per-directory aggregated state sets that are the
//! union of the states of all loaded descendants.

use crate::common::RelativePath;
use vstd::prelude::*;

verus! {

/// The change state of a directory entry, e.g. whether it is added,
/// modified, deleted, or unchanged
#[derive(Debug, Clone, Copy, PartialEq, Eq, Structural, Hash)]
pub enum ChangeState {
    /// The entry is unchanged from the base version
    Unchanged,
    /// The entry is new in this version
    Added,
    /// The entry has been modified in this version
    Modified,
    /// The entry has been deleted in this version
    Deleted,
}

impl Default for ChangeState {
    fn default() -> (r: Self)
        ensures
            r == ChangeState::Unchanged,
    {
        ChangeState::Unchanged
    }
}

/// The conflict state of a directory entry
#[derive(Debug, Clone, Copy, PartialEq, Eq, Structural, Hash)]
pub enum ConflictState {
    /// The entry has no conflicts
    NoConflict,
    /// The entry has conflicts pending resolution
    Unresolved,
    /// The entry's conflicts have been resolved
    Resolved,
    /// The entry has incoming changes that conflict with local changes
    Incoming,
}

impl Default for ConflictState {
    fn default() -> (r: Self)
        ensures
            r == ConflictState::NoConflict,
    {
        ConflictState::NoConflict
    }
}

/// A flag set over [`ChangeState`], viewed as a `Set<ChangeState>`.
#[derive(Debug, Clone, Copy, PartialEq, Eq, Structural, Hash)]
pub struct ChangeStateSet {
    pub unchanged: bool,
    pub added: bool,
    pub modified: bool,
    pub deleted: bool,
}

impl ChangeStateSet {
    pub open spec fn has(&self, value: ChangeState) -> bool {
        match value {
            ChangeState::Unchanged => self.unchanged,
            ChangeState::Added => self.added,
            ChangeState::Modified => self.modified,
            ChangeState::Deleted => self.deleted,
        }
    }

    /// Whether the set contains the given state.
    pub fn contains(&self, value: ChangeState) -> (r: bool)
        ensures
            r == self@.contains(value),
    {
        match value {
            ChangeState::Unchanged => self.unchanged,
            ChangeState::Added => self.added,
            ChangeState::Modified => self.modified,
            ChangeState::Deleted => self.deleted,
        }
    }

    /// Adds one state; returns whether it was newly added.
    pub fn insert(&mut self, value: ChangeState) -> (r: bool)
        ensures
            final(self)@ == old(self)@.insert(value),
            r == !old(self)@.contains(value),
    {
        let had = self.contains(value);
        match value {
            ChangeState::Unchanged => {
                self.unchanged = true;
            },
            ChangeState::Added => {
                self.added = true;
            },
            ChangeState::Modified => {
                self.modified = true;
            },
            ChangeState::Deleted => {
                self.deleted = true;
            },
        }
        proof {
            assert(self@ =~= old(self)@.insert(value));
        }
        !had
    }

    /// Adds every state of `other`.
    pub fn insert_all(&mut self, other: ChangeStateSet)
        ensures
            final(self)@ == old(self)@.union(other@),
    {
        self.unchanged = self.unchanged || other.unchanged;
        self.added = self.added || other.added;
        self.modified = self.modified || other.modified;
        self.deleted = self.deleted || other.deleted;
        proof {
            assert(self@ =~= old(self)@.union(other@));
        }
    }
}

impl View for ChangeStateSet {
    type V = Set<ChangeState>;

    open spec fn view(&self) -> Set<ChangeState> {
        Set::new(|value: ChangeState| self.has(value))
    }
}

impl Default for ChangeStateSet {
    /// The empty set.
    fn default() -> (r: Self)
        ensures
            r@ == Set::<ChangeState>::empty(),
    {
        let r = ChangeStateSet { unchanged: false, added: false, modified: false, deleted: false };
        proof {
            assert(r@ =~= Set::<ChangeState>::empty());
        }
        r
    }
}

/// A flag set over [`ConflictState`], viewed as a `Set<ConflictState>`.
#[derive(Debug, Clone, Copy, PartialEq, Eq, Structural, Hash)]
pub struct ConflictStateSet {
    pub none: bool,
    pub unresolved: bool,
    pub resolved: bool,
    pub incoming: bool,
}

impl ConflictStateSet {
    pub open spec fn has(&self, value: ConflictState) -> bool {
        match value {
            ConflictState::NoConflict => self.none,
            ConflictState::Unresolved => self.unresolved,
            ConflictState::Resolved => self.resolved,
            ConflictState::Incoming => self.incoming,
        }
    }

    /// Whether the set contains the given state.
    pub fn contains(&self, value: ConflictState) -> (r: bool)
        ensures
            r == self@.contains(value),
    {
        match value {
            ConflictState::NoConflict => self.none,
            ConflictState::Unresolved => self.unresolved,
            ConflictState::Resolved => self.resolved,
            ConflictState::Incoming => self.incoming,
        }
    }

    /// Adds one state; returns whether it was newly added.
    pub fn insert(&mut self, value: ConflictState) -> (r: bool)
        ensures
            final(self)@ == old(self)@.insert(value),
            r == !old(self)@.contains(value),
    {
        let had = self.contains(value);
        match value {
            ConflictState::NoConflict => {
                self.none = true;
            },
            ConflictState::Unresolved => {
                self.unresolved = true;
            },
            ConflictState::Resolved => {
                self.resolved = true;
            },
            ConflictState::Incoming => {
                self.incoming = true;
            },
        }
        proof {
            assert(self@ =~= old(self)@.insert(value));
        }
        !had
    }

    /// Adds every state of `other`.
    pub fn insert_all(&mut self, other: ConflictStateSet)
        ensures
            final(self)@ == old(self)@.union(other@),
    {
        self.none = self.none || other.none;
        self.unresolved = self.unresolved || other.unresolved;
        self.resolved = self.resolved || other.resolved;
        self.incoming = self.incoming || other.incoming;
        proof {
            assert(self@ =~= old(self)@.union(other@));
        }
    }
}

impl View for ConflictStateSet {
    type V = Set<ConflictState>;

    open spec fn view(&self) -> Set<ConflictState> {
        Set::new(|value: ConflictState| self.has(value))
    }
}

impl Default for ConflictStateSet {
    /// The empty set.
    fn default() -> (r: Self)
        ensures
            r@ == Set::<ConflictState>::empty(),
    {
        let r = ConflictStateSet { none: false, unresolved: false, resolved: false, incoming: false };
        proof {
            assert(r@ =~= Set::<ConflictState>::empty());
        }
        r
    }
}

/// Metadata about a file
#[derive(Debug, Clone, PartialEq, Eq, Structural, Hash)]
pub struct FileMetadata {
    pub size_bytes: u64,
    pub modified_time_unix_ms_utc: u64,
}

impl FileMetadata {
    /// Creates a new FileMetadata with the given size and modified time
    pub fn new(size_bytes: u64, modified_time_unix_ms_utc: u64) -> (r: Self)
        ensures
            r == (FileMetadata { size_bytes, modified_time_unix_ms_utc }),
    {
        FileMetadata { size_bytes, modified_time_unix_ms_utc }
    }

    /// Returns the size of the file in bytes
    pub fn size_bytes(&self) -> (r: u64)
        ensures
            r == self.size_bytes,
    {
        self.size_bytes
    }

    /// Returns the last modified time of the file in Unix milliseconds UTC
    pub fn modified_time_unix_ms_utc(&self) -> (r: u64)
        ensures
            r == self.modified_time_unix_ms_utc,
    {
        self.modified_time_unix_ms_utc
    }
}

/// Represents a directory in the workspace, containing its relative path and
/// entries, plus the aggregated union of its entries' states.
#[derive(Debug)]
pub struct Directory {
    /// The full relative path of this directory within the workspace
    pub relative_path: RelativePath,
    /// The entries within this directory
    pub entries: Vec<DirectoryEntry>,
    /// The aggregated union of conflict states of all entries within this directory
    pub conflict_states: ConflictStateSet,
    /// The aggregated union of change states of all entries within this directory
    pub change_states: ChangeStateSet,
}

/// Represents an entry in a directory, which can be either a file or a
/// sub-directory.
#[derive(Debug)]
pub struct DirectoryEntry {
    pub name: String,
    pub info: DirectoryEntryType,
}

/// The type of a directory entry, either a file or a directory.
#[derive(Debug)]
pub enum DirectoryEntryType {
    /// The entry is a plain-old-file
    File { metadata: FileMetadata, change_state: ChangeState, conflict_state: ConflictState },
    /// The entry is a directory. If the inner value is None, the directory
    /// has not been loaded yet.
    Directory(Option<Directory>),
}

/// The mathematical shape of a [`Directory`].
#[verifier::ext_equal]
pub struct DirectoryModel {
    pub relative_path: Seq<char>,
    pub entries: Seq<DirectoryEntryModel>,
    pub conflict_states: Set<ConflictState>,
    pub change_states: Set<ChangeState>,
}

/// The mathematical shape of a [`DirectoryEntry`].
#[verifier::ext_equal]
pub struct DirectoryEntryModel {
    pub name: Seq<char>,
    pub info: EntryInfoModel,
}

/// The mathematical shape of a [`DirectoryEntryType`].
#[verifier::ext_equal]
pub enum EntryInfoModel {
    File { metadata: FileMetadata, change_state: ChangeState, conflict_state: ConflictState },
    Directory(Option<DirectoryModel>),
}

pub open spec fn info_view(info: DirectoryEntryType) -> EntryInfoModel
    decreases info,
{
    match info {
        DirectoryEntryType::File { metadata, change_state, conflict_state } => {
            EntryInfoModel::File { metadata, change_state, conflict_state }
        },
        DirectoryEntryType::Directory(None) => EntryInfoModel::Directory(None),
        DirectoryEntryType::Directory(Some(d)) => EntryInfoModel::Directory(Some(dir_view(d))),
    }
}

pub open spec fn entry_view(e: DirectoryEntry) -> DirectoryEntryModel
    decreases e,
{
    DirectoryEntryModel { name: e.name@, info: info_view(e.info) }
}

pub open spec fn entries_view(s: Seq<DirectoryEntry>) -> Seq<DirectoryEntryModel>
    decreases s,
{
    if s.len() == 0 {
        Seq::empty()
    } else {
        entries_view(s.drop_last()).push(entry_view(s.last()))
    }
}

pub open spec fn dir_view(d: Directory) -> DirectoryModel
    decreases d,
{
    DirectoryModel {
        relative_path: d.relative_path@,
        entries: entries_view(d.entries@),
        conflict_states: d.conflict_states@,
        change_states: d.change_states@,
    }
}

pub proof fn lemma_entries_view_len(s: Seq<DirectoryEntry>)
    ensures
        entries_view(s).len() == s.len(),
    decreases s,
{
    if s.len() > 0 {
        lemma_entries_view_len(s.drop_last());
    }
}

pub proof fn lemma_entries_view_index(s: Seq<DirectoryEntry>, i: int)
    requires
        0 <= i < s.len(),
    ensures
        entries_view(s).len() == s.len(),
        entries_view(s)[i] == entry_view(s[i]),
    decreases s,
{
    lemma_entries_view_len(s);
    if i < s.len() - 1 {
        lemma_entries_view_index(s.drop_last(), i);
    } else {
        lemma_entries_view_len(s.drop_last());
    }
}

pub proof fn lemma_entries_view_push(s: Seq<DirectoryEntry>, e: DirectoryEntry)
    ensures
        entries_view(s.push(e)) == entries_view(s).push(entry_view(e)),
{
    assert(s.push(e).drop_last() =~= s);
    assert(s.push(e).last() == e);
}

/// A directory with no entries and empty aggregate sets: what
/// `Directory::new` yields for an empty entry vector.
pub open spec fn model_new_dir(path: Seq<char>) -> DirectoryModel {
    DirectoryModel {
        relative_path: path,
        entries: Seq::empty(),
        conflict_states: Set::empty(),
        change_states: Set::empty(),
    }
}

/// Appending one entry to a directory: what `Directory::push_entry` does.
pub open spec fn model_push_entry(m: DirectoryModel, e: DirectoryEntryModel) -> DirectoryModel {
    DirectoryModel {
        entries: m.entries.push(e),
        conflict_states: m.conflict_states.union(entry_conflict_contrib(e)),
        change_states: m.change_states.union(entry_change_contrib(e)),
        ..m
    }
}

/// What one entry contributes to its parent's aggregated conflict-state set:
/// a file contributes its own state, a loaded directory its already
/// aggregated set, an unloaded directory nothing.
pub open spec fn entry_conflict_contrib(e: DirectoryEntryModel) -> Set<ConflictState> {
    match e.info {
        EntryInfoModel::File { conflict_state, .. } => Set::empty().insert(conflict_state),
        EntryInfoModel::Directory(Some(m)) => m.conflict_states,
        EntryInfoModel::Directory(None) => Set::empty(),
    }
}

/// What one entry contributes to its parent's aggregated change-state set.
pub open spec fn entry_change_contrib(e: DirectoryEntryModel) -> Set<ChangeState> {
    match e.info {
        EntryInfoModel::File { change_state, .. } => Set::empty().insert(change_state),
        EntryInfoModel::Directory(Some(m)) => m.change_states,
        EntryInfoModel::Directory(None) => Set::empty(),
    }
}

/// The union of the conflict-state contributions of a sequence of entries.
pub open spec fn entries_conflict_agg(s: Seq<DirectoryEntryModel>) -> Set<ConflictState>
    decreases s,
{
    if s.len() == 0 {
        Set::empty()
    } else {
        entries_conflict_agg(s.drop_last()).union(entry_conflict_contrib(s.last()))
    }
}

/// The union of the change-state contributions of a sequence of entries.
pub open spec fn entries_change_agg(s: Seq<DirectoryEntryModel>) -> Set<ChangeState>
    decreases s,
{
    if s.len() == 0 {
        Set::empty()
    } else {
        entries_change_agg(s.drop_last()).union(entry_change_contrib(s.last()))
    }
}

impl DirectoryEntry {
    /// Creates a new DirectoryEntry with the given name and type
    pub fn new(name: String, info: DirectoryEntryType) -> (r: Self)
        ensures
            entry_view(r) == (DirectoryEntryModel { name: name@, info: info_view(info) }),
    {
        DirectoryEntry { name, info }
    }

    /// Returns the name of the directory entry
    pub fn name(&self) -> (r: &str)
        ensures
            r@ == self.name@,
    {
        self.name.as_str()
    }

    /// Returns the type information of the directory entry
    pub fn info(&self) -> (r: &DirectoryEntryType)
        ensures
            r == &self.info,
    {
        &self.info
    }

    /// Folds this entry's contribution into the two running aggregate sets.
    pub(crate) fn aggregate_states_into(
        &self,
        conflict_states: &mut ConflictStateSet,
        change_states: &mut ChangeStateSet,
    )
        ensures
            final(conflict_states)@ == old(conflict_states)@.union(
                entry_conflict_contrib(entry_view(*self)),
            ),
            final(change_states)@ == old(change_states)@.union(
                entry_change_contrib(entry_view(*self)),
            ),
    {
        match &self.info {
            DirectoryEntryType::File { conflict_state, change_state, .. } => {
                let _ = conflict_states.insert(*conflict_state);
                let _ = change_states.insert(*change_state);
                proof {
                    assert(conflict_states@ =~= old(conflict_states)@.union(
                        entry_conflict_contrib(entry_view(*self)),
                    ));
                    assert(change_states@ =~= old(change_states)@.union(
                        entry_change_contrib(entry_view(*self)),
                    ));
                }
            },
            DirectoryEntryType::Directory(Some(dir)) => {
                conflict_states.insert_all(dir.conflict_states);
                change_states.insert_all(dir.change_states);
            },
            DirectoryEntryType::Directory(None) => {
                proof {
                    assert(conflict_states@ =~= old(conflict_states)@.union(
                        entry_conflict_contrib(entry_view(*self)),
                    ));
                    assert(change_states@ =~= old(change_states)@.union(
                        entry_change_contrib(entry_view(*self)),
                    ));
                }
            },
        }
    }
}

impl Directory {
    /// Creates a new Directory with the given relative path and entries; the
    /// aggregated state sets are the union of the entries' contributions.
    pub fn new(relative_path: RelativePath, entries: Vec<DirectoryEntry>) -> (r: Self)
        ensures
            dir_view(r) == (DirectoryModel {
                relative_path: relative_path@,
                entries: entries_view(entries@),
                conflict_states: entries_conflict_agg(entries_view(entries@)),
                change_states: entries_change_agg(entries_view(entries@)),
            }),
    {
        let ghost ev = entries_view(entries@);
        let mut conflict_states = ConflictStateSet::default();
        let mut change_states = ChangeStateSet::default();
        let n = entries.len();
        let mut i: usize = 0;
        proof {
            lemma_entries_view_len(entries@);
            assert(ev.take(0) =~= Seq::<DirectoryEntryModel>::empty());
        }
        while i < n
            invariant
                n == entries@.len(),
                ev == entries_view(entries@),
                ev.len() == n,
                i <= n,
                conflict_states@ == entries_conflict_agg(ev.take(i as int)),
                change_states@ == entries_change_agg(ev.take(i as int)),
            decreases n - i,
        {
            let entry = &entries[i];
            proof {
                lemma_entries_view_index(entries@, i as int);
            }
            entry.aggregate_states_into(&mut conflict_states, &mut change_states);
            proof {
                assert(ev.take(i + 1).drop_last() =~= ev.take(i as int));
                assert(ev.take(i + 1).last() == ev[i as int]);
            }
            i = i + 1;
        }
        proof {
            assert(ev.take(n as int) =~= ev);
        }
        Directory { relative_path, entries, conflict_states, change_states }
    }

    /// Returns the relative path of this directory
    pub fn relative_path(&self) -> (r: &RelativePath)
        ensures
            r == &self.relative_path,
    {
        &self.relative_path
    }

    /// Returns the entries within this directory
    pub fn entries(&self) -> (r: &[DirectoryEntry])
        ensures
            r@ == self.entries@,
    {
        self.entries.as_slice()
    }

    /// Appends an entry and folds its contribution into the aggregated sets.
    pub fn push_entry(&mut self, entry: DirectoryEntry)
        ensures
            dir_view(*final(self)) == (DirectoryModel {
                relative_path: old(self).relative_path@,
                entries: entries_view(old(self).entries@).push(entry_view(entry)),
                conflict_states: old(self).conflict_states@.union(
                    entry_conflict_contrib(entry_view(entry)),
                ),
                change_states: old(self).change_states@.union(
                    entry_change_contrib(entry_view(entry)),
                ),
            }),
    {
        entry.aggregate_states_into(&mut self.conflict_states, &mut self.change_states);
        proof {
            lemma_entries_view_push(self.entries@, entry);
        }
        self.entries.push(entry);
    }

    /// Prunes (unloads, i.e. sets to the unloaded placeholder) directory
    /// sub-entries beyond the specified depth limit. Entry names and files
    /// stay; the aggregated state sets are not recomputed: they keep what
    /// was aggregated when the tree was built.
    pub fn prune_to_depth(&mut self, depth_limit: u32)
        ensures
            dir_view(*final(self)) == prune_model(dir_view(*old(self)), depth_limit),
    {
        let mut entries: Vec<DirectoryEntry> = Vec::new();
        core::mem::swap(&mut self.entries, &mut entries);
        let pruned = prune_entries(entries, depth_limit);
        self.entries = pruned;
    }
}

/// The pruning of one entry's info: at a zero budget a loaded directory
/// becomes the unloaded placeholder; deeper entries recurse with one less.
/// Files and already-unloaded directories are unaffected.
pub open spec fn prune_info_model(im: EntryInfoModel, limit: u32) -> EntryInfoModel
    decreases im,
{
    match im {
        EntryInfoModel::Directory(Some(m)) => {
            if limit > 0 {
                EntryInfoModel::Directory(Some(prune_model(m, (limit - 1) as u32)))
            } else {
                EntryInfoModel::Directory(None)
            }
        },
        _ => im,
    }
}

pub open spec fn prune_entry_model(e: DirectoryEntryModel, limit: u32) -> DirectoryEntryModel
    decreases e,
{
    DirectoryEntryModel { name: e.name, info: prune_info_model(e.info, limit) }
}

pub open spec fn prune_entries_model(s: Seq<DirectoryEntryModel>, limit: u32) -> Seq<
    DirectoryEntryModel,
>
    decreases s,
{
    if s.len() == 0 {
        Seq::empty()
    } else {
        prune_entries_model(s.drop_last(), limit).push(prune_entry_model(s.last(), limit))
    }
}

/// Depth-limited pruning: the path and the aggregated sets stay as they
/// were; only the entries are pruned.
pub open spec fn prune_model(m: DirectoryModel, limit: u32) -> DirectoryModel
    decreases m,
{
    DirectoryModel { entries: prune_entries_model(m.entries, limit), ..m }
}

pub proof fn lemma_prune_entries_model_index(s: Seq<DirectoryEntryModel>, limit: u32)
    ensures
        prune_entries_model(s, limit).len() == s.len(),
        forall|i: int|
            0 <= i < s.len() ==> prune_entries_model(s, limit)[i] == prune_entry_model(
                #[trigger] s[i],
                limit,
            ),
    decreases s,
{
    if s.len() > 0 {
        lemma_prune_entries_model_index(s.drop_last(), limit);
        assert forall|i: int|
            0 <= i < s.len() implies prune_entries_model(s, limit)[i] == prune_entry_model(
            s[i],
            limit,
        ) by {
            if i < s.len() - 1 {
                assert(s.drop_last()[i] == s[i]);
            }
        }
    }
}

fn prune_info(info: DirectoryEntryType, depth_limit: u32) -> (r: DirectoryEntryType)
    ensures
        info_view(r) == prune_info_model(info_view(info), depth_limit),
    decreases info,
{
    match info {
        DirectoryEntryType::Directory(Some(mut d)) => {
            if depth_limit > 0 {
                let mut es: Vec<DirectoryEntry> = Vec::new();
                core::mem::swap(&mut d.entries, &mut es);
                let pruned = prune_entries(es, depth_limit - 1);
                d.entries = pruned;
                DirectoryEntryType::Directory(Some(d))
            } else {
                DirectoryEntryType::Directory(None)
            }
        },
        other => other,
    }
}

#[verifier::loop_isolation(false)]
fn prune_entries(entries: Vec<DirectoryEntry>, depth_limit: u32) -> (r: Vec<DirectoryEntry>)
    ensures
        entries_view(r@) == prune_entries_model(entries_view(entries@), depth_limit),
    decreases entries,
{
    let ghost whole = entries;
    let ghost orig = entries@;
    let mut entries = entries;
    let n = entries.len();
    let mut i: usize = 0;
    while i < n
        invariant
            whole@ == orig,
            entries@.len() == n == orig.len(),
            i <= n,
            forall|j: int| i <= j < n ==> entries@[j] == orig[j],
            forall|j: int|
                0 <= j < i ==> entry_view(#[trigger] entries@[j]) == prune_entry_model(
                    entry_view(orig[j]),
                    depth_limit,
                ),
        decreases n - i,
    {
        let ghost before = entries@;
        let mut taken = DirectoryEntryType::Directory(None);
        let elem = &mut entries[i];
        core::mem::swap(&mut elem.info, &mut taken);
        proof {
            assert(taken == orig[i as int].info);
            assert(decreases_to!(whole => whole@));
            assert(whole@ == orig);
            assert(decreases_to!(orig => orig[i as int]));
            assert(decreases_to!(orig[i as int] => orig[i as int].info));
            assert(decreases_to!(whole => taken));
        }
        let new_info = prune_info(taken, depth_limit);
        let elem = &mut entries[i];
        elem.info = new_info;
        i = i + 1;
    }
    proof {
        lemma_entries_view_len(entries@);
        lemma_entries_view_len(orig);
        lemma_prune_entries_model_index(entries_view(orig), depth_limit);
        assert forall|j: int|
            0 <= j < n implies entries_view(entries@)[j] == prune_entries_model(
            entries_view(orig),
            depth_limit,
        )[j] by {
            lemma_entries_view_index(entries@, j);
            lemma_entries_view_index(orig, j);
        }
        assert(entries_view(entries@) =~= prune_entries_model(entries_view(orig), depth_limit));
    }
    entries
}

/// Pruning an already-pruned tree to the same or a larger depth is a no-op.
pub proof fn lemma_prune_monotone(m: DirectoryModel, k: u32, k2: u32)
    requires
        k <= k2,
    ensures
        prune_model(prune_model(m, k), k2) == prune_model(m, k),
    decreases m,
{
    lemma_prune_entries_monotone(m.entries, k, k2);
    assert(prune_model(prune_model(m, k), k2) =~= prune_model(m, k));
}

pub proof fn lemma_prune_entries_monotone(s: Seq<DirectoryEntryModel>, k: u32, k2: u32)
    requires
        k <= k2,
    ensures
        prune_entries_model(prune_entries_model(s, k), k2) == prune_entries_model(s, k),
    decreases s,
{
    if s.len() > 0 {
        lemma_prune_entries_monotone(s.drop_last(), k, k2);
        let p = prune_entries_model(s, k);
        assert(p.drop_last() =~= prune_entries_model(s.drop_last(), k));
        assert(p.last() == prune_entry_model(s.last(), k));
        assert(prune_entry_model(p.last(), k2) == p.last()) by {
            match s.last().info {
                EntryInfoModel::Directory(Some(m)) => {
                    if k > 0 {
                        lemma_prune_monotone(m, (k - 1) as u32, (k2 - 1) as u32);
                        assert(prune_info_model(p.last().info, k2) == p.last().info);
                    } else {
                        assert(p.last().info == EntryInfoModel::Directory(None));
                        assert(prune_info_model(p.last().info, k2) == p.last().info);
                    }
                },
                _ => {
                    assert(prune_info_model(p.last().info, k2) == p.last().info);
                },
            }
            assert(prune_entry_model(p.last(), k2) =~= p.last());
        }
        assert(prune_entries_model(p, k2) == prune_entries_model(p.drop_last(), k2).push(
            prune_entry_model(p.last(), k2),
        ));
        assert(prune_entries_model(p, k2) =~= prune_entries_model(s, k));
    }
}

/// Pruning to depth zero keeps every immediate entry's name, keeps files,
/// and collapses every nested directory to the unloaded placeholder.
pub proof fn lemma_prune_depth_zero(m: DirectoryModel)
    ensures
        prune_model(m, 0).relative_path == m.relative_path,
        prune_model(m, 0).change_states == m.change_states,
        prune_model(m, 0).conflict_states == m.conflict_states,
        prune_model(m, 0).entries.len() == m.entries.len(),
        forall|i: int|
            0 <= i < m.entries.len() ==> (#[trigger] prune_model(m, 0).entries[i]).name
                == m.entries[i].name,
        forall|i: int|
            0 <= i < m.entries.len() ==> ((#[trigger] m.entries[i].info) matches
                EntryInfoModel::Directory(_) ==> prune_model(m, 0).entries[i].info
                == EntryInfoModel::Directory(None)),
        forall|i: int|
            0 <= i < m.entries.len() ==> ((#[trigger] m.entries[i].info) matches
                EntryInfoModel::File { .. } ==> prune_model(m, 0).entries[i] == m.entries[i]),
{
    lemma_prune_entries_model_index(m.entries, 0);
}

/// The change states of all loaded leaves reachable from a directory.
pub open spec fn dir_change_leaves(m: DirectoryModel) -> Set<ChangeState>
    decreases m,
{
    entries_change_leaves(m.entries)
}

pub open spec fn entries_change_leaves(s: Seq<DirectoryEntryModel>) -> Set<ChangeState>
    decreases s,
{
    if s.len() == 0 {
        Set::empty()
    } else {
        entries_change_leaves(s.drop_last()).union(entry_change_leaves(s.last()))
    }
}

pub open spec fn entry_change_leaves(e: DirectoryEntryModel) -> Set<ChangeState>
    decreases e,
{
    match e.info {
        EntryInfoModel::File { change_state, .. } => Set::empty().insert(change_state),
        EntryInfoModel::Directory(Some(m)) => dir_change_leaves(m),
        EntryInfoModel::Directory(None) => Set::empty(),
    }
}

/// The conflict states of all loaded leaves reachable from a directory.
pub open spec fn dir_conflict_leaves(m: DirectoryModel) -> Set<ConflictState>
    decreases m,
{
    entries_conflict_leaves(m.entries)
}

pub open spec fn entries_conflict_leaves(s: Seq<DirectoryEntryModel>) -> Set<ConflictState>
    decreases s,
{
    if s.len() == 0 {
        Set::empty()
    } else {
        entries_conflict_leaves(s.drop_last()).union(entry_conflict_leaves(s.last()))
    }
}

pub open spec fn entry_conflict_leaves(e: DirectoryEntryModel) -> Set<ConflictState>
    decreases e,
{
    match e.info {
        EntryInfoModel::File { conflict_state, .. } => Set::empty().insert(conflict_state),
        EntryInfoModel::Directory(Some(m)) => dir_conflict_leaves(m),
        EntryInfoModel::Directory(None) => Set::empty(),
    }
}

/// A directory whose cached aggregate sets, and those of every loaded
/// descendant, are exactly the union of its entries' contributions: what
/// `Directory::new` and `push_entry` establish.
pub open spec fn aggregates_consistent(m: DirectoryModel) -> bool
    decreases m,
{
    &&& m.change_states == entries_change_agg(m.entries)
    &&& m.conflict_states == entries_conflict_agg(m.entries)
    &&& entries_consistent(m.entries)
}

pub open spec fn entries_consistent(s: Seq<DirectoryEntryModel>) -> bool
    decreases s,
{
    if s.len() == 0 {
        true
    } else {
        entries_consistent(s.drop_last()) && entry_consistent(s.last())
    }
}

pub open spec fn entry_consistent(e: DirectoryEntryModel) -> bool
    decreases e,
{
    match e.info {
        EntryInfoModel::Directory(Some(m)) => aggregates_consistent(m),
        _ => true,
    }
}

/// Consistency of a sequence of entries splits over a push.
pub proof fn lemma_entries_consistent_push(s: Seq<DirectoryEntryModel>, e: DirectoryEntryModel)
    ensures
        entries_consistent(s.push(e)) == (entries_consistent(s) && entry_consistent(e)),
{
    assert(s.push(e).drop_last() =~= s);
    assert(s.push(e).last() == e);
}

/// A fresh empty directory is consistent.
pub proof fn lemma_new_dir_consistent(path: Seq<char>)
    ensures
        aggregates_consistent(model_new_dir(path)),
{
    assert(entries_change_agg(Seq::<DirectoryEntryModel>::empty()) == Set::<ChangeState>::empty());
    assert(entries_conflict_agg(Seq::<DirectoryEntryModel>::empty()) == Set::<
        ConflictState,
    >::empty());
}

/// Pushing a consistent entry onto a consistent directory keeps it
/// consistent: so a directory reached by any sequence of `push_entry` calls
/// from `Directory::new` satisfies the aggregation invariant.
pub proof fn lemma_push_entry_keeps_consistency(m: DirectoryModel, e: DirectoryEntryModel)
    requires
        aggregates_consistent(m),
        entry_consistent(e),
    ensures
        aggregates_consistent(model_push_entry(m, e)),
{
    lemma_entries_consistent_push(m.entries, e);
    assert(m.entries.push(e).drop_last() =~= m.entries);
    assert(m.entries.push(e).last() == e);
}

/// State aggregation invariant: in a consistent directory the cached
/// aggregated change and conflict sets equal the union of the states of all
/// currently-loaded leaves reachable from it; unloaded placeholders never
/// contribute.
pub proof fn lemma_aggregates_are_leaf_states(m: DirectoryModel)
    requires
        aggregates_consistent(m),
    ensures
        m.change_states == dir_change_leaves(m),
        m.conflict_states == dir_conflict_leaves(m),
    decreases m,
{
    lemma_entries_agg_is_leaves(m.entries);
}

pub proof fn lemma_entries_agg_is_leaves(s: Seq<DirectoryEntryModel>)
    requires
        entries_consistent(s),
    ensures
        entries_change_agg(s) == entries_change_leaves(s),
        entries_conflict_agg(s) == entries_conflict_leaves(s),
    decreases s,
{
    if s.len() > 0 {
        assert(entries_consistent(s.drop_last()));
        assert(entry_consistent(s.last()));
        lemma_entries_agg_is_leaves(s.drop_last());
        match s.last().info {
            EntryInfoModel::Directory(Some(m)) => {
                assert(aggregates_consistent(m));
                lemma_entries_agg_is_leaves(m.entries);
                assert(entry_change_leaves(s.last()) == m.change_states);
                assert(entry_conflict_leaves(s.last()) == m.conflict_states);
            },
            _ => {},
        }
        assert(entry_change_leaves(s.last()) == entry_change_contrib(s.last()));
        assert(entry_conflict_leaves(s.last()) == entry_conflict_contrib(s.last()));
        assert(entries_change_agg(s) == entries_change_agg(s.drop_last()).union(
            entry_change_contrib(s.last()),
        ));
        assert(entries_conflict_agg(s) == entries_conflict_agg(s.drop_last()).union(
            entry_conflict_contrib(s.last()),
        ));
        assert(entries_change_leaves(s) == entries_change_leaves(s.drop_last()).union(
            entry_change_leaves(s.last()),
        ));
        assert(entries_conflict_leaves(s) == entries_conflict_leaves(s.drop_last()).union(
            entry_conflict_leaves(s.last()),
        ));
    }
}

fn clone_info(info: &DirectoryEntryType) -> (r: DirectoryEntryType)
    ensures
        info_view(r) == info_view(*info),
    decreases info,
{
    match info {
        DirectoryEntryType::File { metadata, change_state, conflict_state } => {
            DirectoryEntryType::File {
                metadata: FileMetadata {
                    size_bytes: metadata.size_bytes,
                    modified_time_unix_ms_utc: metadata.modified_time_unix_ms_utc,
                },
                change_state: *change_state,
                conflict_state: *conflict_state,
            }
        },
        DirectoryEntryType::Directory(None) => DirectoryEntryType::Directory(None),
        DirectoryEntryType::Directory(Some(d)) => {
            DirectoryEntryType::Directory(Some(clone_dir(d)))
        },
    }
}

fn clone_entry(e: &DirectoryEntry) -> (r: DirectoryEntry)
    ensures
        entry_view(r) == entry_view(*e),
    decreases e,
{
    DirectoryEntry { name: e.name.clone(), info: clone_info(&e.info) }
}

fn clone_dir(d: &Directory) -> (r: Directory)
    ensures
        dir_view(r) == dir_view(*d),
    decreases d,
{
    let mut entries: Vec<DirectoryEntry> = Vec::new();
    let n = d.entries.len();
    let mut i: usize = 0;
    while i < n
        invariant
            n == d.entries@.len(),
            i <= n,
            entries@.len() == i,
            forall|j: int|
                0 <= j < i ==> entry_view(#[trigger] entries@[j]) == entry_view(d.entries@[j]),
        decreases n - i,
    {
        proof {
            assert(decreases_to!(d.entries@ => d.entries@[i as int]));
        }
        let e = clone_entry(&d.entries[i]);
        entries.push(e);
        i = i + 1;
    }
    proof {
        lemma_entries_view_len(entries@);
        lemma_entries_view_len(d.entries@);
        assert forall|j: int|
            0 <= j < n implies entries_view(entries@)[j] == entries_view(d.entries@)[j] by {
            lemma_entries_view_index(entries@, j);
            lemma_entries_view_index(d.entries@, j);
        }
        assert(entries_view(entries@) =~= entries_view(d.entries@));
    }
    Directory {
        relative_path: d.relative_path.clone(),
        entries,
        conflict_states: d.conflict_states,
        change_states: d.change_states,
    }
}

impl Clone for Directory {
    /// An independent deep copy with the same view.
    fn clone(&self) -> (r: Self)
        ensures
            dir_view(r) == dir_view(*self),
    {
        clone_dir(self)
    }
}

impl Clone for DirectoryEntry {
    /// An independent deep copy with the same view.
    fn clone(&self) -> (r: Self)
        ensures
            entry_view(r) == entry_view(*self),
    {
        clone_entry(self)
    }
}

impl Clone for DirectoryEntryType {
    /// An independent deep copy with the same view.
    fn clone(&self) -> (r: Self)
        ensures
            info_view(r) == info_view(*self),
    {
        clone_info(self)
    }
}

} // verus!
