//! Resolving a subtree of an in-memory directory tree: walk a relative path
//! component by component, then return an independent, optionally
//! depth-limited copy of the directory it names.

use crate::common::path_components;
use crate::common::str_eq;
use crate::common::RelativePath;
use crate::model::dir_view;
use crate::model::entry_view;
use crate::model::info_view;
use crate::model::lemma_entries_view_index;
use crate::model::prune_model;
use crate::model::Directory;
use crate::model::DirectoryEntryModel;
use crate::model::DirectoryEntryType;
use crate::model::DirectoryModel;
use crate::model::EntryInfoModel;
use vstd::prelude::*;

verus! {

/// Options for a directory fetch.
#[derive(Debug, Clone)]
pub struct DirectoryFetchOptions {
    /// Specifies depth to fetch from the current directory, `None` means
    /// unlimited depth. For example, a depth limit of 0 will only load the
    /// specified directory with no sub-directories.
    pub depth_limit: Option<u32>,
    /// Optional filter string to filter directory entries by name
    /// (case-insensitive substring match). Not interpreted by the resolver:
    /// no filtering guarantee is part of its contract.
    pub filter_string: Option<String>,
}

impl Default for DirectoryFetchOptions {
    /// No depth limit and no filter.
    fn default() -> (r: Self)
        ensures
            r.depth_limit is None,
            r.filter_string is None,
    {
        DirectoryFetchOptions { depth_limit: None, filter_string: None }
    }
}

/// An internal invariant violation, distinct from the ordinary not-found
/// outcome: it indicates a broken source tree, not bad user input.
#[derive(Debug, Clone, Copy, PartialEq, Eq, Structural)]
pub enum FetchDirectoryError {
    /// The walk met an unloaded directory placeholder although the source
    /// tree was expected to be fully loaded.
    UnloadedDirectory,
}

/// The outcome of walking a component sequence down a directory tree.
pub enum Resolution {
    Found(DirectoryModel),
    NotFound,
    Unloaded,
}

/// Index of the first entry with the given name, or `s.len()` if none.
pub open spec fn find_entry(s: Seq<DirectoryEntryModel>, name: Seq<char>) -> int
    decreases s.len(),
{
    if s.len() == 0 {
        0
    } else if s[0].name == name {
        0
    } else {
        1 + find_entry(s.drop_first(), name)
    }
}

/// `find_entry` is pinned by its characteristic properties.
pub proof fn lemma_find_entry_is(s: Seq<DirectoryEntryModel>, name: Seq<char>, k: int)
    requires
        0 <= k <= s.len(),
        forall|j: int| 0 <= j < k ==> s[j].name != name,
        k < s.len() ==> s[k].name == name,
    ensures
        find_entry(s, name) == k,
    decreases s.len(),
{
    if s.len() == 0 {
    } else if s[0].name == name {
        assert(k == 0);
    } else {
        assert(k >= 1);
        lemma_find_entry_is(s.drop_first(), name, k - 1);
    }
}

/// Walking an empty component sequence finds the directory itself. At each
/// step the walk looks the first component up among the entries by exact
/// name: a missing name or a file is not-found, an unloaded placeholder is
/// the integrity failure, and a loaded directory is descended into.
pub open spec fn resolve_model(m: DirectoryModel, comps: Seq<Seq<char>>) -> Resolution
    decreases comps.len(),
{
    if comps.len() == 0 {
        Resolution::Found(m)
    } else {
        let i = find_entry(m.entries, comps[0]);
        if i >= m.entries.len() {
            Resolution::NotFound
        } else {
            match m.entries[i].info {
                EntryInfoModel::File { .. } => Resolution::NotFound,
                EntryInfoModel::Directory(None) => Resolution::Unloaded,
                EntryInfoModel::Directory(Some(sub)) => resolve_model(sub, comps.drop_first()),
            }
        }
    }
}

/// The requested pruning: `None` means unlimited depth, so no pruning.
pub open spec fn prune_opt(m: DirectoryModel, depth_limit: Option<u32>) -> DirectoryModel {
    match depth_limit {
        Some(limit) => prune_model(m, limit),
        None => m,
    }
}

/// Fetches the directory named by `path` from the tree rooted at `root`:
/// the whole tree for the empty path. The result is an independent copy,
/// pruned to `options.depth_limit` if one was supplied. A path through a
/// missing name or through a file is an absent result, never an error; an
/// unloaded placeholder on the walk is the distinct integrity error.
pub fn fetch_directory(
    root: &Directory,
    path: &RelativePath,
    options: &DirectoryFetchOptions,
) -> (r: Result<Option<Directory>, FetchDirectoryError>)
    requires
        path.wf(),
    ensures
        resolve_model(dir_view(*root), path_components(path@)) matches Resolution::Found(m)
            ==> (r matches Ok(Some(d)) && dir_view(d) == prune_opt(m, options.depth_limit)),
        resolve_model(dir_view(*root), path_components(path@)) is NotFound ==> r matches Ok(
            None,
        ),
        resolve_model(dir_view(*root), path_components(path@)) is Unloaded ==> (r matches Err(
            e,
        ) && e == FetchDirectoryError::UnloadedDirectory),
{
    let ghost root_m = dir_view(*root);
    let ghost comps = path_components(path@);
    let mut it = path.components();
    let mut current: &Directory = root;
    loop
        invariant
            it.wf(),
            it.inner@ == path@,
            root_m == dir_view(*root),
            comps == path_components(path@),
            resolve_model(root_m, comps) == resolve_model(dir_view(*current), it.remaining()),
        ensures
            resolve_model(root_m, comps) == Resolution::Found(dir_view(*current)),
        decreases it.inner@.len() + 1 - it.index,
    {
        let ghost old_rem = it.remaining();
        let ghost i0 = it.index;
        let next = it.next();
        proof {
            if i0 < path@.len() {
                crate::common::lemma_first_sep(path@.subrange(i0 as int, path@.len() as int));
                assert(it.index > i0);
            }
        }
        match next {
            None => {
                proof {
                    assert(it.remaining().len() == 0) by {
                        crate::common::lemma_components_from_props(path@, it.index as int);
                    }
                }
                break ;
            },
            Some(component) => {
                let ghost cur_m = dir_view(*current);
                let entries = current.entries();
                let n = entries.len();
                let mut j: usize = 0;
                proof {
                    crate::model::lemma_entries_view_len(current.entries@);
                }
                loop
                    invariant_except_break
                        j <= n,
                    invariant
                        n == entries@.len(),
                        entries@ == current.entries@,
                        cur_m == dir_view(*current),
                        cur_m.entries.len() == n,
                        forall|k: int|
                            0 <= k < j ==> (#[trigger] cur_m.entries[k]).name != component@,
                    ensures
                        j <= n,
                        j < n ==> cur_m.entries[j as int].name == component@,
                    decreases n - j,
                {
                    if j >= n {
                        break ;
                    }
                    proof {
                        lemma_entries_view_index(current.entries@, j as int);
                    }
                    if str_eq(entries[j].name(), component) {
                        break ;
                    }
                    j = j + 1;
                }
                proof {
                    lemma_find_entry_is(cur_m.entries, component@, j as int);
                    assert(component@ == old_rem[0]);
                    assert(old_rem.len() > 0);
                }
                if j >= n {
                    proof {
                        assert(resolve_model(cur_m, old_rem) is NotFound);
                    }
                    return Ok(None);
                }
                proof {
                    lemma_entries_view_index(current.entries@, j as int);
                }
                match entries[j].info() {
                    DirectoryEntryType::Directory(Some(dir)) => {
                        proof {
                            assert(entry_view(entries@[j as int]).info
                                == EntryInfoModel::Directory(Some(dir_view(*dir))));
                            assert(resolve_model(cur_m, old_rem) == resolve_model(
                                dir_view(*dir),
                                old_rem.drop_first(),
                            ));
                        }
                        current = dir;
                    },
                    DirectoryEntryType::Directory(None) => {
                        proof {
                            assert(entry_view(entries@[j as int]).info
                                == EntryInfoModel::Directory(None));
                            assert(resolve_model(cur_m, old_rem) is Unloaded);
                        }
                        return Err(FetchDirectoryError::UnloadedDirectory);
                    },
                    DirectoryEntryType::File { .. } => {
                        proof {
                            assert(resolve_model(cur_m, old_rem) is NotFound);
                        }
                        return Ok(None);
                    },
                }
            },
        }
    }
    let mut directory = current.clone();
    if let Some(depth_limit) = options.depth_limit {
        directory.prune_to_depth(depth_limit);
    }
    Ok(Some(directory))
}

} // verus!
