//! Building a directory tree from a flat, sorted walk: a stack of
//! in-progress directory frames is adjusted per entry by closing finished
//! frames up to the common ancestor, opening a frame for every intermediate
//! directory level, and appending files to the innermost open frame.

use core::cmp::Ordering;
use crate::common::RelativePath;
use crate::common::cmp_components;
use crate::common::path_cmp;
use crate::common::common_count;
use crate::common::components_from;
use crate::common::lemma_first_sep;
use crate::common::components_nonempty;
use crate::common::is_valid_path_str;
use crate::common::join_components;
use crate::common::lemma_cmp_components_prefix;
use crate::common::lemma_common_count;
use crate::common::lemma_common_count_sym;
use crate::common::lemma_component_span;
use crate::common::lemma_components_from_props;
use crate::common::lemma_components_of_join;
use crate::common::lemma_join_components_round_trip;
use crate::common::lemma_join_push;
use crate::common::lemma_join_take_skip;
use crate::common::lemma_join_valid;
use crate::common::lemma_normalize_id;
use crate::common::lemma_take_props;
use crate::common::path_components;
use crate::common::sep;
use crate::common::str_eq;
use crate::model::ChangeState;
use crate::model::ConflictState;
use crate::model::Directory;
use crate::model::DirectoryEntry;
use crate::model::DirectoryEntryModel;
use crate::model::DirectoryEntryType;
use crate::model::DirectoryModel;
use crate::model::EntryInfoModel;
use crate::model::FileMetadata;
use crate::model::dir_view;
use crate::model::entries_view;
use crate::model::entry_change_contrib;
use crate::model::entry_conflict_contrib;
use crate::model::entry_view;
use crate::model::lemma_entries_view_len;
use crate::model::model_new_dir;
use crate::model::model_push_entry;
use vstd::pervasive::unreached;
use vstd::prelude::*;

verus! {

/// One record of a filesystem walk: a path relative to the walk root, in
/// full ascending path order, the root itself excluded.
#[derive(Debug, Clone)]
pub struct WalkEntry {
    pub relative_path: RelativePath,
    pub is_directory: bool,
    pub metadata: FileMetadata,
}

/// What the builder needs of one record: a valid, nonempty, normalized path
/// with no empty components.
pub open spec fn walk_entry_ok(e: WalkEntry) -> bool {
    let s = e.relative_path@;
    &&& is_valid_path_str(s)
    &&& s.len() > 0
    &&& s.len() < usize::MAX
    &&& forall|j: int| 0 <= j < s.len() ==> s[j] != '\\'
    &&& components_nonempty(path_components(s))
}

/// Closing the top frame: it becomes a directory entry of the frame below,
/// named by its last path component.
pub open spec fn stack_pop_model(st: Seq<DirectoryModel>) -> Seq<DirectoryModel> {
    let top = st[st.len() - 1];
    let parent = st[st.len() - 2];
    let entry = DirectoryEntryModel {
        name: path_components(top.relative_path).last(),
        info: EntryInfoModel::Directory(Some(top)),
    };
    st.take(st.len() - 2).push(model_push_entry(parent, entry))
}

/// Closing `k` frames in turn (never the permanent root frame).
pub open spec fn pop_n_model(st: Seq<DirectoryModel>, k: int) -> Seq<DirectoryModel>
    decreases k,
{
    if k <= 0 || st.len() < 2 {
        st
    } else {
        pop_n_model(stack_pop_model(st), k - 1)
    }
}

/// Popping once more after `k` pops is the same as popping `k + 1` times.
pub proof fn lemma_pop_n_step(st: Seq<DirectoryModel>, k: int)
    requires
        0 <= k <= st.len() - 2,
    ensures
        pop_n_model(st, k + 1) == stack_pop_model(pop_n_model(st, k)),
    decreases k,
{
    if k == 0 {
        assert(pop_n_model(stack_pop_model(st), 0) == stack_pop_model(st));
        assert(pop_n_model(st, 1) == pop_n_model(stack_pop_model(st), 0));
    } else {
        assert(stack_pop_model(st).len() == st.len() - 1);
        lemma_pop_n_step(stack_pop_model(st), k - 1);
        assert(pop_n_model(st, k + 1) == pop_n_model(stack_pop_model(st), k));
        assert(pop_n_model(st, k) == pop_n_model(stack_pop_model(st), k - 1));
    }
}

/// The frames opened for the intermediate directory levels of a path whose
/// first `m` components are already open: one frame per prefix between the
/// ancestor and the path's parent directory, the leaf itself excluded.
pub open spec fn missing_frames(pc: Seq<Seq<char>>, m: int) -> Seq<DirectoryModel> {
    Seq::new(
        if m <= pc.len() - 1 {
            (pc.len() - 1 - m) as nat
        } else {
            0
        },
        |t: int| model_new_dir(join_components(pc.take(m + 1 + t))),
    )
}

/// The file entry appended for a non-directory record: default states.
pub open spec fn file_entry_model(e: WalkEntry) -> DirectoryEntryModel {
    DirectoryEntryModel {
        name: path_components(e.relative_path@).last(),
        info: EntryInfoModel::File {
            metadata: e.metadata,
            change_state: ChangeState::Unchanged,
            conflict_state: ConflictState::NoConflict,
        },
    }
}

/// One step of the builder: close frames down to the common ancestor of the
/// top frame's path and the record's path, open the missing intermediate
/// frames, and, for a file record, append the file to the innermost frame.
/// A directory record only affects frame creation.
pub open spec fn spec_step(st: Seq<DirectoryModel>, e: WalkEntry) -> Seq<DirectoryModel> {
    let pc = path_components(e.relative_path@);
    let m = common_count(path_components(st[st.len() - 1].relative_path), pc);
    let popped = pop_n_model(st, st.len() - 1 - m);
    let filled = popped + missing_frames(pc, m);
    if e.is_directory {
        filled
    } else {
        filled.update(
            filled.len() - 1,
            model_push_entry(filled[filled.len() - 1], file_entry_model(e)),
        )
    }
}

/// The stack after consuming a record sequence, starting from the permanent
/// root frame.
pub open spec fn spec_build_stack(es: Seq<WalkEntry>) -> Seq<DirectoryModel>
    decreases es.len(),
{
    if es.len() == 0 {
        seq![model_new_dir(Seq::empty())]
    } else {
        spec_step(spec_build_stack(es.drop_last()), es.last())
    }
}

/// Closing every remaining frame down to the root.
pub open spec fn finalize_model(st: Seq<DirectoryModel>) -> DirectoryModel
    decreases st.len(),
{
    if st.len() <= 1 {
        st[0]
    } else {
        finalize_model(stack_pop_model(st))
    }
}

/// The tree that the builder produces from a record sequence.
pub open spec fn spec_build_tree(es: Seq<WalkEntry>) -> DirectoryModel {
    finalize_model(spec_build_stack(es))
}

/// A frame path as the chain invariant needs it.
pub open spec fn frame_path_ok(s: Seq<char>) -> bool {
    &&& is_valid_path_str(s)
    &&& s.len() < usize::MAX
    &&& components_nonempty(path_components(s))
}

/// The builder's stack invariant: frame `i` has exactly `i` components, and
/// each frame's path extends the one below by a single component; frame 0 is
/// the permanent root.
pub open spec fn stack_chain_ok(st: Seq<DirectoryModel>) -> bool {
    &&& st.len() >= 1
    &&& forall|i: int| 0 <= i < st.len() ==> frame_path_ok((#[trigger] st[i]).relative_path)
    &&& forall|i: int|
        0 <= i < st.len() ==> path_components((#[trigger] st[i]).relative_path).len() == i
    &&& forall|i: int|
        1 <= i < st.len() ==> path_components((#[trigger] st[i]).relative_path).take(i - 1)
            == path_components(st[i - 1].relative_path)
}

/// In a chain, every frame's components are a prefix of every higher frame's.
pub proof fn lemma_chain_prefix(st: Seq<DirectoryModel>, i: int, j: int)
    requires
        stack_chain_ok(st),
        0 <= i <= j < st.len(),
    ensures
        path_components(st[i].relative_path) == path_components(st[j].relative_path).take(i),
    decreases j - i,
{
    if i == j {
        assert(path_components(st[j].relative_path).take(i) =~= path_components(
            st[i].relative_path,
        ));
    } else {
        lemma_chain_prefix(st, i, j - 1);
        assert(path_components(st[j].relative_path).take(j - 1).take(i) =~= path_components(
            st[j].relative_path,
        ).take(i));
    }
}

/// A stack of in-progress directory frames. The bottom frame is the
/// permanent root; it is only removed by `finalize`.
#[derive(Debug)]
pub struct DirStack {
    pub stack: Vec<Directory>,
}

/// The frames as their models, bottom first.
pub open spec fn stack_view(v: Seq<Directory>) -> Seq<DirectoryModel> {
    Seq::new(v.len(), |i: int| dir_view(v[i]))
}

impl DirStack {
    /// The frames as their models, bottom first.
    pub open spec fn models(&self) -> Seq<DirectoryModel> {
        stack_view(self.stack@)
    }

    pub open spec fn wf(&self) -> bool {
        stack_chain_ok(self.models())
    }

    /// A stack holding only the root frame.
    pub fn new() -> (r: DirStack)
        ensures
            r.models() == seq![model_new_dir(Seq::<char>::empty())],
            r.wf(),
    {
        let root = Directory::new(RelativePath::default(), Vec::new());
        let mut stack: Vec<Directory> = Vec::new();
        stack.push(root);
        let r = DirStack { stack };
        proof {
            assert(entries_view(Seq::<DirectoryEntry>::empty()) == Seq::<
                DirectoryEntryModel,
            >::empty());
            assert(dir_view(r.stack@[0]) =~= model_new_dir(Seq::<char>::empty()));
            assert(r.models() =~= seq![model_new_dir(Seq::<char>::empty())]);
            lemma_components_from_props(Seq::<char>::empty(), 0);
            assert(stack_chain_ok(r.models()));
        }
        r
    }

    /// The innermost open frame.
    pub fn last(&self) -> (r: &Directory)
        requires
            self.stack@.len() >= 1,
        ensures
            dir_view(*r) == self.models()[self.models().len() - 1],
    {
        let i = self.stack.len() - 1;
        &self.stack[i]
    }

    /// Closes the top frame, attaching it as an entry of the frame below.
    pub fn pop_tail(&mut self)
        requires
            old(self).wf(),
            old(self).stack@.len() >= 2,
        ensures
            final(self).models() == stack_pop_model(old(self).models()),
            final(self).wf(),
    {
        let ghost st0 = self.models();
        let n0 = self.stack.len();
        let tail = self.stack.pop().unwrap();
        proof {
            assert(dir_view(tail) == st0[st0.len() - 1]);
            assert(frame_path_ok(tail.relative_path@));
            assert(path_components(tail.relative_path@).len() == st0.len() - 1 >= 1);
            lemma_components_from_props(tail.relative_path@, 0);
        }
        let name_str = tail.relative_path().file_name().unwrap();
        let name = name_str.to_owned();
        let ghost entry_m = DirectoryEntryModel {
            name: path_components(dir_view(tail).relative_path).last(),
            info: EntryInfoModel::Directory(Some(dir_view(tail))),
        };
        let entry = DirectoryEntry::new(name, DirectoryEntryType::Directory(Some(tail)));
        proof {
            assert(entry_view(entry) == entry_m);
        }
        let i = self.stack.len() - 1;
        let parent = &mut self.stack[i];
        parent.push_entry(entry);
        proof {
            let stf = self.models();
            let target = stack_pop_model(st0);
            assert(stf.len() == n0 - 1);
            assert(target.len() == n0 - 1);
            assert(dir_view(self.stack@[i as int]) == model_push_entry(
                st0[i as int],
                entry_m,
            ));
            assert forall|q: int| 0 <= q < stf.len() implies stf[q] == target[q] by {
                if q < i {
                    assert(self.stack@[q] == old(self).stack@[q]);
                    assert(target[q] == st0.take(st0.len() - 2)[q]);
                }
            }
            assert(stf =~= target);
            // The chain shortens by one; paths below are unchanged.
            assert forall|q: int| 0 <= q < stf.len() implies frame_path_ok(
                (#[trigger] stf[q]).relative_path,
            ) && path_components(stf[q].relative_path).len() == q && (q >= 1
                ==> path_components(stf[q].relative_path).take(q - 1) == path_components(
                stf[q - 1].relative_path,
            )) by {
                assert(stf[q].relative_path == st0[q].relative_path);
                if q >= 1 {
                    assert(stf[q - 1].relative_path == st0[q - 1].relative_path);
                }
            }
        }
    }

    /// Opens a new empty frame for a path that extends the top frame's path
    /// by exactly one component.
    pub fn push_directory(&mut self, directory_path: RelativePath)
        requires
            old(self).wf(),
            frame_path_ok(directory_path@),
            path_components(directory_path@).len() == old(self).stack@.len(),
            path_components(directory_path@).take(old(self).stack@.len() - 1)
                == path_components(
                old(self).models()[old(self).models().len() - 1].relative_path,
            ),
        ensures
            final(self).models() == old(self).models().push(model_new_dir(directory_path@)),
            final(self).wf(),
    {
        let ghost st0 = self.models();
        let ghost p = directory_path@;
        self.stack.push(Directory::new(directory_path, Vec::new()));
        proof {
            let stf = self.models();
            assert(entries_view(Seq::<DirectoryEntry>::empty()) == Seq::<
                DirectoryEntryModel,
            >::empty());
            assert(dir_view(self.stack@[st0.len() as int]) =~= model_new_dir(p));
            assert forall|q: int| 0 <= q < st0.len() implies stf[q] == st0[q] by {
                assert(self.stack@[q] == old(self).stack@[q]);
            }
            assert(stf =~= st0.push(model_new_dir(p)));
            assert forall|q: int| 0 <= q < stf.len() implies frame_path_ok(
                (#[trigger] stf[q]).relative_path,
            ) && path_components(stf[q].relative_path).len() == q && (q >= 1
                ==> path_components(stf[q].relative_path).take(q - 1) == path_components(
                stf[q - 1].relative_path,
            )) by {}
        }
    }

    /// Appends a file entry, with default states, to the innermost frame.
    pub fn push_file(&mut self, file_name: &str, metadata: FileMetadata)
        requires
            old(self).wf(),
        ensures
            final(self).models() == old(self).models().update(
                old(self).models().len() - 1,
                model_push_entry(
                    old(self).models()[old(self).models().len() - 1],
                    DirectoryEntryModel {
                        name: file_name@,
                        info: EntryInfoModel::File {
                            metadata,
                            change_state: ChangeState::Unchanged,
                            conflict_state: ConflictState::NoConflict,
                        },
                    },
                ),
            ),
            final(self).wf(),
    {
        let ghost st0 = self.models();
        let ghost meta = metadata;
        let name = file_name.to_owned();
        let entry = DirectoryEntry::new(
            name,
            DirectoryEntryType::File {
                metadata,
                change_state: ChangeState::Unchanged,
                conflict_state: ConflictState::NoConflict,
            },
        );
        let i = self.stack.len() - 1;
        let top = &mut self.stack[i];
        top.push_entry(entry);
        proof {
            let stf = self.models();
            let target = st0.update(
                st0.len() - 1,
                model_push_entry(
                    st0[st0.len() - 1],
                    DirectoryEntryModel {
                        name: file_name@,
                        info: EntryInfoModel::File {
                            metadata: meta,
                            change_state: ChangeState::Unchanged,
                            conflict_state: ConflictState::NoConflict,
                        },
                    },
                ),
            );
            assert forall|q: int| 0 <= q < stf.len() implies stf[q] == target[q] by {
                if q < i {
                    assert(self.stack@[q] == old(self).stack@[q]);
                }
            }
            assert(stf =~= target);
            assert forall|q: int| 0 <= q < stf.len() implies frame_path_ok(
                (#[trigger] stf[q]).relative_path,
            ) && path_components(stf[q].relative_path).len() == q && (q >= 1
                ==> path_components(stf[q].relative_path).take(q - 1) == path_components(
                stf[q - 1].relative_path,
            )) by {
                assert(stf[q].relative_path == st0[q].relative_path);
                if q >= 1 {
                    assert(stf[q - 1].relative_path == st0[q - 1].relative_path);
                }
            }
        }
    }

    /// Closes every remaining frame and returns the root.
    pub fn finalize(self) -> (r: Directory)
        requires
            self.wf(),
        ensures
            dir_view(r) == finalize_model(self.models()),
    {
        let ghost orig = self.models();
        let mut s = self;
        while s.stack.len() > 1
            invariant
                s.wf(),
                finalize_model(s.models()) == finalize_model(orig),
            decreases s.stack@.len(),
        {
            s.pop_tail();
        }
        let ghost last_models = s.models();
        let r = s.stack.pop().unwrap();
        proof {
            assert(dir_view(r) == last_models[0]);
            assert(finalize_model(last_models) == last_models[0]);
        }
        r
    }
}

/// Folds a flat entry sequence, in full ascending path order, into a
/// directory tree in one pass.
#[verifier::rlimit(60)]
pub fn build_directory_tree(entries: &Vec<WalkEntry>) -> (r: Directory)
    requires
        forall|i: int| 0 <= i < entries@.len() ==> walk_entry_ok(#[trigger] entries@[i]),
    ensures
        dir_view(r) == spec_build_tree(entries@),
{
    let mut dir_stack = DirStack::new();
    let n = entries.len();
    let mut idx: usize = 0;
    proof {
        assert(entries@.take(0) =~= Seq::<WalkEntry>::empty());
    }
    while idx < n
        invariant
            n == entries@.len(),
            forall|i: int| 0 <= i < entries@.len() ==> walk_entry_ok(#[trigger] entries@[i]),
            idx <= n,
            dir_stack.wf(),
            dir_stack.models() == spec_build_stack(entries@.take(idx as int)),
        decreases n - idx,
    {
        let entry = &entries[idx];
        let rel = &entry.relative_path;
        let ghost st0 = dir_stack.models();
        let ghost pc = path_components(rel@);
        let ghost nn = pc.len() as int;
        proof {
            assert(walk_entry_ok(entries@[idx as int]));
            lemma_components_from_props(rel@, 0);
            assert(nn >= 1);
        }
        // Adjust the stack to the correct directory level.
        let stack_path = dir_stack.last().relative_path().clone();
        let ghost tc = path_components(stack_path@);
        proof {
            assert(stack_path@ == st0[st0.len() - 1].relative_path);
            assert(frame_path_ok(stack_path@));
            assert(stack_path.wf());
            assert(rel.wf());
            assert(tc.len() == st0.len() - 1);
            lemma_components_from_props(stack_path@, 0);
        }
        let ghost m = common_count(tc, pc);
        let common_ancestor = stack_path.common_ancestor(rel);
        proof {
            lemma_common_count(tc, pc);
        }
        let ghost pops_needed = st0.len() - 1 - m;
        let ghost mut t: int = 0;
        while !str_eq(
            dir_stack.last().relative_path().as_str(),
            common_ancestor.as_full_str(),
        )
            invariant
                dir_stack.wf(),
                0 <= t <= pops_needed,
                pops_needed == st0.len() - 1 - m,
                tc.len() == st0.len() - 1,
                0 <= m <= tc.len(),
                tc.take(m) == pc.take(m),
                frame_path_ok(stack_path@),
                tc == path_components(stack_path@),
                common_ancestor.inner@ == join_components(tc.take(m)),
                dir_stack.models() == pop_n_model(st0, t),
                dir_stack.models().len() == st0.len() - t,
                path_components(
                    dir_stack.models()[dir_stack.models().len() - 1].relative_path,
                ) == tc.take(st0.len() - 1 - t),
            decreases dir_stack.stack@.len(),
        {
            let ghost cur = st0.len() - 1 - t;
            let ghost stc = dir_stack.models();
            proof {
                // The top is not yet the ancestor, so it is deeper than it.
                let top_path = stc[stc.len() - 1].relative_path;
                assert(frame_path_ok(top_path));
                lemma_join_components_round_trip(top_path);
                assert(top_path == join_components(tc.take(cur)));
                if cur == m {
                    assert(top_path == common_ancestor.inner@);
                    assert(false);
                }
                assert(t < pops_needed);
                assert(stc.len() >= 2);
                lemma_pop_n_step(st0, t);
                lemma_chain_prefix(stc, stc.len() - 2, stc.len() - 1);
            }
            dir_stack.pop_tail();
            proof {
                t = t + 1;
                assert(dir_stack.models() == stack_pop_model(stc));
                assert(dir_stack.models()[dir_stack.models().len() - 1].relative_path
                    == stc[stc.len() - 2].relative_path);
                assert(path_components(stc[stc.len() - 2].relative_path) == tc.take(cur).take(
                    cur - 1,
                ));
                assert(tc.take(cur).take(cur - 1) =~= tc.take(cur - 1));
            }
        }
        proof {
            // The loop stopped at the ancestor: exactly `pops_needed` pops.
            let cur = st0.len() - 1 - t;
            let top_path = dir_stack.models()[dir_stack.models().len() - 1].relative_path;
            assert(frame_path_ok(top_path));
            lemma_join_components_round_trip(top_path);
            assert(join_components(tc.take(cur)) == join_components(tc.take(m)));
            lemma_take_props(tc, cur);
            lemma_take_props(tc, m);
            lemma_components_of_join(tc.take(cur));
            lemma_components_of_join(tc.take(m));
            assert(tc.take(cur) == tc.take(m));
            assert(cur == m);
            assert(t == pops_needed);
        }
        // Create new directory frames for the missing intermediate levels.
        let mut missing = rel.components_starting_at_common_ancestor(&stack_path);
        let ghost popped = dir_stack.models();
        proof {
            lemma_common_count_sym(pc, tc);
            assert(common_count(pc, tc) == m);
            assert(join_components(pc.take(m)) == join_components(tc.take(m)));
            if m == 0 {
                assert(pc.take(0) =~= Seq::<Seq<char>>::empty());
                assert(crate::common::ancestor_sep_index(rel@, stack_path@) == 0);
                assert(missing.index == 0);
            } else {
                assert(pc.take(m)[0] == pc[0]);
                assert(pc[0].len() >= 1);
                assert(join_components(pc.take(m)).len() >= 1) by {
                    if pc.take(m).len() == 1 {
                        assert(join_components(pc.take(m)) == pc.take(m)[0]);
                    }
                }
                assert(missing.index as int == join_components(pc.take(m)).len() + 1);
            }
            assert(popped.len() == m + 1);
            lemma_chain_prefix(popped, popped.len() - 1, popped.len() - 1);
            assert(path_components(popped[popped.len() - 1].relative_path) == tc.take(m));
        }
        let ghost mut j: int = m;
        let ghost mut u: int = 0;
        loop
            invariant_except_break
                missing.wf(),
                missing.inner@ == rel@,
                m <= j <= nn,
                missing.index as int == if j == 0 {
                    0int
                } else {
                    join_components(pc.take(j)).len() as int + 1
                },
                u == if m <= nn - 1 {
                    if j <= nn - 1 {
                        j - m
                    } else {
                        nn - 1 - m
                    }
                } else {
                    0int
                },
            invariant
                dir_stack.wf(),
                0 <= m <= nn,
                nn == pc.len(),
                pc == path_components(rel@),
                crate::common::all_sep_free(pc),
                is_valid_path_str(rel@),
                walk_entry_ok(entries@[idx as int]),
                rel@ == entries@[idx as int].relative_path@,
                popped.len() == m + 1,
                path_components(popped[popped.len() - 1].relative_path) == pc.take(m),
                dir_stack.models() == popped + missing_frames(pc, m).take(u),
            ensures
                dir_stack.wf(),
                dir_stack.models() == popped + missing_frames(pc, m),
            decreases rel@.len() + 1 - missing.index,
        {
            let ghost j0 = j;
            let nxt = missing.next();
            match nxt {
                None => {
                    proof {
                        if j0 == 0 {
                            // Position 0 of a nonempty path always yields.
                            assert(rel@.len() > 0);
                            assert(false);
                        }
                        if j0 < nn {
                            lemma_component_span(rel@, j0);
                            assert(join_components(pc.take(j0 + 1)).len() == rel@.len());
                            if j0 + 1 < nn {
                                assert(false);
                            }
                            assert(j0 == nn - 1);
                            assert(u == nn - 1 - m);
                        }
                        if j0 == nn {
                            assert(u == if m <= nn - 1 {
                                nn - 1 - m
                            } else {
                                0int
                            });
                        }
                        assert(missing_frames(pc, m).take(u) =~= missing_frames(pc, m));
                    }
                    break ;
                },
                Some(_) => {
                    proof {
                        assert(j0 < nn) by {
                            if j0 == nn {
                                assert(join_components(pc.take(nn)).len() == rel@.len()) by {
                                    assert(pc.take(nn) =~= pc);
                                    lemma_join_components_round_trip(rel@);
                                }
                            }
                        }
                        lemma_component_span(rel@, j0);
                        if j0 == 0 {
                            // The whole first component is consumed from the
                            // start of the text.
                            assert(rel@.subrange(0, rel@.len() as int) =~= rel@);
                            lemma_first_sep(rel@);
                            assert(components_from(rel@, 0) == pc);
                            assert(pc.take(1) =~= pc.take(0).push(pc[0]));
                            lemma_join_push(pc.take(0), pc[0]);
                            assert(join_components(pc.take(1)) == pc[0]);
                            j = 1;
                        } else {
                            j = j0 + 1;
                        }
                        assert(missing.index as int == join_components(pc.take(j)).len()
                            as int + 1);
                    }
                    if !missing.is_at_last_entry() {
                        proof {
                            // Not past the end, so this was not the last component.
                            if j == nn {
                                assert(pc.take(nn) =~= pc);
                                lemma_join_components_round_trip(rel@);
                                assert(missing.index as int == rel@.len() + 1);
                                assert(false);
                            }
                        }
                        let acc = missing.as_accumulated_str();
                        let ghost accs = join_components(pc.take(j));
                        proof {
                            lemma_component_span(rel@, j - 1);
                            assert(acc@ == rel@.subrange(0, accs.len() as int));
                            assert(acc@ == accs);
                            assert forall|q: int| 0 <= q < acc@.len() implies acc@[q] != '\\' by {
                                assert(acc@[q] == rel@[q]);
                            }
                            lemma_normalize_id(acc@);
                            // The accumulated prefix is itself a valid path.
                            assert(accs[0] == rel@[0]);
                            assert(accs[accs.len() - 1] == rel@[accs.len() - 1]);
                            assert(rel@[accs.len() - 1] != sep()) by {
                                let q = accs.len() as int - 1;
                                if q > 0 {
                                    assert(join_components(pc.take(j - 1)).len() + 1 <= q + 1);
                                }
                            }
                            assert(is_valid_path_str(accs));
                        }
                        let p = RelativePath::new(acc);
                        let dir_path = match p {
                            Ok(d) => d,
                            Err(_) => unreached(),
                        };
                        proof {
                            assert(dir_path@ == accs);
                            lemma_take_props(pc, j);
                            lemma_components_of_join(pc.take(j));
                            assert(path_components(dir_path@) == pc.take(j));
                            assert(frame_path_ok(dir_path@));
                            let stc = dir_stack.models();
                            assert(stc.len() == m + 1 + u);
                            assert(j == m + u + 1);
                            // The current top's components are the first `j - 1`.
                            if u == 0 {
                                assert(stc[stc.len() - 1] == popped[popped.len() - 1]);
                                assert(path_components(stc[stc.len() - 1].relative_path)
                                    == pc.take(m));
                            } else {
                                assert(stc[stc.len() - 1] == missing_frames(pc, m)[u - 1]);
                                assert(stc[stc.len() - 1].relative_path == join_components(
                                    pc.take(m + u),
                                ));
                                lemma_take_props(pc, m + u);
                                lemma_components_of_join(pc.take(m + u));
                                assert(path_components(stc[stc.len() - 1].relative_path)
                                    == pc.take(m + u));
                            }
                            assert(pc.take(j).take(j - 1) =~= pc.take(j - 1));
                        }
                        dir_stack.push_directory(dir_path);
                        proof {
                            u = u + 1;
                            assert(missing_frames(pc, m)[u - 1] == model_new_dir(accs));
                            assert(missing_frames(pc, m).take(u) =~= missing_frames(
                                pc,
                                m,
                            ).take(u - 1).push(model_new_dir(accs)));
                        }
                    } else {
                        proof {
                            // Past the end: that was the leaf component.
                            if j < nn {
                                lemma_component_span(rel@, j);
                                assert(missing.index as int <= rel@.len());
                                assert(false);
                            }
                            assert(j == nn);
                        }
                    }
                },
            }
        }
        // Only files are pushed here; directories are attached when their
        // frame is closed.
        if !entry.is_directory {
            let file_name = rel.file_name().unwrap();
            let metadata = FileMetadata {
                size_bytes: entry.metadata.size_bytes,
                modified_time_unix_ms_utc: entry.metadata.modified_time_unix_ms_utc,
            };
            proof {
                assert(metadata == entries@[idx as int].metadata);
                assert(dir_stack.models().len() >= 1);
            }
            dir_stack.push_file(file_name, metadata);
            proof {
                assert(file_name@ == pc.last());
            }
        }
        proof {
            let e = entries@[idx as int];
            assert(st0[st0.len() - 1].relative_path == stack_path@);
            assert(common_count(path_components(st0[st0.len() - 1].relative_path), pc) == m);
            assert(pop_n_model(st0, st0.len() - 1 - m) == popped);
            let filled = popped + missing_frames(pc, m);
            if e.is_directory {
                assert(dir_stack.models() == spec_step(st0, e));
            } else {
                assert(filled.len() - 1 == filled.len() - 1);
                assert(dir_stack.models() == filled.update(
                    filled.len() - 1,
                    model_push_entry(filled[filled.len() - 1], file_entry_model(e)),
                ));
                assert(dir_stack.models() == spec_step(st0, e));
            }
            assert(entries@.take(idx + 1).drop_last() =~= entries@.take(idx as int));
            assert(entries@.take(idx + 1).last() == e);
            assert(spec_build_stack(entries@.take(idx + 1)) == spec_step(st0, e));
        }
        idx = idx + 1;
    }
    proof {
        assert(entries@.take(n as int) =~= entries@);
    }
    dir_stack.finalize()
}

/// The full path of an entry of a directory with the given path.
pub open spec fn file_full_path(dirpath: Seq<char>, name: Seq<char>) -> Seq<char> {
    if dirpath.len() == 0 {
        name
    } else {
        dirpath + seq![sep()] + name
    }
}

/// The file paths one entry contributes to a depth-first traversal: a file
/// contributes its full path, a loaded directory the paths of its own
/// traversal, an unloaded placeholder nothing.
pub open spec fn entry_files(dirpath: Seq<char>, e: DirectoryEntryModel) -> Seq<Seq<char>>
    decreases e,
{
    match e.info {
        EntryInfoModel::File { .. } => seq![file_full_path(dirpath, e.name)],
        EntryInfoModel::Directory(Some(m)) => dir_files(m),
        EntryInfoModel::Directory(None) => Seq::empty(),
    }
}

pub open spec fn entries_files(dirpath: Seq<char>, s: Seq<DirectoryEntryModel>) -> Seq<
    Seq<char>,
>
    decreases s,
{
    if s.len() == 0 {
        Seq::empty()
    } else {
        entries_files(dirpath, s.drop_last()) + entry_files(dirpath, s.last())
    }
}

/// The file paths of a depth-first left-to-right traversal of a directory.
pub open spec fn dir_files(m: DirectoryModel) -> Seq<Seq<char>>
    decreases m,
{
    entries_files(m.relative_path, m.entries)
}

/// The file paths held by a whole stack of frames, bottom frame first.
pub open spec fn stack_files(st: Seq<DirectoryModel>) -> Seq<Seq<char>>
    decreases st.len(),
{
    if st.len() == 0 {
        Seq::empty()
    } else {
        stack_files(st.drop_last()) + dir_files(st.last())
    }
}

/// The paths of the file records of a walk, in order.
pub open spec fn walk_file_paths(es: Seq<WalkEntry>) -> Seq<Seq<char>>
    decreases es.len(),
{
    if es.len() == 0 {
        Seq::empty()
    } else {
        walk_file_paths(es.drop_last()) + (if es.last().is_directory {
            Seq::empty()
        } else {
            seq![es.last().relative_path@]
        })
    }
}

/// Closing the top frame moves its files to the end of its parent's, so the
/// stack's files as a whole do not change.
pub proof fn lemma_stack_pop_files(st: Seq<DirectoryModel>)
    requires
        st.len() >= 2,
    ensures
        stack_files(stack_pop_model(st)) == stack_files(st),
{
    let n = st.len() as int;
    let top = st[n - 1];
    let parent = st[n - 2];
    let p = stack_pop_model(st);
    let entry = DirectoryEntryModel {
        name: path_components(top.relative_path).last(),
        info: EntryInfoModel::Directory(Some(top)),
    };
    assert(p.drop_last() =~= st.take(n - 2));
    assert(p.last() == model_push_entry(parent, entry));
    assert(dir_files(p.last()) == entries_files(parent.relative_path, parent.entries.push(entry)));
    assert(parent.entries.push(entry).drop_last() =~= parent.entries);
    assert(parent.entries.push(entry).last() == entry);
    assert(dir_files(p.last()) == dir_files(parent) + dir_files(top));
    assert(st.take(n - 1).drop_last() =~= st.take(n - 2));
    assert(st.take(n - 1).last() == parent);
    assert(st.drop_last() =~= st.take(n - 1));
    assert(stack_files(st.take(n - 1)) == stack_files(st.take(n - 2)) + dir_files(parent));
    assert(stack_files(st) == stack_files(st.take(n - 1)) + dir_files(top));
    assert(stack_files(p) == stack_files(st.take(n - 2)) + (dir_files(parent) + dir_files(
        top,
    )));
    assert(stack_files(st.take(n - 2)) + (dir_files(parent) + dir_files(top)) =~= (stack_files(
        st.take(n - 2),
    ) + dir_files(parent)) + dir_files(top));
}

pub proof fn lemma_pop_n_files(st: Seq<DirectoryModel>, k: int)
    requires
        0 <= k <= st.len() - 1,
    ensures
        stack_files(pop_n_model(st, k)) == stack_files(st),
        pop_n_model(st, k).len() == st.len() - k,
    decreases k,
{
    if k > 0 && st.len() >= 2 {
        lemma_stack_pop_files(st);
        assert(stack_pop_model(st).len() == st.len() - 1);
        lemma_pop_n_files(stack_pop_model(st), k - 1);
    }
}

/// The stack's files split over a concatenation of frame sequences.
pub proof fn lemma_stack_files_concat(a: Seq<DirectoryModel>, b: Seq<DirectoryModel>)
    ensures
        stack_files(a + b) == stack_files(a) + stack_files(b),
    decreases b.len(),
{
    if b.len() == 0 {
        assert(a + b =~= a);
        assert(stack_files(a) + stack_files(b) =~= stack_files(a));
    } else {
        assert((a + b).drop_last() =~= a + b.drop_last());
        assert((a + b).last() == b.last());
        lemma_stack_files_concat(a, b.drop_last());
        assert((stack_files(a) + stack_files(b.drop_last())) + dir_files(b.last())
            =~= stack_files(a) + (stack_files(b.drop_last()) + dir_files(b.last())));
    }
}

/// Frames with no entries contribute no files.
pub proof fn lemma_stack_files_empty_frames(st: Seq<DirectoryModel>)
    requires
        forall|i: int| 0 <= i < st.len() ==> (#[trigger] st[i]).entries.len() == 0,
    ensures
        stack_files(st) == Seq::<Seq<char>>::empty(),
    decreases st.len(),
{
    if st.len() > 0 {
        lemma_stack_files_empty_frames(st.drop_last());
        assert(st.last().entries =~= Seq::<DirectoryEntryModel>::empty());
        assert(dir_files(st.last()) =~= Seq::<Seq<char>>::empty());
        assert(stack_files(st) =~= Seq::<Seq<char>>::empty());
    }
}

/// Appending a file entry to the top frame appends exactly its full path.
pub proof fn lemma_stack_files_push_file(st: Seq<DirectoryModel>, fe: DirectoryEntryModel)
    requires
        st.len() >= 1,
        fe.info matches EntryInfoModel::File { .. },
    ensures
        stack_files(st.update(st.len() - 1, model_push_entry(st[st.len() - 1], fe)))
            == stack_files(st) + seq![
            file_full_path(st[st.len() - 1].relative_path, fe.name),
        ],
{
    let n = st.len() as int;
    let top = st[n - 1];
    let u = st.update(n - 1, model_push_entry(top, fe));
    assert(u.drop_last() =~= st.drop_last());
    assert(u.last() == model_push_entry(top, fe));
    assert(top.entries.push(fe).drop_last() =~= top.entries);
    assert(top.entries.push(fe).last() == fe);
    assert(dir_files(u.last()) == dir_files(top) + seq![
        file_full_path(top.relative_path, fe.name),
    ]);
    assert(stack_files(u) =~= stack_files(st) + seq![
        file_full_path(top.relative_path, fe.name),
    ]);
}

/// Closing the top frame keeps the chain invariant on the rest; the paths
/// of the remaining frames are untouched.
pub proof fn lemma_stack_pop_chain(st: Seq<DirectoryModel>)
    requires
        stack_chain_ok(st),
        st.len() >= 2,
    ensures
        stack_pop_model(st).len() == st.len() - 1,
        stack_chain_ok(stack_pop_model(st)),
        forall|i: int|
            0 <= i < st.len() - 1 ==> (#[trigger] stack_pop_model(st)[i]).relative_path
                == st[i].relative_path,
    decreases st.len(),
{
    let p = stack_pop_model(st);
    let n = st.len() as int;
    assert forall|i: int| 0 <= i < n - 1 implies (#[trigger] p[i]).relative_path
        == st[i].relative_path by {
        if i < n - 2 {
            assert(p[i] == st.take(n - 2)[i]);
        }
    }
    assert forall|i: int| 0 <= i < p.len() implies frame_path_ok(
        (#[trigger] p[i]).relative_path,
    ) && path_components(p[i].relative_path).len() == i && (i >= 1 ==> path_components(
        p[i].relative_path,
    ).take(i - 1) == path_components(p[i - 1].relative_path)) by {
        assert(p[i].relative_path == st[i].relative_path);
        if i >= 1 {
            assert(p[i - 1].relative_path == st[i - 1].relative_path);
        }
    }
}

pub proof fn lemma_pop_n_chain(st: Seq<DirectoryModel>, k: int)
    requires
        stack_chain_ok(st),
        0 <= k <= st.len() - 1,
    ensures
        pop_n_model(st, k).len() == st.len() - k,
        stack_chain_ok(pop_n_model(st, k)),
        forall|i: int|
            0 <= i < st.len() - k ==> (#[trigger] pop_n_model(st, k)[i]).relative_path
                == st[i].relative_path,
    decreases k,
{
    if k > 0 && st.len() >= 2 {
        lemma_stack_pop_chain(st);
        lemma_pop_n_chain(stack_pop_model(st), k - 1);
        assert forall|i: int| 0 <= i < st.len() - k implies (#[trigger] pop_n_model(
            st,
            k,
        )[i]).relative_path == st[i].relative_path by {
            assert(pop_n_model(st, k)[i] == pop_n_model(stack_pop_model(st), k - 1)[i]);
            assert(stack_pop_model(st)[i].relative_path == st[i].relative_path);
        }
    }
}

/// One build step on a chain-invariant stack, for a record whose path is
/// not fully contained in the top frame's path: the chain is kept, the new
/// top frame is the record's parent directory level, and exactly a file
/// record's path is appended to the stack's files.
#[verifier::rlimit(60)]
pub proof fn lemma_spec_step_props(st: Seq<DirectoryModel>, e: WalkEntry)
    requires
        stack_chain_ok(st),
        walk_entry_ok(e),
        common_count(
            path_components(st[st.len() - 1].relative_path),
            path_components(e.relative_path@),
        ) < path_components(e.relative_path@).len(),
    ensures
        ({
            let r = spec_step(st, e);
            let pc = path_components(e.relative_path@);
            &&& stack_chain_ok(r)
            &&& r.len() == pc.len()
            &&& path_components(r[r.len() - 1].relative_path) == pc.take(pc.len() - 1)
            &&& stack_files(r) == stack_files(st) + (if e.is_directory {
                Seq::<Seq<char>>::empty()
            } else {
                seq![e.relative_path@]
            })
        }),
{
    let s = e.relative_path@;
    let pc = path_components(s);
    let nn = pc.len() as int;
    let tc = path_components(st[st.len() - 1].relative_path);
    let m = common_count(tc, pc);
    lemma_common_count(tc, pc);
    lemma_components_from_props(s, 0);
    lemma_join_components_round_trip(s);
    assert(nn >= 1);
    assert(m <= nn - 1);
    assert(tc.len() == st.len() - 1);
    let k = st.len() - 1 - m;
    lemma_pop_n_chain(st, k);
    lemma_pop_n_files(st, k);
    let popped = pop_n_model(st, k);
    assert(popped.len() == m + 1);
    lemma_chain_prefix(st, m, st.len() - 1);
    assert(path_components(popped[m].relative_path) == tc.take(m));

    let frames = missing_frames(pc, m);
    assert(frames.len() == nn - 1 - m);
    let filled = popped + frames;
    assert(filled.len() == nn);

    // The paths of the opened frames are the successive prefixes of `s`.
    assert forall|q: int| m < q < nn implies {
        &&& (#[trigger] filled[q]).relative_path == join_components(pc.take(q))
        &&& path_components(filled[q].relative_path) == pc.take(q)
        &&& frame_path_ok(filled[q].relative_path)
        &&& filled[q].entries.len() == 0
    } by {
        assert(filled[q] == frames[q - m - 1]);
        assert(frames[q - m - 1] == model_new_dir(join_components(pc.take(q))));
        lemma_take_props(pc, q);
        lemma_join_valid(pc.take(q));
        if q < nn {
            lemma_join_take_skip(pc, q);
            assert(s == join_components(pc.take(q)) + seq![sep()] + join_components(
                pc.skip(q),
            ));
            assert(join_components(pc.take(q)).len() < s.len());
        }
    }
    assert(stack_chain_ok(filled)) by {
        assert forall|q: int| 0 <= q < filled.len() implies frame_path_ok(
            (#[trigger] filled[q]).relative_path,
        ) && path_components(filled[q].relative_path).len() == q && (q >= 1
            ==> path_components(filled[q].relative_path).take(q - 1) == path_components(
            filled[q - 1].relative_path,
        )) by {
            if q <= m {
                assert(filled[q] == popped[q]);
                assert(popped[q].relative_path == st[q].relative_path);
                if q >= 1 {
                    assert(filled[q - 1] == popped[q - 1]);
                    assert(popped[q - 1].relative_path == st[q - 1].relative_path);
                }
            } else {
                assert(path_components(filled[q].relative_path) == pc.take(q));
                if q == m + 1 {
                    assert(pc.take(q).take(q - 1) =~= pc.take(m));
                    assert(pc.take(m) =~= tc.take(m));
                    assert(filled[m] == popped[m]);
                } else {
                    assert(pc.take(q).take(q - 1) =~= pc.take(q - 1));
                }
            }
        }
    }
    // The top frame sits at the record's parent directory level.
    assert(path_components(filled[nn - 1].relative_path) == pc.take(nn - 1)) by {
        if nn - 1 == m {
            assert(filled[m] == popped[m]);
            assert(tc.take(m) =~= pc.take(m));
        }
    }
    assert(filled[nn - 1].relative_path == join_components(pc.take(nn - 1))) by {
        if nn - 1 == m {
            assert(frame_path_ok(filled[m].relative_path));
            lemma_join_components_round_trip(filled[m].relative_path);
            assert(tc.take(m) =~= pc.take(m));
        }
    }
    assert(stack_files(filled) == stack_files(st)) by {
        lemma_stack_files_concat(popped, frames);
        assert forall|i: int| 0 <= i < frames.len() implies (#[trigger] frames[i]).entries.len()
            == 0 by {
            assert(frames[i] == model_new_dir(join_components(pc.take(m + 1 + i))));
        }
        lemma_stack_files_empty_frames(frames);
        assert(stack_files(popped) + Seq::<Seq<char>>::empty() =~= stack_files(popped));
    }

    if e.is_directory {
        assert(spec_step(st, e) == filled);
    } else {
        let fe = file_entry_model(e);
        let r = filled.update(nn - 1, model_push_entry(filled[nn - 1], fe));
        assert(spec_step(st, e) == r);
        lemma_stack_files_push_file(filled, fe);
        // The appended path is exactly the record's path.
        assert(file_full_path(filled[nn - 1].relative_path, fe.name) == s) by {
            if nn == 1 {
                assert(pc.take(0) =~= Seq::<Seq<char>>::empty());
                assert(filled[0].relative_path =~= Seq::<char>::empty()) by {
                    lemma_components_from_props(filled[0].relative_path, 0);
                }
                assert(pc.take(nn) =~= pc);
                assert(fe.name == pc.last());
                assert(join_components(pc) == pc[0]);
            } else {
                lemma_take_props(pc, nn - 1);
                lemma_join_valid(pc.take(nn - 1));
                lemma_join_push(pc.take(nn - 1), pc.last());
                assert(pc.take(nn - 1).push(pc.last()) =~= pc);
                assert(join_components(pc) == join_components(pc.take(nn - 1)) + seq![sep()]
                    + pc.last());
            }
        }
        assert(stack_files(r) == stack_files(st) + seq![s]);
        assert(stack_chain_ok(r)) by {
            assert forall|q: int| 0 <= q < r.len() implies frame_path_ok(
                (#[trigger] r[q]).relative_path,
            ) && path_components(r[q].relative_path).len() == q && (q >= 1
                ==> path_components(r[q].relative_path).take(q - 1) == path_components(
                r[q - 1].relative_path,
            )) by {
                assert(r[q].relative_path == filled[q].relative_path);
                if q >= 1 {
                    assert(r[q - 1].relative_path == filled[q - 1].relative_path);
                }
            }
        }
        assert(path_components(r[nn - 1].relative_path) == pc.take(nn - 1));
    }
}

/// Collapsing the stack down to the root keeps exactly its files.
pub proof fn lemma_finalize_files(st: Seq<DirectoryModel>)
    requires
        st.len() >= 1,
    ensures
        dir_files(finalize_model(st)) == stack_files(st),
    decreases st.len(),
{
    if st.len() == 1 {
        assert(st.drop_last() =~= Seq::<DirectoryModel>::empty());
        assert(stack_files(Seq::<DirectoryModel>::empty()) == Seq::<Seq<char>>::empty());
        assert(stack_files(st) == stack_files(st.drop_last()) + dir_files(st.last()));
        assert(Seq::<Seq<char>>::empty() + dir_files(st[0]) =~= dir_files(st[0]));
        assert(finalize_model(st) == st[0]);
    } else {
        lemma_stack_pop_files(st);
        assert(stack_pop_model(st).len() == st.len() - 1);
        lemma_finalize_files(stack_pop_model(st));
    }
}

/// The invariants the build stack keeps over a sorted walk: the chain
/// holds, the stack's files are exactly the file paths consumed so far, and
/// the top frame is the parent directory level of the last record.
pub proof fn lemma_build_stack_flatten(es: Seq<WalkEntry>)
    requires
        forall|i: int| 0 <= i < es.len() ==> walk_entry_ok(#[trigger] es[i]),
        forall|i: int, j: int|
            0 <= i < j < es.len() ==> cmp_components(
                path_components(es[i].relative_path@),
                path_components(es[j].relative_path@),
            ) == Ordering::Less,
    ensures
        stack_chain_ok(spec_build_stack(es)),
        stack_files(spec_build_stack(es)) == walk_file_paths(es),
        es.len() > 0 ==> {
            let pc = path_components(es.last().relative_path@);
            &&& spec_build_stack(es).len() == pc.len()
            &&& path_components(
                spec_build_stack(es)[spec_build_stack(es).len() - 1].relative_path,
            ) == pc.take(pc.len() - 1)
        },
    decreases es.len(),
{
    if es.len() == 0 {
        let st = spec_build_stack(es);
        assert(st == seq![model_new_dir(Seq::<char>::empty())]);
        lemma_components_from_props(Seq::<char>::empty(), 0);
        assert(stack_chain_ok(st));
        assert(st[0].entries.len() == 0);
        lemma_stack_files_empty_frames(st);
    } else {
        let prev = es.drop_last();
        let e = es.last();
        assert(forall|i: int| 0 <= i < prev.len() ==> prev[i] == es[i]);
        lemma_build_stack_flatten(prev);
        let st = spec_build_stack(prev);
        let pc = path_components(e.relative_path@);
        let nn = pc.len() as int;
        let tc = path_components(st[st.len() - 1].relative_path);
        let m = common_count(tc, pc);
        lemma_common_count(tc, pc);
        assert(walk_entry_ok(e));
        lemma_components_from_props(e.relative_path@, 0);
        assert(nn >= 1);
        // The record's path strictly extends beyond the top frame's path:
        // otherwise it would sort at or before the previous record.
        assert(m < nn) by {
            if m == nn {
                assert(prev.len() > 0) by {
                    if prev.len() == 0 {
                        assert(tc.len() == 0);
                    }
                }
                let pcp = path_components(prev.last().relative_path@);
                let nnp = pcp.len() as int;
                assert(tc == pcp.take(nnp - 1));
                assert(nn <= tc.len());
                assert(pc =~= pcp.take(nn)) by {
                    assert(tc.take(nn) =~= pc.take(nn));
                    assert(pc.take(nn) =~= pc);
                    assert forall|x: int| 0 <= x < nn implies pc[x] == pcp[x] by {
                        assert(pc[x] == tc[x]);
                        assert(tc[x] == pcp.take(nnp - 1)[x]);
                    }
                }
                lemma_cmp_components_prefix(pcp, nn);
                assert(cmp_components(pcp, pc) != Ordering::Less);
                assert(prev.last() == es[es.len() - 2]);
                assert(cmp_components(
                    path_components(es[es.len() - 2].relative_path@),
                    path_components(es[es.len() - 1].relative_path@),
                ) == Ordering::Less);
                assert(false);
            }
        }
        lemma_spec_step_props(st, e);
        assert(spec_build_stack(es) == spec_step(st, e));
        assert(walk_file_paths(es) == walk_file_paths(prev) + (if e.is_directory {
            Seq::<Seq<char>>::empty()
        } else {
            seq![e.relative_path@]
        }));
    }
}

/// Correctness of the builder: over a strictly ascending walk, the
/// depth-first left-to-right traversal of the built tree, re-emitting only
/// file paths, reproduces the walked file-path sequence exactly.
pub proof fn lemma_build_tree_flatten_round_trip(es: Seq<WalkEntry>)
    requires
        forall|i: int| 0 <= i < es.len() ==> walk_entry_ok(#[trigger] es[i]),
        forall|i: int, j: int|
            0 <= i < j < es.len() ==> cmp_components(
                path_components(es[i].relative_path@),
                path_components(es[j].relative_path@),
            ) == Ordering::Less,
    ensures
        dir_files(spec_build_tree(es)) == walk_file_paths(es),
{
    lemma_build_stack_flatten(es);
    lemma_finalize_files(spec_build_stack(es));
}

/// The same round trip stated over the path ordering itself: sorted by
/// `path_cmp`, which on valid paths is the component order.
pub proof fn lemma_build_tree_flatten_round_trip_path_order(es: Seq<WalkEntry>)
    requires
        forall|i: int| 0 <= i < es.len() ==> walk_entry_ok(#[trigger] es[i]),
        forall|i: int, j: int|
            0 <= i < j < es.len() ==> path_cmp(es[i].relative_path@, es[j].relative_path@)
                == Ordering::Less,
    ensures
        dir_files(spec_build_tree(es)) == walk_file_paths(es),
{
    assert forall|i: int, j: int| 0 <= i < j < es.len() implies cmp_components(
        path_components(es[i].relative_path@),
        path_components(es[j].relative_path@),
    ) == Ordering::Less by {
        assert(walk_entry_ok(es[i]) && walk_entry_ok(es[j]));
        crate::common::lemma_path_cmp_is_components(
            es[i].relative_path@,
            es[j].relative_path@,
        );
    }
    lemma_build_tree_flatten_round_trip(es);
}

} // verus!
