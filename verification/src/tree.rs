//! Model of the destination subtree and the laws of extraction.
//!
//! The destination is modelled as the set of directories that exist
//! under the root and a map from file paths to their bytes, both keyed
//! by path components relative to the root. Applying a field's planned
//! actions in archive order describes what a run in which every
//! filesystem operation succeeds leaves on disk.

use vstd::prelude::*;
use crate::container::EntryModel;
use crate::driver::ActionModel;
use crate::driver::data_of;
use crate::driver::lemma_plan_confined;
use crate::driver::plan_spec;
use crate::driver::target_of;
use crate::paths::confined;

verus! {

/// The destination subtree: directories that exist and file contents,
/// both named by their components relative to the destination root.
pub ghost struct TreeModel {
    pub dirs: Set<Seq<Seq<u8>>>,
    pub files: Map<Seq<Seq<u8>>, Seq<u8>>,
}

/// The proper ancestors of a target: every non-empty strict prefix of
/// its component list. Materializing an entry creates these directories
/// when they are missing.
pub open spec fn ancestors_of(t: Seq<Seq<u8>>) -> Set<Seq<Seq<u8>>> {
    Set::new(|p: Seq<Seq<u8>>| exists|i: int| 1 <= i < t.len() && p == #[trigger] t.take(i))
}

/// The change one planned action makes to the destination tree: a
/// directory creation adds the target and its missing ancestors, a file
/// write adds the missing ancestors and overwrites the target's bytes,
/// and a skipped or rejected entry changes nothing.
pub open spec fn apply_action(tr: TreeModel, a: ActionModel) -> TreeModel {
    match a {
        ActionModel::MakeDir { target } => TreeModel {
            dirs: tr.dirs.union(ancestors_of(target)).insert(target),
            files: tr.files,
        },
        ActionModel::WriteFile { target, data } => TreeModel {
            dirs: tr.dirs.union(ancestors_of(target)),
            files: tr.files.insert(target, data),
        },
        ActionModel::Skip => tr,
        ActionModel::Reject => tr,
    }
}

/// The destination tree after the actions of all entries, in archive
/// order, in a run where every filesystem operation succeeds.
pub open spec fn apply_entries(tr: TreeModel, es: Seq<EntryModel>) -> TreeModel
    decreases es.len(),
{
    if es.len() == 0 {
        tr
    } else {
        apply_entries(apply_action(tr, plan_spec(es[0])), es.drop_first())
    }
}

/// What a sequence of entries adds to any tree: the directories it
/// creates and the bytes of the last write to each file path.
pub ghost struct TreeDelta {
    pub dirs: Set<Seq<Seq<u8>>>,
    pub files: Map<Seq<Seq<u8>>, Seq<u8>>,
}

/// The delta of one action.
pub open spec fn action_delta(a: ActionModel) -> TreeDelta {
    match a {
        ActionModel::MakeDir { target } => TreeDelta {
            dirs: ancestors_of(target).insert(target),
            files: Map::empty(),
        },
        ActionModel::WriteFile { target, data } => TreeDelta {
            dirs: ancestors_of(target),
            files: Map::empty().insert(target, data),
        },
        ActionModel::Skip => TreeDelta { dirs: Set::empty(), files: Map::empty() },
        ActionModel::Reject => TreeDelta { dirs: Set::empty(), files: Map::empty() },
    }
}

/// Sequential composition of two deltas; a later write wins.
pub open spec fn delta_compose(a: TreeDelta, b: TreeDelta) -> TreeDelta {
    TreeDelta { dirs: a.dirs.union(b.dirs), files: a.files.union_prefer_right(b.files) }
}

/// The delta of a whole sequence of entries.
pub open spec fn entries_delta(es: Seq<EntryModel>) -> TreeDelta
    decreases es.len(),
{
    if es.len() == 0 {
        TreeDelta { dirs: Set::empty(), files: Map::empty() }
    } else {
        delta_compose(action_delta(plan_spec(es[0])), entries_delta(es.drop_first()))
    }
}

/// A delta laid over a tree.
pub open spec fn merge(tr: TreeModel, d: TreeDelta) -> TreeModel {
    TreeModel { dirs: tr.dirs.union(d.dirs), files: tr.files.union_prefer_right(d.files) }
}

proof fn lemma_action_is_merge(tr: TreeModel, a: ActionModel)
    ensures
        apply_action(tr, a) == merge(tr, action_delta(a)),
{
    let x = apply_action(tr, a);
    let y = merge(tr, action_delta(a));
    assert(x.dirs =~= y.dirs);
    assert(x.files =~= y.files);
}

proof fn lemma_merge_compose(tr: TreeModel, a: TreeDelta, b: TreeDelta)
    ensures
        merge(merge(tr, a), b) == merge(tr, delta_compose(a, b)),
{
    let x = merge(merge(tr, a), b);
    let y = merge(tr, delta_compose(a, b));
    assert(x.dirs =~= y.dirs);
    assert(x.files =~= y.files);
}

proof fn lemma_apply_is_merge(tr: TreeModel, es: Seq<EntryModel>)
    ensures
        apply_entries(tr, es) == merge(tr, entries_delta(es)),
    decreases es.len(),
{
    if es.len() == 0 {
        let x = apply_entries(tr, es);
        let y = merge(tr, entries_delta(es));
        assert(x.dirs =~= y.dirs);
        assert(x.files =~= y.files);
    } else {
        let a = plan_spec(es[0]);
        let tr1 = apply_action(tr, a);
        lemma_action_is_merge(tr, a);
        lemma_apply_is_merge(tr1, es.drop_first());
        lemma_merge_compose(tr, action_delta(a), entries_delta(es.drop_first()));
    }
}

/// Extraction is idempotent: in runs where every filesystem operation
/// succeeds, applying the same archive's entries a second time leaves
/// the tree of the first run unchanged, because every entry overwrites
/// its own earlier effect with the same bytes.
pub proof fn lemma_extract_idempotent(tr: TreeModel, es: Seq<EntryModel>)
    ensures
        apply_entries(apply_entries(tr, es), es) == apply_entries(tr, es),
{
    let d = entries_delta(es);
    lemma_apply_is_merge(tr, es);
    lemma_apply_is_merge(apply_entries(tr, es), es);
    lemma_merge_compose(tr, d, d);
    assert(delta_compose(d, d).dirs =~= d.dirs);
    assert(delta_compose(d, d).files =~= d.files);
    assert(delta_compose(d, d) == d);
}

/// Directories already in the tree survive any further entries.
proof fn lemma_dirs_monotone(tr: TreeModel, es: Seq<EntryModel>, d: Seq<Seq<u8>>)
    requires
        tr.dirs.contains(d),
    ensures
        apply_entries(tr, es).dirs.contains(d),
    decreases es.len(),
{
    if es.len() != 0 {
        lemma_dirs_monotone(apply_action(tr, plan_spec(es[0])), es.drop_first(), d);
    }
}

/// A file whose path no later entry writes survives any further entries
/// with its bytes intact.
proof fn lemma_file_preserved(tr: TreeModel, es: Seq<EntryModel>, t: Seq<Seq<u8>>)
    requires
        tr.files.contains_key(t),
        forall|j: int|
            0 <= j < es.len() ==> !((#[trigger] plan_spec(es[j])) is WriteFile && target_of(
                plan_spec(es[j]),
            ) == t),
    ensures
        apply_entries(tr, es).files.contains_key(t),
        apply_entries(tr, es).files[t] == tr.files[t],
    decreases es.len(),
{
    if es.len() != 0 {
        let tr1 = apply_action(tr, plan_spec(es[0]));
        assert(tr1.files.contains_key(t) && tr1.files[t] == tr.files[t]);
        assert(forall|j: int|
            0 <= j < es.len() - 1 ==> #[trigger] es.drop_first()[j] == es[j + 1]);
        lemma_file_preserved(tr1, es.drop_first(), t);
    }
}

/// Every proper prefix of a confined target is itself confined: its
/// components are a non-empty front of the target's own.
proof fn lemma_ancestors_confined(t: Seq<Seq<u8>>)
    requires
        confined(t),
    ensures
        forall|d: Seq<Seq<u8>>| ancestors_of(t).contains(d) ==> confined(d),
{
    assert forall|d: Seq<Seq<u8>>| ancestors_of(t).contains(d) implies confined(d) by {
        let i = choose|i: int| 1 <= i < t.len() && d == #[trigger] t.take(i);
        assert(forall|j: int| 0 <= j < d.len() ==> d[j] == t[j]);
    }
}

/// No write lands outside the destination root: whatever the archive's
/// declared paths hold, every file and every directory that extraction
/// adds to the tree — targets and auto-created ancestors alike — is
/// confined, a strict descendant of the destination root.
pub proof fn lemma_no_write_outside_root(tr: TreeModel, es: Seq<EntryModel>)
    ensures
        forall|t: Seq<Seq<u8>>|
            apply_entries(tr, es).files.contains_key(t) && !tr.files.contains_key(t)
                ==> #[trigger] confined(t),
        forall|d: Seq<Seq<u8>>|
            apply_entries(tr, es).dirs.contains(d) && !tr.dirs.contains(d) ==> #[trigger] confined(
                d,
            ),
    decreases es.len(),
{
    if es.len() != 0 {
        let a = plan_spec(es[0]);
        let tr1 = apply_action(tr, a);
        lemma_plan_confined(es[0]);
        lemma_no_write_outside_root(tr1, es.drop_first());
        if a is MakeDir || a is WriteFile {
            lemma_ancestors_confined(target_of(a));
        }
    }
}

/// Extraction writes nothing of its own: a file path new in the final
/// tree is the resolved target of one of the archive's file entries,
/// and a directory new in the final tree is the resolved target of one
/// of its entries or an ancestor of such a target.
pub proof fn lemma_extraction_frame(tr: TreeModel, es: Seq<EntryModel>)
    ensures
        forall|t: Seq<Seq<u8>>|
            #[trigger] apply_entries(tr, es).files.contains_key(t) && !tr.files.contains_key(t)
                ==> exists|i: int|
                0 <= i < es.len() && (#[trigger] plan_spec(es[i])) is WriteFile && target_of(
                    plan_spec(es[i]),
                ) == t,
        forall|d: Seq<Seq<u8>>|
            #[trigger] apply_entries(tr, es).dirs.contains(d) && !tr.dirs.contains(d) ==> exists|
                i: int,
            |
                0 <= i < es.len() && !((#[trigger] plan_spec(es[i])) is Skip) && !(plan_spec(
                    es[i],
                ) is Reject) && (target_of(plan_spec(es[i])) == d || ancestors_of(
                    target_of(plan_spec(es[i])),
                ).contains(d)),
    decreases es.len(),
{
    if es.len() != 0 {
        let a = plan_spec(es[0]);
        let tr1 = apply_action(tr, a);
        let rest = es.drop_first();
        lemma_extraction_frame(tr1, rest);
        assert(forall|j: int| 0 <= j < rest.len() ==> #[trigger] rest[j] == es[j + 1]);
        assert forall|t: Seq<Seq<u8>>|
            #[trigger] apply_entries(tr, es).files.contains_key(t) && !tr.files.contains_key(
                t,
            ) implies exists|i: int|
            0 <= i < es.len() && (#[trigger] plan_spec(es[i])) is WriteFile && target_of(
                plan_spec(es[i]),
            ) == t by {
            if tr1.files.contains_key(t) {
                assert(a is WriteFile && target_of(a) == t);
                assert(0 <= 0 < es.len() && plan_spec(es[0]) is WriteFile && target_of(
                    plan_spec(es[0]),
                ) == t);
            } else {
                assert(apply_entries(tr, es) == apply_entries(tr1, rest));
                assert(apply_entries(tr1, rest).files.contains_key(t) && !tr1.files.contains_key(
                    t,
                ));
                let j = choose|j: int|
                    0 <= j < rest.len() && (#[trigger] plan_spec(rest[j])) is WriteFile
                        && target_of(plan_spec(rest[j])) == t;
                assert(plan_spec(es[j + 1]) is WriteFile && target_of(plan_spec(es[j + 1])) == t);
            }
        }
        assert forall|d: Seq<Seq<u8>>|
            #[trigger] apply_entries(tr, es).dirs.contains(d) && !tr.dirs.contains(d) implies exists|
            i: int,
        |
            0 <= i < es.len() && !((#[trigger] plan_spec(es[i])) is Skip) && !(plan_spec(
                es[i],
            ) is Reject) && (target_of(plan_spec(es[i])) == d || ancestors_of(
                target_of(plan_spec(es[i])),
            ).contains(d)) by {
            if tr1.dirs.contains(d) {
                assert(!(a is Skip) && !(a is Reject));
                assert(target_of(plan_spec(es[0])) == d || ancestors_of(
                    target_of(plan_spec(es[0])),
                ).contains(d));
            } else {
                assert(apply_entries(tr, es) == apply_entries(tr1, rest));
                assert(apply_entries(tr1, rest).dirs.contains(d) && !tr1.dirs.contains(d));
                let j = choose|j: int|
                    0 <= j < rest.len() && !((#[trigger] plan_spec(rest[j])) is Skip) && !(
                    plan_spec(rest[j]) is Reject) && (target_of(plan_spec(rest[j])) == d
                        || ancestors_of(target_of(plan_spec(rest[j]))).contains(d));
                assert(plan_spec(es[j + 1]) == plan_spec(rest[j]));
            }
        }
    }
}

/// Whether entry `i` is the last entry of the field writing its file
/// target.
pub open spec fn last_writer(es: Seq<EntryModel>, i: int) -> bool {
    forall|j: int|
        i < j < es.len() && (#[trigger] plan_spec(es[j])) is WriteFile ==> target_of(
            plan_spec(es[j]),
        ) != target_of(plan_spec(es[i]))
}

/// Faithful extraction: in a run where every filesystem operation
/// succeeds, every directory entry's resolved target exists in the
/// final tree, and every file entry that is the last to write its
/// resolved target has exactly its payload bytes stored there. An
/// archive of regular files and directories whose paths all resolve is
/// therefore reproduced exactly, under overwrite semantics for
/// duplicated paths.
pub proof fn lemma_extraction_faithful(tr: TreeModel, es: Seq<EntryModel>)
    ensures
        forall|i: int|
            0 <= i < es.len() && (#[trigger] plan_spec(es[i])) is MakeDir ==> apply_entries(
                tr,
                es,
            ).dirs.contains(target_of(plan_spec(es[i]))),
        forall|i: int|
            0 <= i < es.len() && (#[trigger] plan_spec(es[i])) is WriteFile && last_writer(es, i)
                ==> apply_entries(tr, es).files.contains_key(target_of(plan_spec(es[i])))
                && apply_entries(tr, es).files[target_of(plan_spec(es[i]))] == data_of(
                plan_spec(es[i]),
            ),
    decreases es.len(),
{
    if es.len() != 0 {
        let a = plan_spec(es[0]);
        let tr1 = apply_action(tr, a);
        let rest = es.drop_first();
        lemma_extraction_faithful(tr1, rest);
        assert(forall|j: int| 0 <= j < rest.len() ==> #[trigger] rest[j] == es[j + 1]);
        assert(apply_entries(tr, es) == apply_entries(tr1, rest));
        assert forall|i: int|
            0 <= i < es.len() && (#[trigger] plan_spec(es[i])) is MakeDir implies apply_entries(
            tr,
            es,
        ).dirs.contains(target_of(plan_spec(es[i]))) by {
            if i == 0 {
                assert(tr1.dirs.contains(target_of(a)));
                lemma_dirs_monotone(tr1, rest, target_of(a));
            } else {
                assert(plan_spec(rest[i - 1]) == plan_spec(es[i]));
            }
        }
        assert forall|i: int|
            0 <= i < es.len() && (#[trigger] plan_spec(es[i])) is WriteFile && last_writer(es, i)
            implies apply_entries(tr, es).files.contains_key(target_of(plan_spec(es[i])))
            && apply_entries(tr, es).files[target_of(plan_spec(es[i]))] == data_of(
            plan_spec(es[i]),
        ) by {
            if i == 0 {
                let t = target_of(a);
                assert(tr1.files.contains_key(t) && tr1.files[t] == data_of(a));
                assert(forall|j: int|
                    0 <= j < rest.len() ==> !((#[trigger] plan_spec(rest[j])) is WriteFile
                        && target_of(plan_spec(rest[j])) == t)) by {
                    assert(forall|j: int|
                        0 <= j < rest.len() && (#[trigger] plan_spec(rest[j])) is WriteFile
                            ==> plan_spec(rest[j]) == plan_spec(es[j + 1]) && target_of(
                            plan_spec(es[j + 1]),
                        ) != t);
                }
                lemma_file_preserved(tr1, rest, t);
            } else {
                assert(plan_spec(rest[i - 1]) == plan_spec(es[i]));
                assert(last_writer(rest, i - 1)) by {
                    assert(forall|j: int|
                        i - 1 < j < rest.len() && (#[trigger] plan_spec(rest[j])) is WriteFile
                            ==> plan_spec(rest[j]) == plan_spec(es[j + 1]) && target_of(
                            plan_spec(es[j + 1]),
                        ) != target_of(plan_spec(es[i])));
                }
            }
        }
    }
}

} // verus!
