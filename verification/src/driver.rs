//! The ingestion driver: per-entry planning and per-field batch policy.
//!
//! Each uploaded field is decompressed and parsed, and every entry is
//! planned into one filesystem action. The caller performs the actions
//! in archive order and reports each outcome back; a failed directory
//! creation aborts the rest of the field, while a failed file write or a
//! rejected path fails that entry alone. The library decides, the caller
//! executes: no filesystem call lives here.

use vstd::prelude::*;
use crate::container::ArchiveEntry;
use crate::container::EntryKind;
use crate::container::EntryModel;
use crate::container::parse_archive;
use crate::container::parse_spec;
use crate::container::views_of;
use crate::gzip::gunzip;
use crate::gzip::gzip_decompress;
use crate::paths::resolve_path;
use crate::paths::resolve_spec;

verus! {

/// The filesystem action one archive entry calls for.
pub enum Action {
    /// Create the directory and its missing ancestors.
    MakeDir { target: Vec<Vec<u8>> },
    /// Create missing parent directories, then write the payload to the
    /// target, overwriting anything already there.
    WriteFile { target: Vec<Vec<u8>>, data: Vec<u8> },
    /// The entry's kind is neither regular nor directory: no action.
    Skip,
    /// The declared path violates containment: no action, the entry is
    /// failed on its own.
    Reject,
}

/// Mathematical model of a planned action.
pub ghost enum ActionModel {
    MakeDir { target: Seq<Seq<u8>> },
    WriteFile { target: Seq<Seq<u8>>, data: Seq<u8> },
    Skip,
    Reject,
}

impl View for Action {
    type V = ActionModel;

    open spec fn view(&self) -> ActionModel {
        match self {
            Action::MakeDir { target } => ActionModel::MakeDir { target: target.deep_view() },
            Action::WriteFile { target, data } => ActionModel::WriteFile {
                target: target.deep_view(),
                data: data@,
            },
            Action::Skip => ActionModel::Skip,
            Action::Reject => ActionModel::Reject,
        }
    }
}

/// The target a directory or file action creates.
pub open spec fn target_of(a: ActionModel) -> Seq<Seq<u8>> {
    match a {
        ActionModel::MakeDir { target } => target,
        ActionModel::WriteFile { target, .. } => target,
        _ => seq![],
    }
}

/// The bytes a file action writes.
pub open spec fn data_of(a: ActionModel) -> Seq<u8> {
    match a {
        ActionModel::WriteFile { data, .. } => data,
        _ => seq![],
    }
}

/// The action an entry is planned into: ignored kinds are skipped,
/// unresolvable paths are rejected, and a resolvable regular file or
/// directory becomes a write or a directory creation at its resolved
/// target.
pub open spec fn plan_spec(e: EntryModel) -> ActionModel {
    if e.kind is Other {
        ActionModel::Skip
    } else {
        match resolve_spec(e.path) {
            None => ActionModel::Reject,
            Some(t) => if e.kind is Regular {
                ActionModel::WriteFile { target: t, data: e.data }
            } else {
                ActionModel::MakeDir { target: t }
            },
        }
    }
}

/// Plans one entry into its filesystem action.
pub fn plan_entry(e: ArchiveEntry) -> (a: Action)
    ensures
        a@ == plan_spec(e@),
{
    match e.kind {
        EntryKind::Other => Action::Skip,
        EntryKind::Regular => match resolve_path(&e.path) {
            None => Action::Reject,
            Some(t) => Action::WriteFile { target: t, data: e.data },
        },
        EntryKind::Directory => match resolve_path(&e.path) {
            None => Action::Reject,
            Some(t) => Action::MakeDir { target: t },
        },
    }
}

/// Containment of every planned write: whatever the declared path of an
/// entry holds — traversal components, an absolute prefix, redundant
/// separators — an action that touches the filesystem is only ever
/// planned at a confined target, so joining its components under the
/// destination root names a strict descendant of the root. Escaping
/// paths are rejected and produce no action at all.
pub proof fn lemma_plan_confined(e: EntryModel)
    ensures
        plan_spec(e) is MakeDir ==> crate::paths::confined(target_of(plan_spec(e))),
        plan_spec(e) is WriteFile ==> crate::paths::confined(target_of(plan_spec(e))),
{
    crate::paths::lemma_resolve_confined(e.path);
}

/// Whether the field goes on after an entry whose plan was `a` and whose
/// filesystem outcome was `ok`: only a failed directory creation aborts
/// the remaining entries; a failed file write, a rejected path and a
/// skipped entry all let the next entry be attempted.
pub open spec fn continues(a: ActionModel, ok: bool) -> bool {
    !(a is MakeDir && !ok)
}

/// Decides whether the field goes on after one performed action.
pub fn continue_after(a: &Action, ok: bool) -> (c: bool)
    ensures
        c == continues(a@, ok),
{
    match a {
        Action::MakeDir { .. } => ok,
        _ => true,
    }
}

/// Terminal state of one entry after its field was processed.
#[derive(Clone, Copy, PartialEq, Eq, Structural, Debug)]
pub enum EntryStatus {
    /// Content or directory written.
    Done,
    /// Ignored entry kind: no filesystem effect; counts as done for the
    /// batch.
    Skipped,
    /// Path violation, or a filesystem failure on this entry alone.
    Failed,
    /// Never attempted: an earlier directory-creation failure aborted
    /// the rest of the field.
    NotAttempted,
}

/// The status of every entry of a field, given the entries and the
/// outcome the filesystem reported for each performed action
/// (`outs[i]` is read only where entry `i`'s plan performs an action).
pub open spec fn statuses_spec(es: Seq<EntryModel>, outs: Seq<bool>) -> Seq<EntryStatus>
    decreases es.len(),
{
    if es.len() == 0 {
        seq![]
    } else {
        let a = plan_spec(es[0]);
        let rest = statuses_spec(es.drop_first(), outs.drop_first());
        match a {
            ActionModel::Skip => seq![EntryStatus::Skipped] + rest,
            ActionModel::Reject => seq![EntryStatus::Failed] + rest,
            ActionModel::WriteFile { .. } => seq![
                if outs[0] {
                    EntryStatus::Done
                } else {
                    EntryStatus::Failed
                },
            ] + rest,
            ActionModel::MakeDir { .. } => if outs[0] {
                seq![EntryStatus::Done] + rest
            } else {
                seq![EntryStatus::Failed] + Seq::new(
                    (es.len() - 1) as nat,
                    |i: int| EntryStatus::NotAttempted,
                )
            },
        }
    }
}

proof fn lemma_statuses_len(es: Seq<EntryModel>, outs: Seq<bool>)
    ensures
        statuses_spec(es, outs).len() == es.len(),
    decreases es.len(),
{
    if es.len() != 0 {
        lemma_statuses_len(es.drop_first(), outs.drop_first());
    }
}

/// Replays a field against the outcomes the filesystem reported,
/// yielding the terminal status of every entry under the batch policy:
/// a directory-creation failure aborts the rest of the field, any other
/// failure is confined to its entry.
pub fn run_field(entries: &Vec<ArchiveEntry>, outcomes: &Vec<bool>) -> (r: Vec<EntryStatus>)
    requires
        entries@.len() == outcomes@.len(),
    ensures
        r@ == statuses_spec(views_of(entries@), outcomes@),
{
    let ghost ves = views_of(entries@);
    let mut r: Vec<EntryStatus> = Vec::new();
    let mut aborted: bool = false;
    let mut i: usize = 0;
    proof {
        assert(ves.skip(0) =~= ves);
        assert(outcomes@.skip(0) =~= outcomes@);
        assert(r@ + statuses_spec(ves, outcomes@) =~= statuses_spec(ves, outcomes@));
    }
    while i < entries.len()
        invariant
            i <= entries@.len(),
            entries@.len() == outcomes@.len(),
            ves == views_of(entries@),
            r@.len() == i,
            !aborted ==> statuses_spec(ves, outcomes@) == r@ + statuses_spec(
                ves.skip(i as int),
                outcomes@.skip(i as int),
            ),
            aborted ==> statuses_spec(ves, outcomes@) == r@ + Seq::new(
                (ves.len() - i) as nat,
                |k: int| EntryStatus::NotAttempted,
            ),
        decreases entries@.len() - i,
    {
        let ghost tail_es = ves.skip(i as int);
        let ghost tail_outs = outcomes@.skip(i as int);
        proof {
            assert(tail_es.len() > 0);
            assert(tail_es[0] == ves[i as int]);
            assert(tail_es.drop_first() =~= ves.skip(i as int + 1));
            assert(tail_outs.drop_first() =~= outcomes@.skip(i as int + 1));
        }
        if aborted {
            r.push(EntryStatus::NotAttempted);
            proof {
                assert(r@ + Seq::new((ves.len() - i - 1) as nat, |k: int| EntryStatus::NotAttempted)
                    =~= r@.drop_last() + Seq::new(
                    (ves.len() - i) as nat,
                    |k: int| EntryStatus::NotAttempted,
                ));
            }
        } else {
            let e = &entries[i];
            proof {
                assert(e@ == ves[i as int]);
            }
            let ok = outcomes[i];
            match e.kind {
                EntryKind::Other => {
                    r.push(EntryStatus::Skipped);
                },
                EntryKind::Regular => match resolve_path(&e.path) {
                    None => {
                        r.push(EntryStatus::Failed);
                    },
                    Some(_) => {
                        r.push(
                            if ok {
                                EntryStatus::Done
                            } else {
                                EntryStatus::Failed
                            },
                        );
                    },
                },
                EntryKind::Directory => match resolve_path(&e.path) {
                    None => {
                        r.push(EntryStatus::Failed);
                    },
                    Some(_) => {
                        if ok {
                            r.push(EntryStatus::Done);
                        } else {
                            r.push(EntryStatus::Failed);
                            aborted = true;
                            proof {
                                lemma_statuses_len(tail_es.drop_first(), tail_outs.drop_first());
                            }
                        }
                    },
                },
            }
            proof {
                assert(statuses_spec(tail_es, tail_outs) == seq![r@.last()] + (if aborted {
                    Seq::new((ves.len() - i - 1) as nat, |k: int| EntryStatus::NotAttempted)
                } else {
                    statuses_spec(tail_es.drop_first(), tail_outs.drop_first())
                }));
            }
        }
        i = i + 1;
    }
    proof {
        if !aborted {
            assert(ves.skip(i as int) =~= Seq::<EntryModel>::empty());
            assert(outcomes@.skip(i as int) =~= Seq::<bool>::empty());
        }
        assert(r@ =~= statuses_spec(ves, outcomes@));
    }
    r
}

/// A directory-creation failure aborts the field: when entry `n` is the
/// first directory creation the filesystem refuses, entry `n` is failed,
/// every entry before it keeps its own terminal status, and no entry
/// after it is attempted.
pub proof fn lemma_dir_failure_aborts(es: Seq<EntryModel>, outs: Seq<bool>, n: int)
    requires
        es.len() == outs.len(),
        0 <= n < es.len(),
        plan_spec(es[n]) is MakeDir,
        !outs[n],
        forall|j: int| 0 <= j < n ==> !((#[trigger] plan_spec(es[j])) is MakeDir && !outs[j]),
    ensures
        statuses_spec(es, outs).len() == es.len(),
        statuses_spec(es, outs)[n] == EntryStatus::Failed,
        forall|k: int| n < k < es.len() ==> statuses_spec(es, outs)[k] == EntryStatus::NotAttempted,
        forall|k: int|
            0 <= k < n ==> statuses_spec(es, outs)[k] != EntryStatus::NotAttempted,
    decreases es.len(),
{
    lemma_statuses_len(es, outs);
    let s = statuses_spec(es, outs);
    if n == 0 {
        assert(s == seq![EntryStatus::Failed] + Seq::new(
            (es.len() - 1) as nat,
            |i: int| EntryStatus::NotAttempted,
        ));
    } else {
        let rest = statuses_spec(es.drop_first(), outs.drop_first());
        lemma_statuses_len(es.drop_first(), outs.drop_first());
        assert(es.drop_first()[n - 1] == es[n]);
        assert(forall|j: int|
            0 <= j < n - 1 ==> #[trigger] es.drop_first()[j] == es[j + 1] && outs.drop_first()[j]
                == outs[j + 1]);
        lemma_dir_failure_aborts(es.drop_first(), outs.drop_first(), n - 1);
        let a = plan_spec(es[0]);
        assert(!(a is MakeDir && !outs[0]));
        let head = if a is Skip {
            EntryStatus::Skipped
        } else if a is Reject {
            EntryStatus::Failed
        } else if outs[0] {
            EntryStatus::Done
        } else {
            EntryStatus::Failed
        };
        assert(s == seq![head] + rest);
        assert(head != EntryStatus::NotAttempted);
        assert(forall|k: int| 1 <= k < es.len() ==> #[trigger] s[k] == rest[k - 1]);
    }
}

/// A file-write failure is confined to its entry: the status of every
/// other entry of the field is the same whether the write of entry `n`
/// succeeded or failed.
pub proof fn lemma_file_failure_isolated(es: Seq<EntryModel>, outs1: Seq<bool>, outs2: Seq<bool>, n: int)
    requires
        es.len() == outs1.len(),
        es.len() == outs2.len(),
        0 <= n < es.len(),
        plan_spec(es[n]) is WriteFile,
        forall|j: int| 0 <= j < es.len() && j != n ==> outs1[j] == outs2[j],
    ensures
        forall|k: int|
            0 <= k < es.len() && k != n ==> statuses_spec(es, outs1)[k] == statuses_spec(
                es,
                outs2,
            )[k],
    decreases es.len(),
{
    let s1 = statuses_spec(es, outs1);
    let s2 = statuses_spec(es, outs2);
    let r1 = statuses_spec(es.drop_first(), outs1.drop_first());
    let r2 = statuses_spec(es.drop_first(), outs2.drop_first());
    let a = plan_spec(es[0]);
    lemma_statuses_len(es.drop_first(), outs1.drop_first());
    lemma_statuses_len(es.drop_first(), outs2.drop_first());
    if n == 0 {
        assert(outs1.drop_first() =~= outs2.drop_first());
        assert(s1 == seq![
            if outs1[0] {
                EntryStatus::Done
            } else {
                EntryStatus::Failed
            },
        ] + r1);
        assert(s2 == seq![
            if outs2[0] {
                EntryStatus::Done
            } else {
                EntryStatus::Failed
            },
        ] + r2);
        assert forall|k: int| 0 <= k < es.len() && k != n implies s1[k] == s2[k] by {
            assert(s1[k] == r1[k - 1]);
            assert(s2[k] == r2[k - 1]);
        }
    } else {
        assert(forall|j: int|
            0 <= j < es.len() - 1 && j != n - 1 ==> #[trigger] outs1.drop_first()[j]
                == outs2.drop_first()[j]);
        assert(es.drop_first()[n - 1] == es[n]);
        lemma_file_failure_isolated(es.drop_first(), outs1.drop_first(), outs2.drop_first(), n - 1);
        assert(outs1[0] == outs2[0]);
        if a is MakeDir && !outs1[0] {
            let filler = Seq::new((es.len() - 1) as nat, |i: int| EntryStatus::NotAttempted);
            assert(s1 == seq![EntryStatus::Failed] + filler);
            assert(s2 == seq![EntryStatus::Failed] + filler);
        } else {
            let head = if a is Skip {
                EntryStatus::Skipped
            } else if a is Reject {
                EntryStatus::Failed
            } else if outs1[0] {
                EntryStatus::Done
            } else {
                EntryStatus::Failed
            };
            assert(s1 == seq![head] + r1);
            assert(s2 == seq![head] + r2);
            assert forall|k: int| 0 <= k < es.len() && k != n implies s1[k] == s2[k] by {
                if k >= 1 {
                    assert(s1[k] == r1[k - 1]);
                    assert(s2[k] == r2[k - 1]);
                    assert(r1[k - 1] == r2[k - 1]);
                }
            }
        }
    }
}

/// Why a field failed, when it did.
#[derive(Clone, Copy, PartialEq, Eq, Structural, Debug)]
pub enum FieldError {
    /// The payload is not a valid gzip stream; no entry was produced and
    /// nothing is written for this field.
    DecompressionError,
    /// A malformed header or truncated payload ended parsing; the
    /// entries parsed before it are kept and processed.
    ContainerParseError,
}

/// The entries read out of one uploaded field, in archive order, and the
/// error that ended the field's parse, if one did.
pub struct FieldRead {
    pub entries: Vec<ArchiveEntry>,
    pub error: Option<FieldError>,
}

/// What reading one field's payload must yield. A corrupt gzip stream
/// yields no entries and a decompression error; a valid one yields
/// exactly the parse of its decompressed bytes, with a container error
/// exactly when that parse ended at a malformed or truncated entry.
pub open spec fn field_read_ok(data: Seq<u8>, r: FieldRead) -> bool {
    &&& gunzip(data) is None ==> r.error == Some(FieldError::DecompressionError)
        && r.entries@.len() == 0
    &&& gunzip(data) is Some ==> {
        &&& views_of(r.entries@) == parse_spec(gunzip(data).unwrap()).0
        &&& r.error == (if parse_spec(gunzip(data).unwrap()).1 {
            None::<FieldError>
        } else {
            Some(FieldError::ContainerParseError)
        })
    }
}

/// Decompresses and parses one uploaded field.
pub fn read_field(data: &Vec<u8>) -> (r: FieldRead)
    ensures
        field_read_ok(data@, r),
{
    match gzip_decompress(data) {
        None => FieldRead { entries: Vec::new(), error: Some(FieldError::DecompressionError) },
        Some(tar_bytes) => {
            let parsed = parse_archive(&tar_bytes);
            FieldRead {
                entries: parsed.0,
                error: if parsed.1 {
                    None
                } else {
                    Some(FieldError::ContainerParseError)
                },
            }
        },
    }
}

/// Reads every field of one upload. Fields are independent: what each
/// yields is a function of its own payload alone, so a corrupt field
/// never affects the fields after it.
pub fn read_fields(fields: &Vec<Vec<u8>>) -> (r: Vec<FieldRead>)
    ensures
        r@.len() == fields@.len(),
        forall|i: int| 0 <= i < fields@.len() ==> field_read_ok(fields@[i]@, #[trigger] r@[i]),
{
    let mut r: Vec<FieldRead> = Vec::new();
    let mut i: usize = 0;
    while i < fields.len()
        invariant
            i <= fields@.len(),
            r@.len() == i,
            forall|j: int| 0 <= j < i ==> field_read_ok(fields@[j]@, #[trigger] r@[j]),
        decreases fields@.len() - i,
    {
        let one = read_field(&fields[i]);
        r.push(one);
        i = i + 1;
    }
    r
}

} // verus!
