//! What the user reads where rows or columns cannot be inserted or deleted.
use vstd::prelude::*;
use crate::edit_cols::{spec_issue, spec_views, specs_issue, SpecV};
use crate::edit_laws::{insertable, lemma_insertable, refused_as, sendable};
use crate::number::NumeralsV;
use crate::outcome::EditJob;
use crate::serve::edit_outcome;
use crate::table::TableV;
use crate::text::decimal;

verus! {

/// The words of the first issue of a refused edit.
pub open spec fn words(
    t: TableV,
    num: NumeralsV,
    job: EditJob,
    w: Result<Seq<u8>, Seq<char>>,
) -> Seq<char> {
    edit_outcome(t, num, job, w)->Err_0->Validation_0[0].message
}

/// Rows that cannot be inserted or deleted are refused with their place and number, and with the
/// size of the table where that is what they miss.
pub proof fn law_refused_rows_are_named(
    t: TableV,
    num: NumeralsV,
    job: EditJob,
    w: Result<Seq<u8>, Seq<char>>,
)
    requires
        t.wf(),
        t.supported(),
        sendable(w),
        job.edit is InsertRows || job.edit is DeleteRows,
        edit_outcome(t, num, job, w) is Err,
    ensures
        job.edit is InsertRows ==> ({
            let at = job.edit->InsertRows_at;
            let n = job.edit->InsertRows_count;
            words(t, num, job, w) == if n == 0 || at > t.rows {
                "insert_rows at "@ + decimal(at as nat) + " count "@ + decimal(n as nat)
                    + ": 'at' must name a row inside the "@ + decimal(t.rows)
                    + "-row extent and 'count' be positive"@
            } else {
                "insert_rows at "@ + decimal(at as nat) + " count "@ + decimal(n as nat)
                    + " overflows the extent"@
            }
        }),
        job.edit is DeleteRows ==> ({
            let at = job.edit->DeleteRows_at;
            let n = job.edit->DeleteRows_count;
            words(t, num, job, w) == if at + n > t.rows {
                "delete_rows at "@ + decimal(at as nat) + " count "@ + decimal(n as nat)
                    + ": the window exceeds the "@ + decimal(t.rows) + "-row extent"@
            } else {
                "delete_rows at "@ + decimal(at as nat) + " count 0: nothing to delete"@
            }
        }),
{
    crate::serve::lemma_supported(t.fields);
}

/// Columns that cannot be deleted are refused with their place and number, and with the number
/// of columns of the table where that is what they miss. One column has to stay.
pub proof fn law_refused_deletions_are_named(
    t: TableV,
    num: NumeralsV,
    job: EditJob,
    w: Result<Seq<u8>, Seq<char>>,
)
    requires
        t.wf(),
        t.supported(),
        t.fields.len() <= u64::MAX,
        sendable(w),
        job.edit is DeleteCols,
        edit_outcome(t, num, job, w) is Err,
    ensures
        ({
            let at = job.edit->DeleteCols_at;
            let n = job.edit->DeleteCols_count;
            words(t, num, job, w) == if at + n > t.fields.len() {
                "delete_cols at "@ + decimal(at as nat) + " count "@ + decimal(n as nat)
                    + ": the window exceeds the "@ + decimal(t.fields.len()) + "-column extent"@
            } else if n == 0 {
                "delete_cols at "@ + decimal(at as nat) + " count 0: nothing to delete"@
            } else {
                "delete_cols at "@ + decimal(at as nat) + " count "@ + decimal(n as nat)
                    + ": a dataset must keep at least one column"@
            }
        }),
{
    crate::serve::lemma_supported(t.fields);
}

/// Columns that cannot be inserted where they should go are refused with the place and their
/// number. One that cannot be inserted for what it is like is named: the first such one, with its
/// unknown type, or because it is a scale with levels; otherwise it lists a level twice.
pub proof fn law_refused_insertions_are_named(
    t: TableV,
    num: NumeralsV,
    job: EditJob,
    w: Result<Seq<u8>, Seq<char>>,
    i: int,
)
    requires
        t.wf(),
        t.supported(),
        t.fields.len() <= u64::MAX,
        job.edit is InsertCols,
        job.edit->columns@.len() <= u64::MAX,
        edit_outcome(t, num, job, w) is Err,
        0 <= i,
        forall|k: int|
            0 <= k < i && k < job.edit->columns@.len() ==> insertable(
                #[trigger] job.edit->columns@[k],
            ),
    ensures
        ({
            let at = job.edit->InsertCols_at;
            let n = job.edit->columns@.len();
            let s = job.edit->columns@[i];
            let issue = edit_outcome(t, num, job, w)->Err_0->Validation_0[0];
            if n == 0 || at > t.fields.len() {
                words(t, num, job, w) == "insert_cols at "@ + decimal(at as nat) + " with "@
                    + decimal(n) + " columns: 'at' must name a position inside the "@ + decimal(
                    t.fields.len(),
                ) + "-column extent and the spec list be non-empty"@
            } else {
                t.fields.len() + n <= usize::MAX && i < n && !insertable(s) ==> {
                    &&& issue.column == Some(s.name@)
                    &&& s.column_type is Some && s.column_type->0@ != "scale"@
                        && s.column_type->0@ != "ordinal"@ && s.column_type->0@ != "nominal"@
                        ==> issue.message == "unknown column type '"@ + s.column_type->0@
                        + "' (scale | ordinal | nominal)"@
                    &&& s.column_type is Some && s.column_type->0@ == "scale"@ && s.levels is Some
                        && s.levels->0@.len() > 0 ==> issue.message
                        == "a scale column has no label list"@
                }
            }
        }),
{
    crate::serve::lemma_supported(t.fields);
    crate::edit_laws::lemma_types_differ();
    let v = job.edit->columns@;
    if i < v.len() && !insertable(v[i]) {
        let s = spec_views(v);
        assert forall|k: int| 0 <= k < i implies spec_issue(#[trigger] s[k]) is None by {
            lemma_insertable(v[k]);
            assert(insertable(v[k]));
            assert(s[k] == v[k]@);
        }
        lemma_insertable(v[i]);
        assert(s[i] == v[i]@);
        lemma_first_spec(s, i);
    }
}

proof fn lemma_first_spec(s: Seq<SpecV>, i: int)
    requires
        0 <= i < s.len(),
        forall|k: int| 0 <= k < i ==> spec_issue(#[trigger] s[k]) is None,
        spec_issue(s[i]) is Some,
    ensures
        specs_issue(s) == spec_issue(s[i]),
    decreases s.len(),
{
    let d = s.drop_last();
    if i < d.len() {
        assert forall|k: int| 0 <= k < i implies spec_issue(#[trigger] d[k]) is None by {
            assert(s[k] == d[k]);
        }
        assert(d[i] == s[i]);
        lemma_first_spec(d, i);
    } else {
        assert forall|k: int| 0 <= k < d.len() implies spec_issue(#[trigger] d[k]) is None by {
            assert(s[k] == d[k]);
        }
        lemma_no_issue(d);
    }
}

proof fn lemma_no_issue(s: Seq<SpecV>)
    requires
        forall|k: int| 0 <= k < s.len() ==> spec_issue(#[trigger] s[k]) is None,
    ensures
        specs_issue(s) is None,
    decreases s.len(),
{
    if s.len() > 0 {
        let d = s.drop_last();
        assert forall|k: int| 0 <= k < d.len() implies spec_issue(#[trigger] d[k]) is None by {
            assert(s[k] == d[k]);
        }
        lemma_no_issue(d);
        let m = s.len() - 1;
        assert(s[m] == s.last());
    }
}

/// An inverse of a later revision than the edit that applies it is refused as stale; one of an
/// unknown format fails underneath.
pub proof fn law_inverses_may_be_stale(
    t: TableV,
    num: NumeralsV,
    job: EditJob,
    w: Result<Seq<u8>, Seq<char>>,
)
    requires
        t.supported(),
        job.edit is ApplyInverse,
    ensures
        ({
            let m = job.edit->inverse@;
            let x = edit_outcome(t, num, job, w);
            &&& m.format != "arrow_ipc_v1"@ ==> x is Err && x->Err_0 is Fatal
            &&& m.format == "arrow_ipc_v1"@ && m.base_revision > job.revision ==> x is Err
                && refused_as(x->Err_0, "stale_edit"@)
        }),
{
    crate::serve::lemma_supported(t.fields);
}

} // verus!
