//! What rows and columns look like after they were inserted or deleted, cell by cell.
use vstd::prelude::*;
use vstd::string::*;
use crate::capture::INVERSE_CEILING;
use crate::edit_cols::{
    delete_cols_outcome, field_names, insert_cols_outcome, inserted_names, lemma_names_len, lemma_specs_at, spec_issue,
    spec_views, specs_issue, SpecV,
};
use crate::edit_rows::delete_rows_outcome;
use crate::messages::{FailureV, NewColumnSpec};
use crate::names::{base_name, law_new_name_is_free, law_new_name_is_least, new_name, numbered};
use crate::number::NumeralsV;
use crate::outcome::EditJob;
use crate::serve::{edit_outcome, lemma_supported};
use crate::table::{KindV, TableV, MAX_ROWS};
use crate::text::{decimal, distinct, texts};

verus! {

/// A physical type is the one that a wire name stands for: a scale holds numbers, an ordinal
/// has ordered levels, a nominal has levels without an order.
pub open spec fn is_of_type(kind: KindV, name: Seq<char>) -> bool {
    match kind {
        KindV::Float64 => name == "scale"@,
        KindV::Dictionary { ordered } => name == if ordered {
            "ordinal"@
        } else {
            "nominal"@
        },
        KindV::Other(_) => false,
    }
}

/// The three wire names differ.
pub proof fn lemma_types_differ()
    ensures
        "scale"@ != "ordinal"@,
        "scale"@ != "nominal"@,
        "ordinal"@ != "nominal"@,
{
    reveal_strlit("scale");
    reveal_strlit("ordinal");
    reveal_strlit("nominal");
    assert("scale"@[0] == 's' && "ordinal"@[0] == 'o' && "nominal"@[0] == 'n');
}

/// An edit is refused with one issue of a kind.
pub open spec fn refused_as(f: FailureV, code: Seq<char>) -> bool {
    f is Validation && f->Validation_0.len() == 1 && f->Validation_0[0].code == code
}

/// The columns that an inverse restores can be written and are not too large to be sent.
pub open spec fn sendable(w: Result<Seq<u8>, Seq<char>>) -> bool {
    w is Ok && w->Ok_0.len() <= INVERSE_CEILING
}

/// Rows can be inserted at any row or at the end, as long as there is room; then they are null
/// rows, the rows before them stay, those behind them move down, and the columns stay what they
/// are. The rows from there on are stale.
#[verifier::rlimit(60)]
pub proof fn law_inserted_rows_are_null(
    t: TableV,
    num: NumeralsV,
    job: EditJob,
    w: Result<Seq<u8>, Seq<char>>,
    j: int,
    r: int,
)
    requires
        t.wf(),
        t.supported(),
        job.edit is InsertRows,
    ensures
        ({
            let at = job.edit->InsertRows_at as int;
            let n = job.edit->InsertRows_count as int;
            let x = edit_outcome(t, num, job, w);
            let o = x->Ok_0;
            let g = o.table;
            &&& x is Ok <==> n > 0 && at <= t.rows && t.rows + n <= MAX_ROWS
            &&& x is Ok ==> {
                &&& g.fields == t.fields
                &&& g.dicts == t.dicts
                &&& g.rows == t.rows + n
                &&& o.rows == t.rows + n
                &&& g.cols.len() == t.cols.len()
                &&& o.schema is None
                &&& o.bytes.len() == 0
                &&& o.invalidation.all is None
                &&& o.invalidation.rows_from == Some(at as u64)
                &&& o.invalidation.rows_to is None
                &&& 0 <= j < t.cols.len() ==> g.cols[j].len() == t.rows + n
                &&& 0 <= j < t.cols.len() && 0 <= r < t.rows + n ==> g.cols[j][r] == if r < at {
                    t.cols[j][r]
                } else if r < at + n {
                    None
                } else {
                    t.cols[j][r - n]
                }
            }
            &&& x is Err ==> refused_as(x->Err_0, "range"@)
        }),
{
    lemma_supported(t.fields);
}

/// Rows can be deleted where there are that many; the rows before them stay and those behind
/// them move up. The rows from there on are stale.
#[verifier::rlimit(60)]
pub proof fn law_deleted_rows_are_gone(
    t: TableV,
    num: NumeralsV,
    job: EditJob,
    w: Result<Seq<u8>, Seq<char>>,
    j: int,
    r: int,
)
    requires
        t.wf(),
        t.supported(),
        job.edit is DeleteRows,
    ensures
        ({
            let at = job.edit->DeleteRows_at as int;
            let n = job.edit->DeleteRows_count as int;
            let x = edit_outcome(t, num, job, w);
            let o = x->Ok_0;
            let g = o.table;
            &&& x is Ok <==> sendable(w) && n > 0 && at + n <= t.rows
            &&& x is Ok ==> {
                &&& g.fields == t.fields
                &&& g.dicts == t.dicts
                &&& g.rows == t.rows - n
                &&& o.rows == t.rows - n
                &&& o.bytes == w->Ok_0
                &&& g.cols.len() == t.cols.len()
                &&& o.schema is Some
                &&& o.invalidation.all is None
                &&& o.invalidation.rows_from == Some(at as u64)
                &&& o.invalidation.rows_to is None
                &&& 0 <= j < t.cols.len() ==> g.cols[j].len() == t.rows - n
                &&& 0 <= j < t.cols.len() && 0 <= r < t.rows - n ==> g.cols[j][r] == if r < at {
                    t.cols[j][r]
                } else {
                    t.cols[j][r + n]
                }
            }
            &&& x is Err && sendable(w) ==> refused_as(x->Err_0, "range"@)
        }),
{
    lemma_supported(t.fields);
    lemma_deleted_rows_are_gone(
        t,
        num,
        job.edit->DeleteRows_at,
        job.edit->DeleteRows_count,
        job.revision,
        w,
        j,
        r,
    );
}

proof fn lemma_deleted_rows_are_gone(
    t: TableV,
    num: NumeralsV,
    at: u64,
    n: u64,
    revision: u64,
    w: Result<Seq<u8>, Seq<char>>,
    j: int,
    r: int,
)
    requires
        t.wf(),
    ensures
        ({
            let x = delete_rows_outcome(t, num, at, n, revision, w);
            let o = x->Ok_0;
            let g = o.table;
            &&& x is Ok <==> sendable(w) && n > 0 && at + n <= t.rows
            &&& x is Ok ==> {
                &&& g.fields == t.fields
                &&& g.dicts == t.dicts
                &&& g.rows == t.rows - n
                &&& o.rows == t.rows - n
                &&& o.bytes == w->Ok_0
                &&& g.cols.len() == t.cols.len()
                &&& o.schema is Some
                &&& o.invalidation.all is None
                &&& o.invalidation.rows_from == Some(at)
                &&& o.invalidation.rows_to is None
                &&& 0 <= j < t.cols.len() ==> g.cols[j].len() == t.rows - n
                &&& 0 <= j < t.cols.len() && 0 <= r < t.rows - n ==> g.cols[j][r] == if r < at {
                    t.cols[j][r]
                } else {
                    t.cols[j][r + n]
                }
            }
            &&& x is Err && sendable(w) ==> refused_as(x->Err_0, "range"@)
        }),
{
}

/// Columns can be deleted where there are that many and one is left; the columns before them
/// and behind them stay what they are. Everything is stale.
#[verifier::rlimit(60)]
pub proof fn law_deleted_columns_are_gone(
    t: TableV,
    num: NumeralsV,
    job: EditJob,
    w: Result<Seq<u8>, Seq<char>>,
    j: int,
)
    requires
        t.wf(),
        t.supported(),
        job.edit is DeleteCols,
    ensures
        ({
            let at = job.edit->DeleteCols_at as int;
            let n = job.edit->DeleteCols_count as int;
            let x = edit_outcome(t, num, job, w);
            let o = x->Ok_0;
            let g = o.table;
            let from = if j < at {
                j
            } else {
                j + n
            };
            &&& x is Ok <==> sendable(w) && n > 0 && at + n <= t.fields.len() && n < t.fields.len()
            &&& x is Ok ==> {
                &&& g.rows == t.rows
                &&& o.rows == t.rows
                &&& o.bytes == w->Ok_0
                &&& o.schema is Some
                &&& o.invalidation.all == Some(true)
                &&& g.fields.len() == t.fields.len() - n
                &&& g.dicts.len() == g.fields.len()
                &&& g.cols.len() == g.fields.len()
                &&& 0 <= j < g.fields.len() ==> g.fields[j] == t.fields[from] && g.dicts[j]
                    == t.dicts[from] && g.cols[j] == t.cols[from]
            }
            &&& x is Err && sendable(w) ==> refused_as(x->Err_0, "range"@)
        }),
{
    lemma_supported(t.fields);
    lemma_deleted_columns_are_gone(
        t,
        num,
        job.edit->DeleteCols_at,
        job.edit->DeleteCols_count,
        job.revision,
        w,
        j,
    );
}

proof fn lemma_deleted_columns_are_gone(
    t: TableV,
    num: NumeralsV,
    at: u64,
    n: u64,
    revision: u64,
    w: Result<Seq<u8>, Seq<char>>,
    j: int,
)
    requires
        t.wf(),
    ensures
        ({
            let x = delete_cols_outcome(t, num, at, n, revision, w);
            let o = x->Ok_0;
            let g = o.table;
            let from = if j < at {
                j
            } else {
                j + n
            };
            &&& x is Ok <==> sendable(w) && n > 0 && at + n <= t.fields.len() && n < t.fields.len()
            &&& x is Ok ==> {
                &&& g.rows == t.rows
                &&& o.rows == t.rows
                &&& o.bytes == w->Ok_0
                &&& o.schema is Some
                &&& o.invalidation.all == Some(true)
                &&& g.fields.len() == t.fields.len() - n
                &&& g.dicts.len() == g.fields.len()
                &&& g.cols.len() == g.fields.len()
                &&& 0 <= j < g.fields.len() ==> g.fields[j] == t.fields[from] && g.dicts[j]
                    == t.dicts[from] && g.cols[j] == t.cols[from]
            }
            &&& x is Err && sendable(w) ==> refused_as(x->Err_0, "range"@)
        }),
{
}

/// A column can be inserted: its type, if it names one, is known, a scale has no levels, and no
/// level is listed twice.
pub open spec fn insertable(s: NewColumnSpec) -> bool {
    &&& s.column_type is Some ==> s.column_type->0@ == "scale"@ || s.column_type->0@ == "ordinal"@
        || s.column_type->0@ == "nominal"@
    &&& s.levels is Some ==> distinct(texts(s.levels->0@)) && !(s.levels->0@.len() > 0
        && s.column_type is Some && s.column_type->0@ == "scale"@)
}

pub proof fn lemma_insertable(s: NewColumnSpec)
    ensures
        insertable(s) <==> spec_issue(s@) is None,
{
    lemma_types_differ();
    if s.levels is Some {
        crate::text::lemma_first_repeat(texts(s.levels->0@));
    }
}

proof fn lemma_all_insertable(v: Seq<NewColumnSpec>)
    ensures
        (forall|i: int| 0 <= i < v.len() ==> insertable(#[trigger] v[i])) <==> specs_issue(
            spec_views(v),
        ) is None,
    decreases v.len(),
{
    let s = spec_views(v);
    if v.len() > 0 {
        assert(s.drop_last() =~= spec_views(v.drop_last()));
        lemma_all_insertable(v.drop_last());
        lemma_insertable(v.last());
        assert(s.last() == v.last()@);
        assert forall|i: int| 0 <= i < v.len() - 1 implies v.drop_last()[i] == v[i] by {}
        if specs_issue(s) is None {
            assert forall|i: int| 0 <= i < v.len() implies insertable(#[trigger] v[i]) by {
                if i < v.len() - 1 {
                    assert(insertable(v.drop_last()[i]));
                }
            }
        }
    }
}

/// Columns can be inserted before any column or at the end; each must be one that can be.
/// Everything is stale.
#[verifier::rlimit(60)]
pub proof fn law_columns_are_inserted_where_they_can_be(
    t: TableV,
    num: NumeralsV,
    job: EditJob,
    w: Result<Seq<u8>, Seq<char>>,
)
    requires
        t.wf(),
        t.supported(),
        job.edit is InsertCols,
    ensures
        ({
            let at = job.edit->InsertCols_at as int;
            let specs = job.edit->columns@;
            let x = edit_outcome(t, num, job, w);
            let o = x->Ok_0;
            &&& x is Ok <==> specs.len() > 0 && at <= t.fields.len() && t.fields.len()
                + specs.len() <= usize::MAX && forall|i: int|
                0 <= i < specs.len() ==> insertable(#[trigger] specs[i])
            &&& x is Ok ==> {
                &&& o.rows == t.rows
                &&& o.table.rows == t.rows
                &&& o.table.fields.len() == t.fields.len() + specs.len()
                &&& o.table.dicts.len() == o.table.fields.len()
                &&& o.table.cols.len() == o.table.fields.len()
                &&& o.schema is Some
                &&& o.bytes.len() == 0
                &&& o.invalidation.all == Some(true)
            }
            &&& x is Err ==> refused_as(
                x->Err_0,
                if specs.len() > 0 && at <= t.fields.len() && t.fields.len() + specs.len()
                    <= usize::MAX {
                    "schema_mismatch"@
                } else {
                    "range"@
                },
            )
        }),
{
    lemma_supported(t.fields);
    let specs = job.edit->columns@;
    lemma_all_insertable(specs);
    lemma_names_len(spec_views(specs), field_names(t), job.edit->InsertCols_at);
    lemma_refused(spec_views(specs));
}

proof fn lemma_refused(s: Seq<SpecV>)
    ensures
        specs_issue(s) is Some ==> refused_as(specs_issue(s)->0, "schema_mismatch"@),
    decreases s.len(),
{
    if s.len() > 0 {
        lemma_refused(s.drop_last());
    }
}

/// An inserted column is of the type that its description names, and a nominal where it names
/// none. Its cells are null, its levels are those of the description, in that order, and it is
/// shown under the name that the description gives, or else under its own.
#[verifier::rlimit(60)]
pub proof fn law_inserted_columns_are_as_described(
    t: TableV,
    num: NumeralsV,
    job: EditJob,
    w: Result<Seq<u8>, Seq<char>>,
    i: int,
)
    requires
        t.wf(),
        job.edit is InsertCols,
        edit_outcome(t, num, job, w) is Ok,
        0 <= i < job.edit->columns@.len(),
    ensures
        ({
            let g = edit_outcome(t, num, job, w)->Ok_0.table;
            let s = job.edit->columns@[i];
            let j = job.edit->InsertCols_at + i;
            let f = g.fields[j];
            &&& match s.column_type {
                Some(n) => is_of_type(f.kind, n@),
                None => is_of_type(f.kind, "nominal"@),
            }
            &&& f.display == match s.display_name {
                Some(d) => d@,
                None => f.name,
            }
            &&& f.labels =~= Map::<Seq<char>, Seq<char>>::empty()
            &&& !f.all_integer
            &&& g.dicts[j] =~= match s.levels {
                Some(v) => texts(v@),
                None => Seq::empty(),
            }
            &&& g.cols[j].len() == t.rows
            &&& forall|r: int| 0 <= r < t.rows ==> (#[trigger] g.cols[j][r]) is None
        }),
{
    lemma_types_differ();
    let specs = spec_views(job.edit->columns@);
    let at = job.edit->InsertCols_at;
    lemma_names_len(specs, field_names(t), at);
    lemma_specs_at(specs, i);
    assert(specs[i] == job.edit->columns@[i]@);
}

/// Every column that was there before an insertion is there after it, unchanged: those before
/// the place of the insertion where they were, the others moved by as many as were inserted.
#[verifier::rlimit(60)]
pub proof fn law_insertion_moves_columns(
    t: TableV,
    num: NumeralsV,
    job: EditJob,
    w: Result<Seq<u8>, Seq<char>>,
    j: int,
)
    requires
        t.wf(),
        job.edit is InsertCols,
        edit_outcome(t, num, job, w) is Ok,
        0 <= j < t.fields.len(),
    ensures
        ({
            let g = edit_outcome(t, num, job, w)->Ok_0.table;
            let k = if j < job.edit->InsertCols_at {
                j
            } else {
                j + job.edit->columns@.len()
            };
            g.fields[k] == t.fields[j] && g.dicts[k] == t.dicts[j] && g.cols[k] == t.cols[j]
        }),
{
    let specs = spec_views(job.edit->columns@);
    lemma_names_len(specs, field_names(t), job.edit->InsertCols_at);
}

/// A name that a column asked for and got: the one asked for, a `V` before one that is a number,
/// or a `V` and the place where none was asked for; and a number behind it, from two on, only
/// where the lower ones, and the name without one, were taken.
pub open spec fn named_for(
    name: Seq<char>,
    wanted: Seq<char>,
    place: nat,
    taken: spec_fn(Seq<char>) -> bool,
) -> bool {
    let digits = wanted.len() > 0 && forall|i: int|
        0 <= i < wanted.len() ==> '0' <= #[trigger] wanted[i] <= '9';
    let base = if wanted.len() == 0 {
        "V"@ + decimal(place)
    } else if digits {
        "V"@ + wanted
    } else {
        wanted
    };
    if taken(base) {
        exists|k: nat|
            k >= 2 && name == base + "_"@ + #[trigger] decimal(k) && !taken(name) && forall|m: nat|
                2 <= m < k ==> taken(base + "_"@ + #[trigger] decimal(m))
    } else {
        name == base
    }
}

/// Inserted columns get the names that their descriptions ask for, made free of the names of
/// the table and of those inserted before them.
#[verifier::rlimit(60)]
pub proof fn law_inserted_columns_are_named(
    t: TableV,
    num: NumeralsV,
    job: EditJob,
    w: Result<Seq<u8>, Seq<char>>,
    i: int,
)
    requires
        t.wf(),
        job.edit is InsertCols,
        edit_outcome(t, num, job, w) is Ok,
        t.fields.len() + job.edit->columns@.len() < u64::MAX - 2,
        0 <= i < job.edit->columns@.len(),
    ensures
        ({
            let g = edit_outcome(t, num, job, w)->Ok_0.table;
            let at = job.edit->InsertCols_at;
            named_for(
                g.fields[at + i].name,
                job.edit->columns@[i].name@,
                (at + i + 1) as nat,
                |n: Seq<char>|
                    (exists|c: int| 0 <= c < t.fields.len() && (#[trigger] t.fields[c]).name == n)
                        || (exists|c: int|
                        0 <= c < i && (#[trigger] g.fields[at + c]).name == n),
            )
        }),
{
    let specs = spec_views(job.edit->columns@);
    let at = job.edit->InsertCols_at;
    let used = field_names(t);
    let g = edit_outcome(t, num, job, w)->Ok_0.table;
    let names = inserted_names(specs, used, at);
    lemma_names_len(specs, used, at);
    lemma_name_at(specs, used, at, i);
    lemma_inserted_fields(t, num, at, specs, job.revision);
    let all = used + names.take(i);
    let taken = |n: Seq<char>|
        (exists|c: int| 0 <= c < t.fields.len() && (#[trigger] t.fields[c]).name == n) || (exists|
            c: int,
        |
            0 <= c < i && (#[trigger] g.fields[at + c]).name == n);
    assert forall|n: Seq<char>| #[trigger] taken(n) == all.contains(n) by {
        lemma_taken(t, g, at as int, i, names, n);
    }
    assert(specs[i].name == job.edit->columns@[i].name@);
    lemma_named(all, specs[i].name, (at + i + 1) as u64, taken);
}

proof fn lemma_inserted_fields(
    t: TableV,
    num: NumeralsV,
    at: u64,
    specs: Seq<SpecV>,
    revision: u64,
)
    requires
        insert_cols_outcome(t, num, at, specs, revision) is Ok,
    ensures
        ({
            let g = insert_cols_outcome(t, num, at, specs, revision)->Ok_0.table;
            let names = inserted_names(specs, field_names(t), at);
            forall|c: int|
                0 <= c < specs.len() ==> (#[trigger] g.fields[at + c]).name == names[c]
        }),
{
    lemma_names_len(specs, field_names(t), at);
}

proof fn lemma_taken(
    t: TableV,
    g: TableV,
    at: int,
    i: int,
    names: Seq<Seq<char>>,
    n: Seq<char>,
)
    requires
        0 <= i <= names.len(),
        forall|c: int|
            0 <= c < names.len() ==> (#[trigger] g.fields[at + c]).name == names[c],
    ensures
        ((exists|c: int| 0 <= c < t.fields.len() && (#[trigger] t.fields[c]).name == n) || (exists|
            c: int,
        |
            0 <= c < i && (#[trigger] g.fields[at + c]).name == n)) == (field_names(t)
            + names.take(i)).contains(n),
{
    let used = field_names(t);
    let all = used + names.take(i);
    if all.contains(n) {
        let k = all.index_of(n);
        if k < used.len() {
            assert(t.fields[k].name == n);
        } else {
            assert(g.fields[at + (k - used.len())].name == n);
        }
    }
    if exists|c: int| 0 <= c < t.fields.len() && (#[trigger] t.fields[c]).name == n {
        let c = choose|c: int| 0 <= c < t.fields.len() && (#[trigger] t.fields[c]).name == n;
        assert(all[c] == n);
    }
    if exists|c: int| 0 <= c < i && (#[trigger] g.fields[at + c]).name == n {
        let c = choose|c: int| 0 <= c < i && (#[trigger] g.fields[at + c]).name == n;
        assert(all[used.len() + c] == n);
    }
}

/// A name made free of others is one that a column may get.
pub proof fn lemma_named(
    all: Seq<Seq<char>>,
    wanted: Seq<char>,
    place: u64,
    taken: spec_fn(Seq<char>) -> bool,
)
    requires
        all.len() + 2 <= u64::MAX,
        forall|n: Seq<char>| #[trigger] taken(n) == all.contains(n),
    ensures
        named_for(new_name(all, wanted, place), wanted, place as nat, taken),
{
    law_new_name_is_free(all, wanted, place);
    law_new_name_is_least(all, wanted, place);
    let name = new_name(all, wanted, place);
    let base = base_name(wanted, place);
    assert(taken(base) == all.contains(base));
    assert(taken(name) == all.contains(name));
    if all.contains(base) {
        let k = choose|k: nat|
            2 <= k && name == #[trigger] numbered(base, k) && (forall|i: nat|
                2 <= i < k ==> all.contains(#[trigger] numbered(base, i)));
        assert(name == base + "_"@ + decimal(k));
        assert forall|m: nat| 2 <= m < k implies taken(base + "_"@ + #[trigger] decimal(m)) by {
            assert(all.contains(numbered(base, m)));
        }
    }
}

proof fn lemma_name_at(s: Seq<SpecV>, used: Seq<Seq<char>>, at: u64, i: int)
    requires
        0 <= i < s.len(),
    ensures
        inserted_names(s, used, at)[i] == new_name(
            used + inserted_names(s, used, at).take(i),
            s[i].name,
            (at + i + 1) as u64,
        ),
    decreases s.len(),
{
    let p = inserted_names(s.drop_last(), used, at);
    lemma_names_len(s.drop_last(), used, at);
    lemma_names_len(s, used, at);
    let n = inserted_names(s, used, at);
    if i < s.len() - 1 {
        lemma_name_at(s.drop_last(), used, at, i);
        assert(n.take(i) =~= p.take(i));
        assert(s.drop_last()[i] == s[i]);
    } else {
        assert(n.take(i) =~= p);
    }
}

} // verus!
