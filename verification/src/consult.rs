//! What an edit asks of numerals: the texts it may read as numbers, and the numbers it may show.
use vstd::prelude::*;
use crate::block::{parse_block, parsed, row_view};
use crate::capture::{blob_columns, decode_inverse, decoded, ColumnV};
use crate::json::Json;
use crate::messages::{EditOp, NewColumnSpec};
use crate::outcome::EditJob;
use crate::table::{Dataset, TableV};
use crate::text::texts;

verus! {

/// The strings that stand in a JSON value.
pub open spec fn json_texts(j: Json) -> Seq<Seq<char>>
    decreases j,
{
    match j {
        Json::Str(s) => seq![s@],
        Json::Array(a) => list_texts(a@),
        Json::Object(o) => member_texts(o@),
        _ => Seq::empty(),
    }
}

/// The strings that stand in a list of JSON values.
pub open spec fn list_texts(a: Seq<Json>) -> Seq<Seq<char>>
    decreases a,
{
    if a.len() == 0 {
        Seq::empty()
    } else {
        list_texts(a.subrange(0, a.len() - 1)) + json_texts(a[a.len() - 1])
    }
}

/// The strings that stand in the members of an object.
pub open spec fn member_texts(o: Seq<(String, Json)>) -> Seq<Seq<char>>
    decreases o,
{
    if o.len() == 0 {
        Seq::empty()
    } else {
        member_texts(o.subrange(0, o.len() - 1)) + json_texts(o[o.len() - 1].1)
    }
}

/// The texts of several lists, one after the other.
pub open spec fn all_texts(v: Seq<Seq<Seq<char>>>) -> Seq<Seq<char>>
    decreases v.len(),
{
    if v.len() == 0 {
        Seq::empty()
    } else {
        all_texts(v.drop_last()) + v.last()
    }
}

/// The levels that columns to insert declare.
pub open spec fn declared_texts(v: Seq<NewColumnSpec>) -> Seq<Seq<char>>
    decreases v.len(),
{
    if v.len() == 0 {
        Seq::empty()
    } else {
        declared_texts(v.drop_last()) + match v.last().levels {
            Some(l) => texts(l@),
            None => Seq::empty(),
        }
    }
}

/// The texts of pasted cells.
pub open spec fn cell_texts(row: Seq<(Seq<char>, bool)>) -> Seq<Seq<char>> {
    Seq::new(row.len(), |i: int| row[i].0)
}

/// The texts of pasted rows.
pub open spec fn row_texts(rows: Seq<Seq<(Seq<char>, bool)>>) -> Seq<Seq<char>>
    decreases rows.len(),
{
    if rows.len() == 0 {
        Seq::empty()
    } else {
        row_texts(rows.drop_last()) + cell_texts(rows.last())
    }
}

/// The levels of captured columns.
pub open spec fn level_texts(cols: Seq<ColumnV>) -> Seq<Seq<char>>
    decreases cols.len(),
{
    if cols.len() == 0 {
        Seq::empty()
    } else {
        level_texts(cols.drop_last()) + cols.last().levels
    }
}

/// The texts that an edit brings along: what is pasted, what is declared, and what an inverse
/// records and carries.
pub open spec fn brought(job: EditJob) -> Seq<Seq<char>> {
    match job.edit {
        EditOp::InsertBlock { target_schema, .. } => (match target_schema {
            Some(j) => json_texts(j),
            None => Seq::empty(),
        }) + (match parsed(job.tail@) {
            Ok(rows) => row_texts(rows),
            Err(_) => Seq::empty(),
        }),
        EditOp::InsertCols { columns, .. } => declared_texts(columns@),
        EditOp::SchemaChange { target_schema } => json_texts(target_schema),
        EditOp::ApplyInverse { inverse } => json_texts(inverse.ops) + (match decoded(
            blob_columns(job.tail@),
        ) {
            Ok(cols) => level_texts(cols),
            Err(_) => Seq::empty(),
        }),
        _ => Seq::empty(),
    }
}

/// The texts that an edit may read as numbers: the levels of the dataset, and what the edit
/// brings along.
pub open spec fn consulted(t: TableV, job: EditJob) -> Seq<Seq<char>> {
    all_texts(t.dicts) + brought(job)
}

/// Adds texts to a list.
fn add_texts(v: &Vec<String>, out: &mut Vec<String>)
    ensures
        texts(final(out)@) == texts(old(out)@) + texts(v@),
{
    let ghost before = texts(out@);
    let ghost all = texts(v@);
    let mut i: usize = 0;
    while i < v.len()
        invariant
            i <= v.len(),
            all == texts(v@),
            texts(out@) =~= before + all.take(i as int),
        decreases v.len() - i,
    {
        let ghost prior = texts(out@);
        out.push(v[i].clone());
        assert(texts(out@) =~= prior.push(all[i as int]));
        i = i + 1;
    }
    assert(all.take(i as int) =~= all);
}

/// Adds the strings of a JSON value to a list.
fn add_json(j: &Json, out: &mut Vec<String>)
    ensures
        texts(final(out)@) == texts(old(out)@) + json_texts(*j),
    decreases j,
{
    let ghost before = texts(out@);
    match j {
        Json::Str(s) => {
            out.push(s.clone());
            assert(texts(out@) =~= before + seq![s@]);
        },
        Json::Array(a) => {
            let mut i: usize = 0;
            assert(a@.subrange(0, 0) =~= Seq::empty());
            while i < a.len()
                invariant
                    i <= a.len(),
                    *j == Json::Array(*a),
                    texts(out@) =~= before + list_texts(a@.subrange(0, i as int)),
                decreases a.len() - i,
            {
                let ghost next = a@.subrange(0, i + 1);
                assert(next.subrange(0, i as int) =~= a@.subrange(0, i as int));
                assert(decreases_to!(*j => j->Array_0));
                assert(decreases_to!(a => a@));
                assert(decreases_to!(a@ => a@[i as int]));
                add_json(&a[i], out);
                i = i + 1;
            }
            assert(a@.subrange(0, i as int) =~= a@);
        },
        Json::Object(o) => {
            let mut i: usize = 0;
            assert(o@.subrange(0, 0) =~= Seq::empty());
            while i < o.len()
                invariant
                    i <= o.len(),
                    *j == Json::Object(*o),
                    texts(out@) =~= before + member_texts(o@.subrange(0, i as int)),
                decreases o.len() - i,
            {
                let ghost next = o@.subrange(0, i + 1);
                assert(next.subrange(0, i as int) =~= o@.subrange(0, i as int));
                assert(decreases_to!(*j => j->Object_0));
                assert(decreases_to!(o => o@));
                assert(decreases_to!(o@ => o@[i as int]));
                assert(decreases_to!(o@[i as int] => o@[i as int].1));
                add_json(&o[i].1, out);
                i = i + 1;
            }
            assert(o@.subrange(0, i as int) =~= o@);
        },
        _ => {
            assert(texts(out@) =~= before + Seq::<Seq<char>>::empty());
        },
    }
}

/// Adds the texts of pasted cells to a list.
fn add_cells(row: &Vec<(String, bool)>, out: &mut Vec<String>)
    ensures
        texts(final(out)@) == texts(old(out)@) + cell_texts(row_view(row@)),
{
    let ghost before = texts(out@);
    let ghost all = cell_texts(row_view(row@));
    let mut i: usize = 0;
    while i < row.len()
        invariant
            i <= row.len(),
            all == cell_texts(row_view(row@)),
            texts(out@) =~= before + all.take(i as int),
        decreases row.len() - i,
    {
        let ghost prior = texts(out@);
        out.push(row[i].0.clone());
        assert(texts(out@) =~= prior.push(all[i as int]));
        i = i + 1;
    }
    assert(all.take(i as int) =~= all);
}

/// Lists the texts that an edit may read as numbers.
#[verifier::rlimit(50)]
pub fn list_consulted(ds: &Dataset, job: &EditJob) -> (r: Vec<String>)
    ensures
        texts(r@) == consulted(ds.table(), *job),
{
    let ghost dicts = ds.table().dicts;
    let mut out: Vec<String> = Vec::new();
    let mut i: usize = 0;
    assert(dicts.take(0) =~= Seq::empty());
    while i < ds.dicts.len()
        invariant
            i <= ds.dicts.len(),
            dicts == ds.table().dicts,
            texts(out@) =~= all_texts(dicts.take(i as int)),
        decreases ds.dicts.len() - i,
    {
        assert(dicts.take(i + 1).drop_last() =~= dicts.take(i as int));
        assert(dicts.take(i + 1).last() == texts(ds.dicts@[i as int]@));
        add_texts(&ds.dicts[i], &mut out);
        i = i + 1;
    }
    assert(dicts.take(i as int) =~= dicts);
    let ghost base = texts(out@);
    match &job.edit {
        EditOp::InsertBlock { target_schema, .. } => {
            if let Some(j) = target_schema {
                add_json(j, &mut out);
            }
            let ghost told = texts(out@);
            if let Ok(block) = parse_block(job.tail.as_slice()) {
                let ghost rows = block@;
                let mut k: usize = 0;
                assert(rows.take(0) =~= Seq::empty());
                while k < block.cells.len()
                    invariant
                        k <= block.cells.len(),
                        rows == block@,
                        texts(out@) =~= told + row_texts(rows.take(k as int)),
                    decreases block.cells.len() - k,
                {
                    assert(rows.take(k + 1).drop_last() =~= rows.take(k as int));
                    assert(rows.take(k + 1).last() == row_view(block.cells@[k as int]@));
                    add_cells(&block.cells[k], &mut out);
                    k = k + 1;
                }
                assert(rows.take(k as int) =~= rows);
            }
        },
        EditOp::InsertCols { columns, .. } => {
            let mut k: usize = 0;
            assert(columns@.take(0) =~= Seq::empty());
            while k < columns.len()
                invariant
                    k <= columns.len(),
                    texts(out@) =~= base + declared_texts(columns@.take(k as int)),
                decreases columns.len() - k,
            {
                assert(columns@.take(k + 1).drop_last() =~= columns@.take(k as int));
                if let Some(l) = &columns[k].levels {
                    add_texts(l, &mut out);
                }
                k = k + 1;
            }
            assert(columns@.take(k as int) =~= columns@);
        },
        EditOp::SchemaChange { target_schema } => {
            add_json(target_schema, &mut out);
        },
        EditOp::ApplyInverse { inverse } => {
            add_json(&inverse.ops, &mut out);
            let ghost told = texts(out@);
            if let Ok(data) = decode_inverse(job.tail.as_slice()) {
                let cols = &data.columns;
                let ghost cv = crate::capture::column_views(cols@);
                let mut k: usize = 0;
                assert(cv.take(0) =~= Seq::empty());
                while k < cols.len()
                    invariant
                        k <= cols.len(),
                        cv == crate::capture::column_views(cols@),
                        texts(out@) =~= told + level_texts(cv.take(k as int)),
                    decreases cols.len() - k,
                {
                    assert(cv.take(k + 1).drop_last() =~= cv.take(k as int));
                    assert(cv.take(k + 1).last() == cols@[k as int]@);
                    add_texts(&cols[k].levels, &mut out);
                    k = k + 1;
                }
                assert(cv.take(k as int) =~= cv);
            }
        },
        _ => {},
    }
    assert(texts(out@) =~= consulted(ds.table(), *job));
    out
}

} // verus!
