//! How a dataset's columns and rows stand in its cache.
use vstd::prelude::*;
use vstd::string::*;
use crate::blob::{
    batch_parts, belongs, body_in, buffer_fits, column_types, dictionary_blocks, dictionary_fits,
    dictionary_parts, footer_of, holds_numbers, message_in, readable, record_blocks, spelled,
    type_known,
};
use crate::capture::{
    column_fault, column_file, field_meta, field_of, header_need, labels_in, meta_value, text_size,
    write_fault, ColumnV,
};
use crate::json::{last_member, members, Json};
use crate::serve::batch_sizes;
use crate::table::{total_rows, Batch, FieldV, KindV};

verus! {

/// Every batch is listed with its number of rows, and the rows of a dataset are those of its
/// batches.
pub proof fn law_batches_make_up_the_rows(b: Seq<Batch>)
    ensures
        batch_sizes(b).len() == b.len(),
        forall|i: int| 0 <= i < b.len() ==> (#[trigger] batch_sizes(b)[i]) == b[i].rows as u64,
        b.len() == 0 ==> total_rows(b) == 0,
        b.len() > 0 ==> total_rows(b) == total_rows(b.drop_last()) + b.last().rows,
{
}

/// The keys of a field's metadata differ.
proof fn lemma_keys_differ()
    ensures
        "jasp:all_integer"@.len() == 16,
        "jasp:display_name"@.len() == 17,
        "jasp:labels"@.len() == 11,
        "true"@.len() == 4,
        "false"@.len() == 5,
{
    reveal_strlit("jasp:all_integer");
    reveal_strlit("jasp:display_name");
    reveal_strlit("jasp:labels");
    reveal_strlit("true");
    reveal_strlit("false");
}

/// A field that is written to the metadata of a cache stands there under the keys by which it
/// is read: its display name, whether it holds integers only, and its labels if it has any.
pub proof fn law_fields_are_written_under_their_keys(f: FieldV)
    ensures
        ({
            let m = field_meta(f);
            &&& meta_value(m, "jasp:display_name"@) == Some(f.display)
            &&& meta_value(m, "jasp:all_integer"@) == Some(
                if f.all_integer {
                    "true"@
                } else {
                    "false"@
                },
            )
            &&& meta_value(m, "jasp:labels"@) is Some <==> exists|k: Seq<char>|
                f.labels.contains_key(k)
        }),
{
    lemma_keys_differ();
    reveal_with_fuel(meta_value, 4);
    let m = field_meta(f);
    if f.labels =~= Map::empty() {
        assert(m.drop_last().last() == m[0]);
    } else {
        assert(m.drop_last().last() == m[1]);
        assert(m.drop_last().drop_last().last() == m[0]);
        if forall|k: Seq<char>| !f.labels.contains_key(k) {
            assert(f.labels =~= Map::empty());
        }
    }
}

/// A field that is read from the metadata of a cache is shown under the display name that stands
/// there, or under its own; it holds integers only where that is said; and it has the labels
/// that stand there, if they can be read.
pub proof fn law_fields_are_read_from_their_keys(
    name: Seq<char>,
    kind: KindV,
    meta: Seq<(Seq<char>, Seq<char>)>,
)
    ensures
        ({
            let f = field_of(name, kind, meta);
            let d = meta_value(meta, "jasp:display_name"@);
            let l = meta_value(meta, "jasp:labels"@);
            &&& f.name == name
            &&& f.kind == kind
            &&& f.display == if d is Some {
                d->0
            } else {
                name
            }
            &&& f.all_integer <==> meta_value(meta, "jasp:all_integer"@) == Some("true"@)
            &&& l is Some && labels_in(l->0) is Some ==> f.labels == labels_in(l->0)->0
            &&& l is None || labels_in(l->0) is None ==> forall|k: Seq<char>|
                !f.labels.contains_key(k)
        }),
{
}

/// A key has the value of its last entry.
pub proof fn law_the_last_entry_counts(
    meta: Seq<(Seq<char>, Seq<char>)>,
    key: Seq<char>,
    i: int,
)
    ensures
        0 <= i < meta.len() && meta[i].0 == key && (forall|k: int|
            i < k < meta.len() ==> (#[trigger] meta[k]).0 != key) ==> meta_value(meta, key) == Some(
            meta[i].1,
        ),
        (forall|k: int| 0 <= k < meta.len() ==> (#[trigger] meta[k]).0 != key) ==> meta_value(
            meta,
            key,
        ) is None,
    decreases meta.len(),
{
    if meta.len() > 0 {
        let d = meta.drop_last();
        let m = meta.len() - 1;
        assert(meta[m] == meta.last());
        law_the_last_entry_counts(d, key, i);
        assert forall|k: int| 0 <= k < d.len() implies d[k] == meta[k] by {}
    }
}

/// A member of an object has the value of the last entry under its name.
pub proof fn law_the_last_member_counts(o: Seq<(String, Json)>, i: int)
    requires
        0 <= i < o.len(),
        forall|k: int| i < k < o.len() ==> (#[trigger] o[k]).0@ != o[i].0@,
    ensures
        members(o).contains_key(o[i].0@),
        members(o)[o[i].0@] == o[i].1@,
{
    lemma_last_member(o, o[i].0@, i);
}

proof fn lemma_last_member(o: Seq<(String, Json)>, key: Seq<char>, i: int)
    requires
        0 <= i < o.len(),
        o[i].0@ == key,
        forall|k: int| i < k < o.len() ==> (#[trigger] o[k]).0@ != key,
    ensures
        last_member(o, key) == Some(i as nat),
    decreases o.len(),
{
    let m = o.len() - 1;
    if i < m {
        let d = o.drop_last();
        assert(o[m].0@ != key);
        assert forall|k: int| i < k < d.len() implies (#[trigger] d[k]).0@ != key by {
            assert(o[k].0@ != key);
        }
        lemma_last_member(d, key, i);
    }
}

/// Four bytes spell a number with the lowest first.
pub proof fn law_lengths_are_spelled_lowest_first(a: u8, b: u8, c: u8, d: u8)
    ensures
        spelled(seq![a, b, c, d]) == a + 256 * b + 65536 * c + 16777216 * d,
{
    reveal_with_fuel(spelled, 5);
    let s = seq![a, b, c, d];
    assert(s.skip(1) =~= seq![b, c, d]);
    assert(s.skip(1).skip(1) =~= seq![c, d]);
    assert(s.skip(1).skip(1).skip(1) =~= seq![d]);
    assert(s.skip(1).skip(1).skip(1).skip(1) =~= Seq::empty());
}

/// A file that is taken for readable keeps to itself: every part that its footer lists lies
/// within the file, and so does every buffer of its columns and dictionaries.
pub proof fn law_readable_files_keep_to_themselves(file: Seq<u8>, i: int, k: int)
    requires
        readable(file),
        footer_of(file) is Some,
        column_types(footer_of(file)->0) is Some,
        dictionary_blocks(footer_of(file)->0) is Some,
        record_blocks(footer_of(file)->0) is Some,
    ensures
        ({
            let types = column_types(footer_of(file)->0)->0;
            let ds = dictionary_blocks(footer_of(file)->0)->0;
            let rs = record_blocks(footer_of(file)->0)->0;
            &&& 0 <= i < types.len() && types[i].keys is None ==> types[i].code == 3
                && types[i].precision == Some(2i16)
            &&& 0 <= i < types.len() && types[i].keys is Some ==> types[i].code == 5
                && types[i].keys->0 == Some((32i32, true))
            &&& 0 <= i < ds.len() ==> {
                let b = ds[i];
                let p = dictionary_parts(message_in(file, b));
                &&& 0 <= b.offset && 0 <= b.head && 0 <= b.body
                &&& b.offset + b.head + b.body <= file.len()
                &&& p is Some && 0 <= k < 3 && k < p->0.buffers.len() ==> 0 <= p->0.buffers[k].0
                    && 0 <= p->0.buffers[k].1 && p->0.buffers[k].0 + p->0.buffers[k].1 <= b.body
            }
            &&& rs.len() > 0 ==> {
                let b = rs[0];
                let p = batch_parts(message_in(file, b));
                &&& 0 <= b.offset && 0 <= b.head && 0 <= b.body
                &&& b.offset + b.head + b.body <= file.len()
                &&& p is Some && 0 <= k < 2 * types.len() && k < p->0.buffers.len() ==> 0
                    <= p->0.buffers[k].0 && 0 <= p->0.buffers[k].1 && p->0.buffers[k].0
                    + p->0.buffers[k].1 <= b.body
            }
        }),
{
    let types = column_types(footer_of(file)->0)->0;
    let ds = dictionary_blocks(footer_of(file)->0)->0;
    let rs = record_blocks(footer_of(file)->0)->0;
    if 0 <= i < types.len() {
        assert(type_known(types[i]));
    }
    if 0 <= i < ds.len() {
        assert(dictionary_fits(file, ds[i]));
        let p = dictionary_parts(message_in(file, ds[i]));
        if p is Some && 0 <= k < 3 && k < p->0.buffers.len() {
            assert(buffer_fits(
                body_in(file, ds[i]),
                p->0.buffers[k],
                p->0.codec,
                holds_numbers(true, k),
            ));
        }
    }
    if rs.len() > 0 {
        let p = batch_parts(message_in(file, rs[0]));
        if p is Some && 0 <= k < 2 * types.len() && k < p->0.buffers.len() {
            assert(belongs(false, types.len(), k));
            assert(buffer_fits(
                body_in(file, rs[0]),
                p->0.buffers[k],
                p->0.codec,
                holds_numbers(false, k),
            ));
        }
    }
}

/// Columns can be written to a file where each holds numbers, or keys that lie in a dictionary
/// that is not too large, as long as their names and labels are not too long. A column of any
/// other type cannot.
pub proof fn law_proper_columns_can_be_written(cols: Seq<ColumnV>, i: int)
    requires
        cols.len() > 0,
    ensures
        (forall|n: int| #![trigger cols[n]]
            0 <= n < cols.len() ==> cols[n].field.kind is Float64 || (
            cols[n].field.kind is Dictionary && cols[n].levels.len() <= 0x7fff_ffff && text_size(
                cols[n].levels,
            ) <= 0x7fff_ffff && forall|r: int|
                0 <= r < cols[n].cells.len() && (#[trigger] cols[n].cells[r]) is Some
                    ==> cols[n].cells[r]->0 < cols[n].levels.len())) && header_need(
            cols,
            cols.len(),
        ) <= 0x7fff_ffff ==> column_file(cols) is Ok,
        0 <= i < cols.len() && cols[i].field.kind is Other ==> column_file(cols) is Err,
{
    if header_need(cols, cols.len()) <= 0x7fff_ffff && forall|n: int| #![trigger cols[n]]
        0 <= n < cols.len() ==> column_fault(cols[n]) is None {
        lemma_no_fault(cols, cols.len());
    }
    if 0 <= i < cols.len() && cols[i].field.kind is Other {
        lemma_fault(cols, cols.len(), i);
    }
}

proof fn lemma_no_fault(cols: Seq<ColumnV>, k: nat)
    requires
        k <= cols.len(),
        header_need(cols, k) <= 0x7fff_ffff,
        forall|n: int| #![trigger cols[n]]
            0 <= n < cols.len() ==> column_fault(cols[n]) is None,
    ensures
        write_fault(cols, k) is None,
    decreases k,
{
    if k > 0 {
        lemma_no_fault(cols, (k - 1) as nat);
        let c = cols[k - 1];
    }
}

proof fn lemma_fault(cols: Seq<ColumnV>, k: nat, i: int)
    requires
        0 <= i < k <= cols.len(),
        cols[i].field.kind is Other,
    ensures
        write_fault(cols, k) is Some,
    decreases k,
{
    if i < k - 1 {
        lemma_fault(cols, (k - 1) as nat, i);
    }
}

} // verus!
