//! What a pasted block spells, and what a frame holds.
use vstd::prelude::*;
use vstd::utf8::{decode_utf8, valid_utf8};
use crate::block::{cell_of, first_ragged, parsed, row_of, rows_of, split, unescaped};
use crate::edit_laws::refused_as;
use crate::framing::{framed, json_part, tail_part};

verus! {

/// How a byte is spelled in a cell: a tab, a line feed and a backslash by a backslash and a
/// letter or another backslash, any other byte by itself.
pub open spec fn spelled(b: u8) -> Seq<u8> {
    if b == 9 {
        seq![92u8, 116u8]
    } else if b == 10 {
        seq![92u8, 110u8]
    } else if b == 92 {
        seq![92u8, 92u8]
    } else {
        seq![b]
    }
}

/// How the bytes of a cell are spelled.
pub open spec fn spelled_all(s: Seq<u8>) -> Seq<u8>
    decreases s.len(),
{
    if s.len() == 0 {
        Seq::empty()
    } else {
        spelled(s[0]) + spelled_all(s.skip(1))
    }
}

/// How a cell is spelled: null by a backslash and an `N`.
pub open spec fn spelled_cell(c: Option<Seq<u8>>) -> Seq<u8> {
    match c {
        Some(s) => spelled_all(s),
        None => seq![92u8, 78u8],
    }
}

/// Parts with a separator between them.
pub open spec fn strung(parts: Seq<Seq<u8>>, sep: u8) -> Seq<u8>
    decreases parts.len(),
{
    if parts.len() == 0 {
        Seq::empty()
    } else if parts.len() == 1 {
        parts[0]
    } else {
        strung(parts.drop_last(), sep).push(sep) + parts.last()
    }
}

/// How a row is spelled: cells with tabs between them.
pub open spec fn spelled_row(row: Seq<Option<Seq<u8>>>) -> Seq<u8> {
    strung(Seq::new(row.len(), |c: int| spelled_cell(row[c])), 9)
}

/// How a block is spelled: rows that each end in a line feed.
pub open spec fn spelled_block(rows: Seq<Seq<Option<Seq<u8>>>>) -> Seq<u8> {
    strung(Seq::new(rows.len(), |r: int| spelled_row(rows[r])), 10).push(10)
}

proof fn lemma_spelled(s: Seq<u8>)
    ensures
        unescaped(spelled_all(s)) == s,
        !spelled_all(s).contains(9),
        !spelled_all(s).contains(10),
        spelled_all(s).len() >= 2 && spelled_all(s)[0] == 92 ==> spelled_all(s)[1] == 116
            || spelled_all(s)[1] == 110 || spelled_all(s)[1] == 92,
        s.len() > 0 ==> spelled_all(s).len() > 0,
    decreases s.len(),
{
    if s.len() > 0 {
        let rest = s.skip(1);
        lemma_spelled(rest);
        let a = spelled(s[0]);
        let b = spelled_all(rest);
        let all = a + b;
        assert(spelled_all(s) == all);
        assert(all.skip(a.len() as int) =~= b);
        assert(seq![s[0]] + rest =~= s);
        if all.contains(9) {
            let i = all.index_of(9);
            if i >= a.len() {
                assert(b[i - a.len()] == 9);
            }
        }
        if all.contains(10) {
            let i = all.index_of(10);
            if i >= a.len() {
                assert(b[i - a.len()] == 10);
            }
        }
    } else {
        assert(unescaped(spelled_all(s)) =~= s);
    }
}

proof fn lemma_split_len(s: Seq<u8>, sep: u8)
    ensures
        split(s, sep).len() > 0,
    decreases s.len(),
{
    if s.len() > 0 {
        lemma_split_len(s.drop_last(), sep);
    }
}

proof fn lemma_split_more(s: Seq<u8>, t: Seq<u8>, sep: u8)
    requires
        !t.contains(sep),
    ensures
        split(s + t, sep) == split(s, sep).drop_last().push(split(s, sep).last() + t),
    decreases t.len(),
{
    lemma_split_len(s, sep);
    let p = split(s, sep);
    if t.len() == 0 {
        assert(s + t =~= s);
        assert(p.last() + t =~= p.last());
        assert(p.drop_last().push(p.last()) =~= p);
    } else {
        let d = t.drop_last();
        assert(!d.contains(sep)) by {
            if d.contains(sep) {
                let i = d.index_of(sep);
                assert(t[i] == sep);
            }
        }
        lemma_split_more(s, d, sep);
        assert((s + t).drop_last() =~= s + d);
        assert(t[t.len() - 1] != sep);
        let q = split(s + d, sep);
        assert(q.last() == p.last() + d);
        assert(q.drop_last() =~= p.drop_last());
        assert((p.last() + d).push(t.last()) =~= p.last() + t);
    }
}

proof fn lemma_strung(parts: Seq<Seq<u8>>, sep: u8)
    requires
        parts.len() > 0,
        forall|i: int| 0 <= i < parts.len() ==> !(#[trigger] parts[i]).contains(sep),
    ensures
        split(strung(parts, sep), sep) == parts,
    decreases parts.len(),
{
    if parts.len() == 1 {
        lemma_split_more(Seq::empty(), parts[0], sep);
        assert(Seq::<u8>::empty() + parts[0] =~= parts[0]);
        assert(split(Seq::empty(), sep).drop_last().push(
            split(Seq::empty(), sep).last() + parts[0],
        ) =~= parts);
    } else {
        let d = parts.drop_last();
        assert forall|i: int| 0 <= i < d.len() implies !(#[trigger] d[i]).contains(sep) by {
            assert(parts[i] == d[i]);
        }
        lemma_strung(d, sep);
        let s = strung(d, sep).push(sep);
        assert(s.drop_last() =~= strung(d, sep));
        assert(split(s, sep) == d.push(Seq::empty()));
        assert(!parts[parts.len() - 1].contains(sep));
        lemma_split_more(s, parts.last(), sep);
        assert(d.push(Seq::empty()).drop_last() =~= d);
        assert(Seq::<u8>::empty() + parts.last() =~= parts.last());
        assert(d.push(parts.last()) =~= parts);
    }
}

proof fn lemma_strung_lacks(parts: Seq<Seq<u8>>, sep: u8, b: u8)
    requires
        sep != b,
        forall|i: int| 0 <= i < parts.len() ==> !(#[trigger] parts[i]).contains(b),
    ensures
        !strung(parts, sep).contains(b),
    decreases parts.len(),
{
    let s = strung(parts, sep);
    if s.contains(b) {
        let k = s.index_of(b);
        if parts.len() > 1 {
            let d = parts.drop_last();
            assert forall|i: int| 0 <= i < d.len() implies !(#[trigger] d[i]).contains(b) by {
                assert(parts[i] == d[i]);
            }
            lemma_strung_lacks(d, sep, b);
            let x = strung(d, sep);
            if k < x.len() {
                assert(x[k] == b);
            } else if k > x.len() {
                assert(parts[parts.len() - 1][k - x.len() - 1] == b);
            }
        } else if parts.len() == 1 {
            assert(parts[0].contains(b));
        }
    }
}

/// What a cell is read as.
pub open spec fn reads_as(c: (Seq<char>, bool), was: Option<Seq<u8>>) -> bool {
    match was {
        None => c.1,
        Some(s) => !c.1 && (valid_utf8(s) ==> c.0 == decode_utf8(s)),
    }
}

proof fn lemma_cell(c: Option<Seq<u8>>)
    ensures
        reads_as(cell_of(spelled_cell(c)), c),
        !spelled_cell(c).contains(9),
        !spelled_cell(c).contains(10),
{
    match c {
        Some(s) => {
            lemma_spelled(s);
            let e = spelled_all(s);
            let n = seq![92u8, 78u8];
            if e == n {
                assert(e[0] == n[0] && e[1] == n[1]);
            }
        },
        None => {},
    }
}

/// A block that is spelled by the rules reads as the cells that it spells, tabs, line feeds and
/// backslashes within them included.
pub proof fn law_spelled_blocks_are_read(rows: Seq<Seq<Option<Seq<u8>>>>, r: int, c: int)
    requires
        rows.len() > 0,
        rows[0].len() > 0,
        forall|i: int| 0 <= i < rows.len() ==> (#[trigger] rows[i]).len() == rows[0].len(),
        0 <= r < rows.len(),
        0 <= c < rows[0].len(),
    ensures
        parsed(spelled_block(rows)) is Ok,
        parsed(spelled_block(rows))->Ok_0.len() == rows.len(),
        parsed(spelled_block(rows))->Ok_0[r].len() == rows[0].len(),
        reads_as(parsed(spelled_block(rows))->Ok_0[r][c], rows[r][c]),
{
    let lines = Seq::new(rows.len(), |r: int| spelled_row(rows[r]));
    let tail = spelled_block(rows);
    let body = strung(lines, 10);
    assert(tail.drop_last() =~= body);
    assert forall|i: int| 0 <= i < lines.len() implies !(#[trigger] lines[i]).contains(10)
        && split(lines[i], 9) == Seq::new(rows[i].len(), |c: int| spelled_cell(rows[i][c])) by {
        let cells = Seq::new(rows[i].len(), |c: int| spelled_cell(rows[i][c]));
        assert forall|k: int| 0 <= k < cells.len() implies !(#[trigger] cells[k]).contains(9)
            && !cells[k].contains(10) by {
            lemma_cell(rows[i][k]);
        }
        lemma_strung(cells, 9);
        lemma_strung_lacks(cells, 9, 10);
    }
    lemma_strung(lines, 10);
    let got = rows_of(body);
    assert(got.len() == rows.len());
    assert forall|i: int| 0 <= i < got.len() implies (#[trigger] got[i]).len()
        == rows[0].len() by {
        assert(got[i] == row_of(lines[i]));
        assert(rows[i].len() == rows[0].len());
    }
    lemma_even(got);
    assert(got[r] == row_of(lines[r]));
    assert(got[r][c] == cell_of(spelled_cell(rows[r][c])));
    lemma_cell(rows[r][c]);
}

/// A block whose rows are not of one width is refused, and the refusal gives the first row that
/// is not as wide as the first one.
pub proof fn law_ragged_blocks_are_refused(rows: Seq<Seq<Option<Seq<u8>>>>, r: int)
    requires
        rows.len() > 0,
        forall|i: int| 0 <= i < rows.len() ==> (#[trigger] rows[i]).len() > 0,
        0 <= r < rows.len() <= u64::MAX,
        rows[r].len() != rows[0].len(),
        forall|i: int| 0 <= i < r ==> (#[trigger] rows[i]).len() == rows[0].len(),
    ensures
        parsed(spelled_block(rows)) is Err,
        refused_as(parsed(spelled_block(rows))->Err_0, "anchor"@),
        parsed(spelled_block(rows))->Err_0->Validation_0[0].rows == Some(seq![r as u64]),
{
    let lines = Seq::new(rows.len(), |r: int| spelled_row(rows[r]));
    let tail = spelled_block(rows);
    let body = strung(lines, 10);
    assert(tail.drop_last() =~= body);
    assert forall|i: int| 0 <= i < lines.len() implies !(#[trigger] lines[i]).contains(10)
        && split(lines[i], 9).len() == rows[i].len() by {
        let cells = Seq::new(rows[i].len(), |c: int| spelled_cell(rows[i][c]));
        assert(rows[i].len() > 0);
        assert forall|k: int| 0 <= k < cells.len() implies !(#[trigger] cells[k]).contains(9)
            && !cells[k].contains(10) by {
            lemma_cell(rows[i][k]);
        }
        lemma_strung(cells, 9);
        lemma_strung_lacks(cells, 9, 10);
    }
    lemma_strung(lines, 10);
    let got = rows_of(body);
    assert(got.len() == rows.len());
    assert forall|i: int| 0 <= i < got.len() implies (#[trigger] got[i]).len()
        == rows[i].len() by {
        assert(got[i] == row_of(lines[i]));
    }
    lemma_ragged_at(got, r);
}

proof fn lemma_ragged_at(got: Seq<Seq<(Seq<char>, bool)>>, r: int)
    requires
        0 <= r < got.len(),
        got[r].len() != got[0].len(),
        forall|i: int| 0 <= i < r ==> (#[trigger] got[i]).len() == got[0].len(),
    ensures
        first_ragged(got) == Some(r as nat),
    decreases got.len(),
{
    let d = got.drop_last();
    assert(d.len() > 0 ==> d[0] == got[0]);
    if r < d.len() {
        assert forall|i: int| 0 <= i < r implies (#[trigger] d[i]).len() == d[0].len() by {
            assert(got[i] == d[i]);
        }
        assert(d[r] == got[r]);
        lemma_ragged_at(d, r);
    } else {
        assert forall|i: int| 0 <= i < d.len() implies (#[trigger] d[i]).len() == d[0].len() by {
            assert(got[i] == d[i]);
        }
        lemma_even(d);
    }
}

proof fn lemma_even(got: Seq<Seq<(Seq<char>, bool)>>)
    requires
        forall|i: int| 0 <= i < got.len() ==> (#[trigger] got[i]).len() == got[0].len(),
    ensures
        first_ragged(got) is None,
    decreases got.len(),
{
    if got.len() > 0 {
        let d = got.drop_last();
        assert forall|i: int| 0 <= i < d.len() implies (#[trigger] d[i]).len() == d[0].len() by {
            assert(got[i] == d[i]);
        }
        lemma_even(d);
        assert(got[got.len() - 1].len() == got[0].len());
    }
}

/// A block that is read ends in a line feed, has a row for each, and rows of one width.
pub proof fn law_blocks_are_rectangles(tail: Seq<u8>)
    requires
        parsed(tail) is Ok,
    ensures
        tail.len() > 0,
        tail.last() == 10,
        parsed(tail)->Ok_0.len() == tail.filter(|b: u8| b == 10).len(),
        forall|i: int|
            0 <= i < parsed(tail)->Ok_0.len() ==> (#[trigger] parsed(tail)->Ok_0[i]).len()
                == parsed(tail)->Ok_0[0].len(),
{
    let body = tail.drop_last();
    crate::block::lemma_not_ragged(rows_of(body));
    reveal(Seq::filter);
    lemma_split_count(body, 10);
}

proof fn lemma_split_count(s: Seq<u8>, sep: u8)
    ensures
        split(s, sep).len() == s.filter(|b: u8| b == sep).len() + 1,
    decreases s.len(),
{
    reveal(Seq::filter);
    if s.len() > 0 {
        lemma_split_count(s.drop_last(), sep);
        lemma_split_len(s.drop_last(), sep);
    }
}

/// The first four bytes of a frame give the length of its JSON part, the highest byte first;
/// the JSON part follows, and then the tail.
pub proof fn law_frames_start_with_a_length(json: Seq<u8>, binary: Seq<u8>)
    requires
        json.len() <= u32::MAX,
    ensures
        ({
            let f = framed(json, binary);
            &&& f.len() == 4 + json.len() + binary.len()
            &&& f[0] * 0x100_0000 + f[1] * 0x1_0000 + f[2] * 0x100 + f[3] == json.len()
            &&& f.subrange(4, 4 + json.len() as int) == json
            &&& f.skip(4 + json.len() as int) == binary
        }),
{
    let f = framed(json, binary);
    let n = json.len() as u32;
    assert((n / 0x100_0000) < 0x100 && n / 0x1_0000 % 0x100 < 0x100 && n / 0x100 % 0x100 < 0x100
        && n % 0x100 < 0x100);
    assert((n / 0x100_0000) * 0x100_0000 + (n / 0x1_0000 % 0x100) * 0x1_0000 + (n / 0x100 % 0x100)
        * 0x100 + n % 0x100 == n) by (nonlinear_arith);
    assert(f.subrange(4, 4 + json.len() as int) =~= json);
    assert(f.skip(4 + json.len() as int) =~= binary);
}

/// A message is read where its first four bytes give a length that it has, and only there: the
/// JSON part is as long as they say, and the tail is what follows.
pub proof fn law_messages_are_cut_by_their_length(body: Seq<u8>)
    ensures
        ({
            let n = body[0] * 0x100_0000 + body[1] * 0x1_0000 + body[2] * 0x100 + body[3];
            &&& json_part(body) is Some <==> body.len() >= 4 && body.len() >= 4 + n
            &&& json_part(body) is Some ==> json_part(body)->0 == body.subrange(4, 4 + n)
            &&& tail_part(body) is Some <==> json_part(body) is Some
            &&& tail_part(body) is Some ==> tail_part(body)->0 == body.skip(4 + n)
        }),
{
}

} // verus!
