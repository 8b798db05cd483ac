//! Pasted blocks: rows that end in a line feed, cells parted by tabs, with escapes.
use vstd::prelude::*;
use vstd::utf8::{decode_utf8, valid_utf8};
use crate::messages::{refusal, rows_refusal, EditFailure, FailureV};
use crate::wording;

verus! {

/// A pasted block: rows of cells, each a text and whether it is the null marker. What the
/// texts stand for is settled later, under the types of the columns they land in.
#[derive(Debug, PartialEq, Eq)]
pub struct ParsedBlock {
    pub cells: Vec<Vec<(String, bool)>>,
}

/// The bytes parted at every `sep`: one piece more than there are separators.
pub open spec fn split(s: Seq<u8>, sep: u8) -> Seq<Seq<u8>>
    decreases s.len(),
{
    if s.len() == 0 {
        seq![Seq::empty()]
    } else {
        let p = split(s.drop_last(), sep);
        if s.last() == sep {
            p.push(Seq::empty())
        } else {
            p.drop_last().push(p.last().push(s.last()))
        }
    }
}

/// The byte that an escaped letter stands for.
pub open spec fn escape(b: u8) -> Option<u8> {
    if b == 116 {
        Some(9)
    } else if b == 110 {
        Some(10)
    } else if b == 92 {
        Some(92)
    } else {
        None
    }
}

/// The bytes with their escapes resolved: backslash t, backslash n and the doubled
/// backslash. Any other backslash stands for itself.
pub open spec fn unescaped(s: Seq<u8>) -> Seq<u8>
    decreases s.len(),
{
    if s.len() == 0 {
        Seq::empty()
    } else if s[0] == 92 && s.len() > 1 && escape(s[1]) is Some {
        seq![escape(s[1])->0] + unescaped(s.skip(2))
    } else {
        seq![s[0]] + unescaped(s.skip(1))
    }
}

/// The text that bytes read as, with what is not UTF-8 replaced.
pub uninterp spec fn lossy_text(bytes: Seq<u8>) -> Seq<char>;

/// `String::from_utf8_lossy`: bytes that are UTF-8 read as the text they encode. How other
/// bytes read is named, not stated.
#[verifier::external_body]
fn text_of_bytes(bytes: &Vec<u8>) -> (r: String)
    ensures
        r@ == lossy_text(bytes@),
        valid_utf8(bytes@) ==> r@ == decode_utf8(bytes@),
{
    String::from_utf8_lossy(bytes).into_owned()
}

/// The text that bytes read as: the text they encode, where they are UTF-8.
pub open spec fn text_in(bytes: Seq<u8>) -> Seq<char> {
    if valid_utf8(bytes) {
        decode_utf8(bytes)
    } else {
        lossy_text(bytes)
    }
}

/// A cell: backslash N alone is the null marker.
pub open spec fn cell_of(raw: Seq<u8>) -> (Seq<char>, bool) {
    if raw == seq![92u8, 78u8] {
        (Seq::empty(), true)
    } else {
        (text_in(unescaped(raw)), false)
    }
}

/// The cells of a row.
pub open spec fn row_of(line: Seq<u8>) -> Seq<(Seq<char>, bool)> {
    Seq::new(split(line, 9).len(), |i: int| cell_of(split(line, 9)[i]))
}

/// The rows of a block whose last line feed is taken off.
pub open spec fn rows_of(body: Seq<u8>) -> Seq<Seq<(Seq<char>, bool)>> {
    Seq::new(split(body, 10).len(), |i: int| row_of(split(body, 10)[i]))
}

/// The first row that is not as long as the first one.
pub open spec fn first_ragged<T>(rows: Seq<Seq<T>>) -> Option<nat>
    decreases rows.len(),
{
    if rows.len() == 0 {
        None
    } else {
        match first_ragged(rows.drop_last()) {
            Some(r) => Some(r),
            None => if rows.last().len() != rows[0].len() {
                Some((rows.len() - 1) as nat)
            } else {
                None
            },
        }
    }
}

/// What a block parses to: it must not be empty, its last row must end in a line feed, and
/// its rows must be equally long.
pub open spec fn parsed(tail: Seq<u8>) -> Result<Seq<Seq<(Seq<char>, bool)>>, FailureV> {
    if tail.len() == 0 {
        Err(refusal("anchor"@, "the edit block is empty — nothing to insert"@))
    } else if tail.last() != 10 {
        Err(refusal("anchor"@, "the edit block's last row is not LF-terminated"@))
    } else {
        let rows = rows_of(tail.drop_last());
        match first_ragged(rows) {
            Some(r) => Err(
                rows_refusal(
                    "anchor"@,
                    wording::ragged_msg(
                        (r + 1) as u64,
                        rows[r as int].len() as u64,
                        rows[0].len() as u64,
                    ),
                    seq![r as u64],
                ),
            ),
            None => Ok(rows),
        }
    }
}

/// The cells of a parsed row.
pub open spec fn row_view(v: Seq<(String, bool)>) -> Seq<(Seq<char>, bool)> {
    Seq::new(v.len(), |i: int| (v[i].0@, v[i].1))
}

impl View for ParsedBlock {
    type V = Seq<Seq<(Seq<char>, bool)>>;

    open spec fn view(&self) -> Seq<Seq<(Seq<char>, bool)>> {
        Seq::new(self.cells@.len(), |i: int| row_view(self.cells@[i]@))
    }
}

/// The pieces of a list of byte strings.
pub open spec fn pieces(v: Seq<Vec<u8>>) -> Seq<Seq<u8>> {
    Seq::new(v.len(), |i: int| v[i]@)
}

/// Parts bytes at every separator.
pub fn split_bytes(s: &[u8], sep: u8) -> (r: Vec<Vec<u8>>)
    ensures
        pieces(r@) == split(s@, sep),
        r@.len() > 0,
{
    let mut done: Vec<Vec<u8>> = Vec::new();
    let mut cur: Vec<u8> = Vec::new();
    let mut i: usize = 0;
    assert(s@.take(0) =~= Seq::empty());
    assert(pieces(done@).push(cur@) =~= split(s@.take(0), sep));
    while i < s.len()
        invariant
            i <= s.len(),
            pieces(done@).push(cur@) == split(s@.take(i as int), sep),
        decreases s.len() - i,
    {
        let ghost p = split(s@.take(i as int), sep);
        assert(s@.take(i + 1).drop_last() =~= s@.take(i as int));
        assert(p.last() == cur@);
        assert(p.drop_last() =~= pieces(done@));
        let b = s[i];
        if b == sep {
            let ghost before = done@;
            done.push(cur);
            cur = Vec::new();
            assert(pieces(done@).push(cur@) =~= p.push(Seq::empty()));
        } else {
            let ghost prior = cur@;
            cur.push(b);
            assert(pieces(done@).push(cur@) =~= p.drop_last().push(p.last().push(b)));
        }
        i = i + 1;
    }
    assert(s@.take(s@.len() as int) =~= s@);
    let ghost before = done@;
    let ghost last = cur@;
    done.push(cur);
    assert(pieces(done@) =~= pieces(before).push(last));
    done
}

/// Resolves the escapes of a cell.
pub fn unescape(s: &Vec<u8>) -> (r: Vec<u8>)
    ensures
        r@ == unescaped(s@),
{
    let mut out: Vec<u8> = Vec::new();
    let mut i: usize = 0;
    assert(s@.skip(0) =~= s@);
    while i < s.len()
        invariant
            i <= s.len(),
            out@ + unescaped(s@.skip(i as int)) == unescaped(s@),
        decreases s.len() - i,
    {
        let ghost rest = s@.skip(i as int);
        assert(rest[0] == s@[i as int]);
        let esc: Option<u8> = if s[i] == 92 && s.len() - i > 1 {
            let b = s[i + 1];
            if b == 116 {
                Some(9)
            } else if b == 110 {
                Some(10)
            } else if b == 92 {
                Some(92)
            } else {
                None
            }
        } else {
            None
        };
        let ghost before = out@;
        match esc {
            Some(b) => {
                assert(rest[1] == s@[i + 1]);
                out.push(b);
                assert(rest.skip(2) =~= s@.skip(i + 2));
                assert(out@ + unescaped(s@.skip(i + 2)) =~= before + unescaped(rest));
                i = i + 2;
            },
            None => {
                assert(s@.len() - i > 1 ==> rest[1] == s@[i + 1]);
                out.push(s[i]);
                assert(rest.skip(1) =~= s@.skip(i + 1));
                assert(out@ + unescaped(s@.skip(i + 1)) =~= before + unescaped(rest));
                i = i + 1;
            },
        }
    }
    assert(s@.skip(s@.len() as int) =~= Seq::empty());
    assert(out@ =~= unescaped(s@));
    out
}

/// Reads a cell.
pub fn unescape_cell(raw: &Vec<u8>) -> (r: (String, bool))
    ensures
        (r.0@, r.1) == cell_of(raw@),
{
    if raw.len() == 2 && raw[0] == 92 && raw[1] == 78 {
        assert(raw@ =~= seq![92u8, 78u8]);
        let e = String::new();
        assert(e@ =~= Seq::empty());
        (e, true)
    } else {
        (text_of_bytes(&unescape(raw)), false)
    }
}

/// Reads the cells of a row.
pub fn parse_row(line: &Vec<u8>) -> (r: Vec<(String, bool)>)
    ensures
        row_view(r@) == row_of(line@),
        r@.len() > 0,
{
    let raws = split_bytes(line.as_slice(), 9);
    let mut row: Vec<(String, bool)> = Vec::new();
    let mut i: usize = 0;
    while i < raws.len()
        invariant
            i <= raws.len(),
            row@.len() == i,
            pieces(raws@) == split(line@, 9),
            row_view(row@) =~= row_of(line@).take(i as int),
        decreases raws.len() - i,
    {
        assert(pieces(raws@)[i as int] == raws@[i as int]@);
        row.push(unescape_cell(&raws[i]));
        i = i + 1;
    }
    assert(row_view(row@) =~= row_of(line@));
    row
}

proof fn lemma_ragged_prefix<T>(rows: Seq<Seq<T>>, k: int)
    requires
        0 <= k <= rows.len(),
        first_ragged(rows.take(k)) is Some,
    ensures
        first_ragged(rows) == first_ragged(rows.take(k)),
    decreases rows.len() - k,
{
    if k < rows.len() {
        assert(rows.take(k + 1).drop_last() =~= rows.take(k));
        lemma_ragged_prefix(rows, k + 1);
    } else {
        assert(rows.take(k) =~= rows);
    }
}

/// The rows of an unragged block are as long as the first.
pub proof fn lemma_not_ragged<T>(rows: Seq<Seq<T>>)
    requires
        first_ragged(rows) is None,
    ensures
        forall|r: int| 0 <= r < rows.len() ==> (#[trigger] rows[r]).len() == rows[0].len(),
    decreases rows.len(),
{
    if rows.len() > 0 {
        lemma_not_ragged(rows.drop_last());
        assert forall|r: int| 0 <= r < rows.len() implies (#[trigger] rows[r]).len()
            == rows[0].len() by {
            if r < rows.len() - 1 {
                assert(rows.drop_last()[r] == rows[r]);
                assert(rows.drop_last()[0] == rows[0]);
            }
        }
    }
}

/// Parses the tail of a paste.
#[verifier::rlimit(50)]
pub fn parse_block(tail: &[u8]) -> (r: Result<ParsedBlock, EditFailure>)
    ensures
        match (r, parsed(tail@)) {
            (Ok(b), Ok(rows)) => b@ == rows && b.cells@.len() > 0 && b.cells@[0]@.len() > 0,
            (Err(e), Err(f)) => e@ == f,
            _ => false,
        },
{
    let len = tail.len();
    if len == 0 {
        return Err(
            EditFailure::refused(
                "anchor",
                "the edit block is empty — nothing to insert".to_string(),
            ),
        );
    }
    if tail[len - 1] != 10 {
        return Err(
            EditFailure::refused(
                "anchor",
                "the edit block's last row is not LF-terminated".to_string(),
            ),
        );
    }
    let body = vstd::slice::slice_subrange(tail, 0, len - 1);
    assert(body@ =~= tail@.drop_last());
    let lines = split_bytes(body, 10);
    let ghost rows = rows_of(tail@.drop_last());
    let mut cells: Vec<Vec<(String, bool)>> = Vec::new();
    let mut i: usize = 0;
    assert(rows.take(0) =~= Seq::empty());
    while i < lines.len()
        invariant
            i <= lines.len(),
            cells@.len() == i,
            lines@.len() > 0,
            tail@.len() > 0,
            tail@.last() == 10,
            rows == rows_of(tail@.drop_last()),
            pieces(lines@) == split(tail@.drop_last(), 10),
            (ParsedBlock { cells })@ =~= rows.take(i as int),
            first_ragged(rows.take(i as int)) is None,
            i > 0 ==> cells@[0]@.len() > 0,
        decreases lines.len() - i,
    {
        assert(pieces(lines@)[i as int] == lines@[i as int]@);
        let row = parse_row(&lines[i]);
        assert(row_view(row@) == rows[i as int]);
        assert(rows.take(i + 1).drop_last() =~= rows.take(i as int));
        if cells.len() > 0 {
            assert((ParsedBlock { cells })@[0] == rows[0]);
            if cells[0].len() != row.len() {
                proof {
                    assert(rows.take(i + 1)[0] == rows[0]);
                    lemma_ragged_prefix(rows, i + 1);
                    assert(rows.len() == lines@.len());
                }
                return Err(
                    EditFailure::refused_row(
                        "anchor",
                        wording::ragged(
                            i as u64 + 1,
                            row.len() as u64,
                            cells[0].len() as u64,
                        ),
                        i as u64,
                    ),
                );
            }
        }
        let ghost before = cells@;
        cells.push(row);
        assert((ParsedBlock { cells })@ =~= rows.take(i + 1)) by {
            assert forall|k: int| 0 <= k < i + 1 implies (ParsedBlock { cells })@[k]
                == rows.take(i + 1)[k] by {
                if k < i {
                    assert(cells@[k] == before[k]);
                    assert(rows.take(i as int)[k] == rows[k]);
                }
            }
        }
        i = i + 1;
    }
    assert(rows.take(rows.len() as int) =~= rows);
    Ok(ParsedBlock { cells })
}

} // verus!
