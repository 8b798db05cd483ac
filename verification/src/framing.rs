//! Frames on the wire: the length of the JSON part, the JSON part, and a binary tail.
use vstd::prelude::*;

verus! {

/// A number as four bytes, the highest first.
pub open spec fn be_bytes(n: u32) -> Seq<u8> {
    seq![
        (n / 0x100_0000) as u8,
        (n / 0x1_0000 % 0x100) as u8,
        (n / 0x100 % 0x100) as u8,
        (n % 0x100) as u8,
    ]
}

/// The number that four bytes give, the highest first.
pub open spec fn be_number(b: Seq<u8>) -> nat {
    (b[0] * 0x100_0000 + b[1] * 0x1_0000 + b[2] * 0x100 + b[3]) as nat
}

/// A frame: the length of the JSON part in four bytes, the JSON part, and the tail.
pub open spec fn framed(json: Seq<u8>, binary: Seq<u8>) -> Seq<u8> {
    be_bytes(json.len() as u32) + json + binary
}

/// Appends bytes.
fn append(out: &mut Vec<u8>, b: &[u8])
    ensures
        final(out)@ == old(out)@ + b@,
{
    let ghost before = out@;
    let mut i: usize = 0;
    assert(out@ =~= before + b@.take(0));
    while i < b.len()
        invariant
            i <= b.len(),
            out@ == before + b@.take(i as int),
        decreases b.len() - i,
    {
        out.push(b[i]);
        assert(b@.take(i + 1) =~= b@.take(i as int).push(b@[i as int]));
        assert(out@ =~= before + b@.take(i + 1));
        i = i + 1;
    }
    assert(b@.take(b@.len() as int) =~= b@);
}

/// Frames a JSON part with a binary tail.
pub fn frame_parts(json: &[u8], binary: &[u8]) -> (r: Vec<u8>)
    ensures
        r@ == framed(json@, binary@),
{
    let n: u32 = json.len() as u32;
    let mut out: Vec<u8> = Vec::new();
    out.push((n / 0x100_0000) as u8);
    out.push((n / 0x1_0000 % 0x100) as u8);
    out.push((n / 0x100 % 0x100) as u8);
    out.push((n % 0x100) as u8);
    assert(out@ =~= be_bytes(n));
    append(&mut out, json);
    append(&mut out, binary);
    out
}

/// Frames a JSON part.
pub fn frame_bytes(json: &[u8]) -> (r: Vec<u8>)
    ensures
        r@ == framed(json@, Seq::empty()),
{
    let none: Vec<u8> = Vec::new();
    assert(none@ =~= Seq::empty());
    frame_parts(json, none.as_slice())
}

/// The JSON part of a frame, where the frame holds as many bytes as it announces.
pub open spec fn json_part(body: Seq<u8>) -> Option<Seq<u8>> {
    if body.len() < 4 || body.len() < 4 + be_number(body) {
        None
    } else {
        Some(body.subrange(4, 4 + be_number(body) as int))
    }
}

/// Copies a range of bytes.
fn copy_range(body: &[u8], from: usize, to: usize) -> (r: Vec<u8>)
    requires
        from <= to <= body@.len(),
    ensures
        r@ == body@.subrange(from as int, to as int),
{
    let mut out: Vec<u8> = Vec::new();
    let mut i: usize = from;
    while i < to
        invariant
            from <= i <= to <= body@.len(),
            out@ =~= body@.subrange(from as int, i as int),
        decreases to - i,
    {
        out.push(body[i]);
        i = i + 1;
    }
    out
}

/// The end of the JSON part of a frame.
fn json_end(body: &[u8]) -> (r: Option<usize>)
    ensures
        match r {
            Some(e) => body@.len() >= 4 && e == 4 + be_number(body@) && e <= body@.len(),
            None => json_part(body@) is None,
        },
{
    if body.len() < 4 {
        return None;
    }
    let len: u64 = body[0] as u64 * 0x100_0000 + body[1] as u64 * 0x1_0000 + body[2] as u64 * 0x100
        + body[3] as u64;
    if (body.len() as u64) < 4 + len {
        return None;
    }
    Some(4 + len as usize)
}

/// Takes the JSON part out of a frame.
pub fn deframe(body: &[u8]) -> (r: Option<Vec<u8>>)
    ensures
        match (r, json_part(body@)) {
            (Some(a), Some(b)) => a@ == b,
            (None, None) => true,
            _ => false,
        },
{
    match json_end(body) {
        Some(e) => Some(copy_range(body, 4, e)),
        None => None,
    }
}

/// The tail of a frame.
pub open spec fn tail_part(body: Seq<u8>) -> Option<Seq<u8>> {
    match json_part(body) {
        Some(j) => Some(body.skip(4 + j.len() as int)),
        None => None,
    }
}

/// Takes the binary tail out of a frame.
pub fn frame_tail(body: &[u8]) -> (r: Option<Vec<u8>>)
    ensures
        match (r, tail_part(body@)) {
            (Some(a), Some(b)) => a@ == b,
            (None, None) => true,
            _ => false,
        },
{
    match json_end(body) {
        Some(e) => {
            let t = copy_range(body, e, body.len());
            assert(t@ =~= body@.skip(e as int));
            Some(t)
        },
        None => None,
    }
}

proof fn lemma_be(n: u32)
    ensures
        be_number(be_bytes(n)) == n,
{
    assert((n / 0x100_0000) < 0x100 && n / 0x1_0000 % 0x100 < 0x100 && n / 0x100 % 0x100 < 0x100
        && n % 0x100 < 0x100);
    assert((n / 0x100_0000) * 0x100_0000 + (n / 0x1_0000 % 0x100) * 0x1_0000 + (n / 0x100 % 0x100)
        * 0x100 + n % 0x100 == n) by (nonlinear_arith);
}

/// What was framed comes out again, for a JSON part whose length fits in four bytes; a tail
/// does not disturb it.
pub proof fn law_frames_come_out(json: Seq<u8>, binary: Seq<u8>)
    requires
        json.len() <= u32::MAX,
    ensures
        json_part(framed(json, binary)) == Some(json),
        tail_part(framed(json, binary)) == Some(binary),
{
    let n = json.len() as u32;
    let f = framed(json, binary);
    lemma_be(n);
    assert(be_number(f) == be_number(be_bytes(n)));
    assert(f.subrange(4, 4 + n) =~= json);
    assert(f.skip(4 + n) =~= binary);
}

/// A frame that is cut short anywhere in its JSON part is refused.
pub proof fn law_short_frames_are_refused(json: Seq<u8>, binary: Seq<u8>, k: int)
    requires
        json.len() <= u32::MAX,
        0 <= k < 4 + json.len(),
    ensures
        json_part(framed(json, binary).take(k)) is None,
{
    let n = json.len() as u32;
    let f = framed(json, binary).take(k);
    lemma_be(n);
    if k >= 4 {
        assert(be_number(f) == be_number(be_bytes(n)));
    }
}

} // verus!
