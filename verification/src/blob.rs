//! Which bytes a reader of Arrow files can be given: a file from elsewhere is looked over before
//! a reader gets it.
use arrow_ipc::{root_as_footer, root_as_message};
use vstd::prelude::*;
use vstd::slice::*;

verus! {

/// A part of a file: where it starts, and how long its message and its body are.
#[derive(Clone, Copy)]
pub struct FileBlock {
    pub offset: i64,
    pub head: i32,
    pub body: i64,
}

/// The type of a column as a file codes it: the code of the type, the precision of a number, and
/// for a dictionary the bits and the sign of its keys.
#[derive(Clone, Copy)]
pub struct ColumnType {
    pub code: u8,
    pub precision: Option<i16>,
    pub keys: Option<Option<(i32, bool)>>,
}

/// The buffers of a batch, each with its place in the body and its length, and the code of their
/// compression.
pub struct BatchParts {
    pub buffers: Vec<(i64, i64)>,
    pub codec: Option<i8>,
}

/// The mathematical value of [`BatchParts`].
#[verifier::ext_equal]
pub struct PartsV {
    pub buffers: Seq<(i64, i64)>,
    pub codec: Option<i8>,
}

impl View for BatchParts {
    type V = PartsV;

    open spec fn view(&self) -> PartsV {
        PartsV { buffers: self.buffers@, codec: self.codec }
    }
}

/// The record batches that a footer lists, where it is a footer.
pub uninterp spec fn record_blocks(footer: Seq<u8>) -> Option<Seq<FileBlock>>;

/// `arrow_ipc::root_as_footer` and `Footer::recordBatches`. The result depends on the bytes
/// alone.
#[verifier::external_body]
fn list_records(footer: &[u8]) -> (r: Option<Vec<FileBlock>>)
    ensures
        match (r, record_blocks(footer@)) {
            (Some(v), Some(s)) => v@ == s,
            (None, None) => true,
            _ => false,
        },
{
    let blocks = root_as_footer(footer).ok()?.recordBatches()?;
    let block = |b: &arrow_ipc::Block| FileBlock {
        offset: b.offset(),
        head: b.metaDataLength(),
        body: b.bodyLength(),
    };
    Some(blocks.iter().map(block).collect())
}

/// The dictionaries that a footer lists, where it is a footer.
pub uninterp spec fn dictionary_blocks(footer: Seq<u8>) -> Option<Seq<FileBlock>>;

/// `arrow_ipc::root_as_footer` and `Footer::dictionaries`: none where the footer has no list.
/// The result depends on the bytes alone.
#[verifier::external_body]
fn list_dictionaries(footer: &[u8]) -> (r: Option<Vec<FileBlock>>)
    ensures
        match (r, dictionary_blocks(footer@)) {
            (Some(v), Some(s)) => v@ == s,
            (None, None) => true,
            _ => false,
        },
{
    let blocks = root_as_footer(footer).ok()?.dictionaries();
    let block = |b: &arrow_ipc::Block| FileBlock {
        offset: b.offset(),
        head: b.metaDataLength(),
        body: b.bodyLength(),
    };
    Some(blocks.into_iter().flatten().map(block).collect())
}

/// The types of the columns that a footer describes, where it is a footer.
pub uninterp spec fn column_types(footer: Seq<u8>) -> Option<Seq<ColumnType>>;

/// `arrow_ipc::root_as_footer` and `Footer::schema`. The result depends on the bytes alone.
#[verifier::external_body]
fn list_types(footer: &[u8]) -> (r: Option<Vec<ColumnType>>)
    ensures
        match (r, column_types(footer@)) {
            (Some(v), Some(s)) => v@ == s,
            (None, None) => true,
            _ => false,
        },
{
    let fields = root_as_footer(footer).ok()?.schema()?.fields()?;
    let kind = |f: arrow_ipc::Field| ColumnType {
        code: f.type_type().0,
        precision: f.type_as_floating_point().map(|p| p.precision().0),
        keys: f.dictionary().map(|d| d.indexType().map(|i| (i.bitWidth(), i.is_signed()))),
    };
    Some(fields.iter().map(kind).collect())
}

/// The buffers of a record batch, where a message is one.
pub uninterp spec fn batch_parts(message: Seq<u8>) -> Option<PartsV>;

/// `arrow_ipc::root_as_message` and `Message::header_as_record_batch`. The result depends on the
/// bytes alone.
#[verifier::external_body]
fn read_batch(message: &[u8]) -> (r: Option<BatchParts>)
    ensures
        match (r, batch_parts(message@)) {
            (Some(p), Some(s)) => p@ == s,
            (None, None) => true,
            _ => false,
        },
{
    let batch = root_as_message(message).ok()?.header_as_record_batch()?;
    let buffers = batch.buffers()?.iter().map(|b| (b.offset(), b.length())).collect();
    Some(BatchParts { buffers, codec: batch.compression().map(|c| c.codec().0) })
}

/// The buffers of a dictionary batch, where a message is one.
pub uninterp spec fn dictionary_parts(message: Seq<u8>) -> Option<PartsV>;

/// `arrow_ipc::root_as_message` and `Message::header_as_dictionary_batch`. The result depends on
/// the bytes alone.
#[verifier::external_body]
fn read_dictionary(message: &[u8]) -> (r: Option<BatchParts>)
    ensures
        match (r, dictionary_parts(message@)) {
            (Some(p), Some(s)) => p@ == s,
            (None, None) => true,
            _ => false,
        },
{
    let batch = root_as_message(message).ok()?.header_as_dictionary_batch()?.data()?;
    let buffers = batch.buffers()?.iter().map(|b| (b.offset(), b.length())).collect();
    Some(BatchParts { buffers, codec: batch.compression().map(|c| c.codec().0) })
}

/// A column that holds numbers, or strings under 32-bit keys.
pub open spec fn type_known(t: ColumnType) -> bool {
    match t.keys {
        None => t.code == 3 && t.precision == Some(2i16),
        Some(k) => t.code == 5 && k == Some((32i32, true)),
    }
}

/// The number that bytes spell, the lowest first.
pub open spec fn spelled(s: Seq<u8>) -> nat
    decreases s.len(),
{
    if s.len() == 0 {
        0
    } else {
        s[0] as nat + 256 * spelled(s.skip(1))
    }
}

/// The length that room is made for, however short the buffer that spells it.
pub const MAX_EXPANDED: u64 = 0x7fff_ffff;

/// A buffer can be expanded: there is room for the length that the first eight bytes of a
/// compressed buffer spell, and numbers of four or eight bytes come out whole. None of the bytes
/// behind the length stands for more than a few hundred. A length that is no length is reported.
pub open spec fn expands(buffer: Seq<u8>, codec: Option<i8>, whole: bool) -> bool {
    if buffer.len() == 0 || codec is None {
        whole ==> buffer.len() % 4 == 0
    } else if buffer.len() < 8 {
        true
    } else {
        let n = spelled(buffer.take(8));
        if n == u64::MAX {
            whole ==> (buffer.len() - 8) % 4 == 0
        } else if n > i64::MAX {
            true
        } else {
            (n <= MAX_EXPANDED || n <= 512 * buffer.len()) && (whole ==> n % 4 == 0)
        }
    }
}

/// A buffer lies in its body and can be expanded.
pub open spec fn buffer_fits(body: Seq<u8>, b: (i64, i64), codec: Option<i8>, whole: bool) -> bool {
    &&& 0 <= b.0
    &&& 0 <= b.1
    &&& b.0 + b.1 <= body.len()
    &&& expands(body.subrange(b.0 as int, b.0 + b.1), codec, whole)
}

/// The buffer that holds numbers: behind the null marks, in a dictionary the offsets, in a
/// record batch the values or keys of each column.
pub open spec fn holds_numbers(dictionary: bool, i: int) -> bool {
    if dictionary {
        i == 1
    } else {
        i % 2 == 1
    }
}

/// A buffer that belongs to a column: two to each column of a record batch, and three to a
/// dictionary. Others are not looked at.
pub open spec fn belongs(dictionary: bool, columns: nat, i: int) -> bool {
    if dictionary {
        i < 3
    } else {
        i / 2 < columns
    }
}

/// The buffers of a batch fit its body.
pub open spec fn parts_fit(body: Seq<u8>, p: PartsV, dictionary: bool, columns: nat) -> bool {
    forall|i: int|
        0 <= i < p.buffers.len() && belongs(dictionary, columns, i) ==> buffer_fits(
            body,
            #[trigger] p.buffers[i],
            p.codec,
            holds_numbers(dictionary, i),
        )
}

/// A part begins with a mark.
pub open spec fn marked(file: Seq<u8>, at: int) -> bool {
    file[at] == 255 && file[at + 1] == 255 && file[at + 2] == 255 && file[at + 3] == 255
}

/// Where the message of a part begins: behind a length, and behind a mark before that where there
/// is one.
pub open spec fn message_start(file: Seq<u8>, b: FileBlock) -> int {
    if marked(file, b.offset as int) {
        b.offset + 8
    } else {
        b.offset + 4
    }
}

/// A part lies in the file, and its message begins in it.
pub open spec fn block_fits(file: Seq<u8>, b: FileBlock) -> bool {
    &&& 0 <= b.offset
    &&& 0 <= b.head
    &&& 0 <= b.body
    &&& 4 <= b.head + b.body
    &&& b.offset + b.head + b.body <= file.len()
    &&& message_start(file, b) <= b.offset + b.head + b.body
}

/// The message of a part.
pub open spec fn message_in(file: Seq<u8>, b: FileBlock) -> Seq<u8> {
    file.subrange(message_start(file, b), b.offset + b.head + b.body)
}

/// The body of a part.
pub open spec fn body_in(file: Seq<u8>, b: FileBlock) -> Seq<u8> {
    file.subrange(b.offset + b.head, b.offset + b.head + b.body)
}

/// A part whose record batch of some columns, if it holds one, fits it.
pub open spec fn record_fits(file: Seq<u8>, b: FileBlock, columns: nat) -> bool {
    block_fits(file, b) && match batch_parts(message_in(file, b)) {
        Some(p) => parts_fit(body_in(file, b), p, false, columns),
        None => true,
    }
}

/// A part whose dictionary, if it holds one, fits it.
pub open spec fn dictionary_fits(file: Seq<u8>, b: FileBlock) -> bool {
    block_fits(file, b) && match dictionary_parts(message_in(file, b)) {
        Some(p) => parts_fit(body_in(file, b), p, true, 1),
        None => true,
    }
}

/// The footer of a file: before its length, which stands before the six bytes at the end.
pub open spec fn footer_of(file: Seq<u8>) -> Option<Seq<u8>> {
    let n = file.len() as int;
    if n < 10 {
        None
    } else {
        let len = spelled(file.subrange(n - 10, n - 6));
        if len > n - 10 {
            None
        } else {
            Some(file.subrange(n - 10 - len, n - 10))
        }
    }
}

/// The columns of a file are numbers or strings under keys, and its parts lie in it.
pub open spec fn file_fits(
    file: Seq<u8>,
    types: Seq<ColumnType>,
    dictionaries: Seq<FileBlock>,
    records: Seq<FileBlock>,
) -> bool {
    &&& forall|i: int| 0 <= i < types.len() ==> type_known(#[trigger] types[i])
    &&& forall|i: int|
        0 <= i < dictionaries.len() ==> dictionary_fits(file, #[trigger] dictionaries[i])
    &&& records.len() > 0 ==> record_fits(file, records[0], types.len())
}

/// Bytes that a reader takes or reports a fault of: where there is a footer, the file is as it
/// says.
pub open spec fn readable(file: Seq<u8>) -> bool {
    match footer_of(file) {
        None => true,
        Some(f) => match (column_types(f), dictionary_blocks(f), record_blocks(f)) {
            (Some(types), Some(dictionaries), Some(records)) => file_fits(
                file,
                types,
                dictionaries,
                records,
            ),
            _ => true,
        },
    }
}

/// Reads the number that four bytes spell.
fn spell_four(s: &[u8], at: usize) -> (r: u64)
    requires
        at + 4 <= s@.len(),
    ensures
        r == spelled(s@.subrange(at as int, at + 4)),
        r <= u32::MAX,
{
    proof {
        reveal_with_fuel(spelled, 5);
        let p = s@.subrange(at as int, at + 4);
        assert(p.skip(1)[0] == s@[at + 1]);
        assert(p.skip(1).skip(1)[0] == s@[at + 2]);
        assert(p.skip(1).skip(1).skip(1)[0] == s@[at + 3]);
        assert(p.skip(1).skip(1).skip(1).skip(1).len() == 0);
    }
    s[at] as u64 + 256 * (s[at + 1] as u64) + 65_536 * (s[at + 2] as u64) + 16_777_216 * (s[at
        + 3] as u64)
}

proof fn lemma_spelled_apart(a: Seq<u8>, b: Seq<u8>)
    requires
        a.len() == 4,
        b.len() == 4,
    ensures
        spelled(a + b) == spelled(a) + 0x1_0000_0000 * spelled(b),
{
    reveal_with_fuel(spelled, 5);
    let s = a + b;
    assert(s.skip(1).skip(1).skip(1).skip(1) =~= b);
    assert(s.skip(1)[0] == a[1] && s.skip(1).skip(1)[0] == a[2]);
    assert(s.skip(1).skip(1).skip(1)[0] == a[3]);
    assert(a.skip(1)[0] == a[1] && a.skip(1).skip(1)[0] == a[2]);
    assert(a.skip(1).skip(1).skip(1)[0] == a[3]);
    assert(a.skip(1).skip(1).skip(1).skip(1).len() == 0);
    assert(spelled(s) == a[0] + 256 * (a[1] + 256 * (a[2] + 256 * (a[3] + 256 * spelled(b)))));
    assert(spelled(a) == a[0] + 256 * (a[1] + 256 * (a[2] + 256 * (a[3] as nat))));
}

/// Whether a buffer fits its body, which stands in a file from `from` on.
fn check_buffer(
    file: &[u8],
    from: usize,
    len: usize,
    b: (i64, i64),
    codec: Option<i8>,
    whole: bool,
) -> (r: bool)
    requires
        from + len <= file@.len(),
    ensures
        r == buffer_fits(file@.subrange(from as int, from + len), b, codec, whole),
{
    let ghost body = file@.subrange(from as int, from + len);
    let n = file.len();
    assert(from + len <= n);
    if b.0 < 0 || b.1 < 0 || b.0 as u64 > len as u64 || b.1 as u64 > len as u64 - b.0 as u64 {
        return false;
    }
    let at = from + b.0 as usize;
    let size = b.1 as u64;
    let ghost buffer = body.subrange(b.0 as int, b.0 + b.1);
    assert(buffer =~= file@.subrange(at as int, at + size));
    if size == 0 || codec.is_none() {
        return !whole || size % 4 == 0;
    }
    if size < 8 {
        return true;
    }
    let low = spell_four(file, at);
    let high = spell_four(file, at + 4);
    proof {
        let x = file@.subrange(at as int, at + 4);
        let y = file@.subrange(at + 4, at + 8);
        lemma_spelled_apart(x, y);
        assert(x + y =~= buffer.take(8));
    }
    let told: u64 = low + 0x1_0000_0000 * high;
    if told == u64::MAX {
        return !whole || (size - 8) % 4 == 0;
    }
    if told > i64::MAX as u64 {
        return true;
    }
    (told <= MAX_EXPANDED || told as u128 <= 512 * size as u128) && (!whole || told % 4 == 0)
}

/// Whether the buffers of a batch fit its body.
fn check_parts(
    file: &[u8],
    from: usize,
    len: usize,
    p: &BatchParts,
    dictionary: bool,
    columns: usize,
) -> (r: bool)
    requires
        from + len <= file@.len(),
    ensures
        r == parts_fit(
            file@.subrange(from as int, from + len),
            p@,
            dictionary,
            columns as nat,
        ),
{
    let ghost body = file@.subrange(from as int, from + len);
    let mut i: usize = 0;
    while i < p.buffers.len()
        invariant
            i <= p.buffers.len(),
            from + len <= file@.len(),
            body == file@.subrange(from as int, from + len),
            forall|k: int|
                0 <= k < i && belongs(dictionary, columns as nat, k) ==> buffer_fits(
                    body,
                    #[trigger] p@.buffers[k],
                    p@.codec,
                    holds_numbers(dictionary, k),
                ),
        decreases p.buffers.len() - i,
    {
        let whole = if dictionary {
            i == 1
        } else {
            i % 2 == 1
        };
        let b = p.buffers[i];
        assert(p@.buffers[i as int] == b);
        let used = if dictionary {
            i < 3
        } else {
            i / 2 < columns
        };
        if used && !check_buffer(file, from, len, b, p.codec, whole) {
            return false;
        }
        i = i + 1;
    }
    true
}

/// Whether a part begins with a mark.
fn is_marked(file: &[u8], at: usize) -> (r: bool)
    requires
        at + 4 <= file@.len(),
    ensures
        r == marked(file@, at as int),
{
    file[at] == 255 && file[at + 1] == 255 && file[at + 2] == 255 && file[at + 3] == 255
}

/// Whether a part lies in the file.
fn check_block(file: &[u8], b: FileBlock) -> (r: bool)
    ensures
        r == block_fits(file@, b),
{
    let n = file.len() as u64;
    if b.offset < 0 || b.head < 0 || b.body < 0 || b.offset as u64 > n || b.head as u64 > n
        - b.offset as u64 || b.body as u64 > n - b.offset as u64 - b.head as u64 {
        return false;
    }
    let size = b.head as u64 + b.body as u64;
    size >= 4 && (size >= 8 || !is_marked(file, b.offset as usize))
}

/// Takes the message out of a part.
fn take_message<'a>(file: &'a [u8], b: FileBlock) -> (r: &'a [u8])
    requires
        block_fits(file@, b),
    ensures
        r@ == message_in(file@, b),
{
    let n = file.len();
    assert(b.offset + b.head + b.body <= n);
    let at = b.offset as usize;
    let end = at + b.head as usize + b.body as usize;
    slice_subrange(
        file,
        if is_marked(file, at) {
            at + 8
        } else {
            at + 4
        },
        end,
    )
}

/// Whether the record batch of a part fits it.
fn check_record(file: &[u8], b: FileBlock, columns: usize) -> (r: bool)
    ensures
        r == record_fits(file@, b, columns as nat),
{
    if !check_block(file, b) {
        return false;
    }
    let n = file.len();
    assert(b.offset + b.head + b.body <= n);
    match read_batch(take_message(file, b)) {
        Some(p) => check_parts(
            file,
            b.offset as usize + b.head as usize,
            b.body as usize,
            &p,
            false,
            columns,
        ),
        None => true,
    }
}

/// Whether the dictionary of a part fits it.
fn check_dictionary(file: &[u8], b: FileBlock) -> (r: bool)
    ensures
        r == dictionary_fits(file@, b),
{
    if !check_block(file, b) {
        return false;
    }
    let n = file.len();
    assert(b.offset + b.head + b.body <= n);
    match read_dictionary(take_message(file, b)) {
        Some(p) => check_parts(
            file,
            b.offset as usize + b.head as usize,
            b.body as usize,
            &p,
            true,
            1,
        ),
        None => true,
    }
}

/// Whether a column holds numbers, or strings under 32-bit keys.
fn check_type(t: &ColumnType) -> (r: bool)
    ensures
        r == type_known(*t),
{
    match t.keys {
        None => t.code == 3 && match t.precision {
            Some(p) => p == 2,
            None => false,
        },
        Some(k) => t.code == 5 && match k {
            Some((bits, signed)) => bits == 32 && signed,
            None => false,
        },
    }
}

/// Whether a reader takes bytes or reports a fault of them.
pub fn check_file(file: &[u8]) -> (r: bool)
    ensures
        r == readable(file@),
{
    let n = file.len();
    if n < 10 {
        return true;
    }
    let len = spell_four(file, n - 10);
    if len > n as u64 - 10 {
        return true;
    }
    let footer = slice_subrange(file, n - 10 - len as usize, n - 10);
    let (types, dictionaries, records) = match (
        list_types(footer),
        list_dictionaries(footer),
        list_records(footer),
    ) {
        (Some(a), Some(b), Some(c)) => (a, b, c),
        _ => {
            return true;
        },
    };
    let ghost f = footer@;
    assert(footer_of(file@) == Some(f));
    let mut i: usize = 0;
    while i < types.len()
        invariant
            i <= types.len(),
            footer_of(file@) == Some(f),
            column_types(f) == Some(types@),
            dictionary_blocks(f) == Some(dictionaries@),
            record_blocks(f) == Some(records@),
            forall|k: int| 0 <= k < i ==> type_known(#[trigger] types@[k]),
        decreases types.len() - i,
    {
        if !check_type(&types[i]) {
            assert(!file_fits(file@, types@, dictionaries@, records@));
            return false;
        }
        i = i + 1;
    }
    i = 0;
    while i < dictionaries.len()
        invariant
            i <= dictionaries.len(),
            footer_of(file@) == Some(f),
            column_types(f) == Some(types@),
            dictionary_blocks(f) == Some(dictionaries@),
            record_blocks(f) == Some(records@),
            forall|k: int| 0 <= k < i ==> dictionary_fits(file@, #[trigger] dictionaries@[k]),
        decreases dictionaries.len() - i,
    {
        if !check_dictionary(file, dictionaries[i]) {
            assert(!file_fits(file@, types@, dictionaries@, records@));
            return false;
        }
        i = i + 1;
    }
    records.len() == 0 || check_record(file, records[0], types.len())
}

} // verus!
