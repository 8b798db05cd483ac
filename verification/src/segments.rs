//! Where the rows of an edited dataset come from.
use vstd::prelude::*;

verus! {

/// The source of a range of output rows. `Copy` draws old rows under a fixed offset.
/// `Block` is a window that columns with window cells take from, while the others read the
/// old rows underneath. `Null` is a null range. `Restore` is a window of new rows: the
/// columns without window cells are null there.
#[derive(Debug, Clone, Copy, PartialEq, Eq)]
pub enum Seg {
    Copy { out: u64, old: u64, len: u64 },
    Block { out: u64, len: u64 },
    Null { len: u64 },
    Restore { len: u64 },
}

impl Seg {
    /// The number of output rows.
    pub open spec fn rows(self) -> nat {
        match self {
            Seg::Copy { len, .. } => len as nat,
            Seg::Block { len, .. } => len as nat,
            Seg::Null { len } => len as nat,
            Seg::Restore { len } => len as nat,
        }
    }

    /// The first old row that the segment wants and a dataset of `n` rows does not have.
    pub open spec fn overrun(self, n: nat) -> Option<nat> {
        match self {
            Seg::Copy { old, len, .. } => if len > 0 && old + len > n {
                Some(
                    if old as nat > n {
                        old as nat
                    } else {
                        n
                    },
                )
            } else {
                None
            },
            _ => None,
        }
    }
}

/// The number of output rows of a segment table.
pub open spec fn table_rows(segs: Seq<Seg>) -> nat
    decreases segs.len(),
{
    if segs.len() == 0 {
        0
    } else {
        table_rows(segs.drop_last()) + segs.last().rows()
    }
}

/// The first old row that a segment table wants and a dataset of `n` rows does not have.
pub open spec fn table_overrun(segs: Seq<Seg>, n: nat) -> Option<nat>
    decreases segs.len(),
{
    if segs.len() == 0 {
        None
    } else {
        match table_overrun(segs.drop_last(), n) {
            Some(row) => Some(row),
            None => segs.last().overrun(n),
        }
    }
}

/// The segments of a block of `r_len` rows pasted at `row` over `n_old` rows: the rows
/// before it, holes up to it, the window, the rows after it.
pub open spec fn block_table(n_old: u64, row: u64, r_len: u64) -> Seq<Seg> {
    let pre = if row < n_old {
        row
    } else {
        n_old
    };
    let head = if pre > 0 {
        seq![Seg::Copy { out: 0, old: 0, len: pre }]
    } else {
        Seq::empty()
    };
    let holes = if row > n_old {
        seq![Seg::Null { len: (row - n_old) as u64 }]
    } else {
        Seq::empty()
    };
    let end = (row + r_len) as u64;
    let tail = if row + r_len < n_old {
        seq![Seg::Copy { out: end, old: end, len: (n_old - end) as u64 }]
    } else {
        Seq::empty()
    };
    head + holes + seq![Seg::Block { out: row, len: r_len }] + tail
}

/// The segments of a paste.
pub fn block_segments(n_old: u64, row: u64, r_len: u64) -> (r: Vec<Seg>)
    requires
        row + r_len <= u64::MAX,
    ensures
        r@ == block_table(n_old, row, r_len),
{
    let pre: u64 = if row < n_old {
        row
    } else {
        n_old
    };
    let mut segs: Vec<Seg> = Vec::new();
    if pre > 0 {
        segs.push(Seg::Copy { out: 0, old: 0, len: pre });
    }
    if row > n_old {
        segs.push(Seg::Null { len: row - n_old });
    }
    segs.push(Seg::Block { out: row, len: r_len });
    let end: u64 = row + r_len;
    if end < n_old {
        segs.push(Seg::Copy { out: end, old: end, len: n_old - end });
    }
    assert(segs@ =~= block_table(n_old, row, r_len));
    segs
}

/// The segments of `count` null rows inserted at `at`.
pub open spec fn insert_rows_table(n_old: u64, at: u64, count: u64) -> Seq<Seg> {
    seq![
        Seg::Copy { out: 0, old: 0, len: at },
        Seg::Null { len: count },
        Seg::Copy { out: (at + count) as u64, old: at, len: (n_old - at) as u64 },
    ]
}

/// The segments of a row insertion.
pub fn insert_rows_segments(n_old: u64, at: u64, count: u64) -> (r: Vec<Seg>)
    requires
        at <= n_old,
        at + count <= u64::MAX,
    ensures
        r@ == insert_rows_table(n_old, at, count),
{
    let mut segs: Vec<Seg> = Vec::new();
    segs.push(Seg::Copy { out: 0, old: 0, len: at });
    segs.push(Seg::Null { len: count });
    segs.push(Seg::Copy { out: at + count, old: at, len: n_old - at });
    assert(segs@ =~= insert_rows_table(n_old, at, count));
    segs
}

/// The segments of `count` rows deleted from `at` on.
pub open spec fn delete_rows_table(n_old: u64, at: u64, count: u64) -> Seq<Seg> {
    seq![
        Seg::Copy { out: 0, old: 0, len: at },
        Seg::Copy {
            out: at,
            old: (at + count) as u64,
            len: (n_old - at - count) as u64,
        },
    ]
}

/// The segments of a row deletion.
pub fn delete_rows_segments(n_old: u64, at: u64, count: u64) -> (r: Vec<Seg>)
    requires
        at + count <= n_old,
    ensures
        r@ == delete_rows_table(n_old, at, count),
{
    let mut segs: Vec<Seg> = Vec::new();
    segs.push(Seg::Copy { out: 0, old: 0, len: at });
    segs.push(Seg::Copy { out: at, old: at + count, len: n_old - at - count });
    assert(segs@ =~= delete_rows_table(n_old, at, count));
    segs
}

/// The segments of `count` rows put back at `at`.
pub open spec fn restore_rows_table(n_old: u64, at: u64, count: u64) -> Seq<Seg> {
    seq![
        Seg::Copy { out: 0, old: 0, len: at },
        Seg::Restore { len: count },
        Seg::Copy { out: (at + count) as u64, old: at, len: (n_old - at) as u64 },
    ]
}

/// The segments of rows put back.
pub fn restore_rows_segments(n_old: u64, at: u64, count: u64) -> (r: Vec<Seg>)
    requires
        at <= n_old,
        at + count <= u64::MAX,
    ensures
        r@ == restore_rows_table(n_old, at, count),
{
    let mut segs: Vec<Seg> = Vec::new();
    segs.push(Seg::Copy { out: 0, old: 0, len: at });
    segs.push(Seg::Restore { len: count });
    segs.push(Seg::Copy { out: at + count, old: at, len: n_old - at });
    assert(segs@ =~= restore_rows_table(n_old, at, count));
    segs
}

} // verus!
