//! What every edit keeps of a dataset.
use vstd::prelude::*;
use crate::edit_cols::{
    declared_level, delete_cols_outcome, field_names, insert_cols_outcome, inserted_cols,
    inserted_names, lemma_names_len, lemma_specs_at, null_columns, with_cols, without_cols, SpecV,
};
use crate::edit_rows::{
    delete_rows_outcome, insert_rows_outcome, nulls, with_rows, without_rows,
};
use crate::names::{law_new_name_is_free, new_name};
use crate::number::NumeralsV;
use crate::table::{cell_fits, TableV};
use crate::text::{distinct, lemma_first_repeat};
use crate::undo::{regular, sound};

verus! {

/// An insertion of rows keeps a dataset regular, its levels distinct, its columns and their
/// dictionaries.
pub proof fn law_insert_rows_keeps_sound(t: TableV, at: u64, count: u64, revision: u64)
    requires
        regular(t),
        insert_rows_outcome(t, at, count, revision) is Ok,
    ensures
        ({
            let u = insert_rows_outcome(t, at, count, revision)->Ok_0.table;
            regular(u) && (sound(t) ==> sound(u)) && u.fields == t.fields && u.dicts == t.dicts
        }),
{
    let u = with_rows(t, at as int, count as nat);
    assert forall|j: int, i: int| 0 <= j < u.cols.len() && 0 <= i < u.rows implies cell_fits(
        u.fields[j],
        u.dicts[j],
        #[trigger] u.cols[j][i],
    ) by {
        assert(t.cols[j].len() == t.rows);
        if i < at {
            assert(u.cols[j][i] == t.cols[j][i]);
        } else if i >= at + count {
            assert(u.cols[j][i] == t.cols[j][i - count]);
        }
    }
    assert forall|j: int| 0 <= j < u.cols.len() implies (#[trigger] u.cols[j]).len() == u.rows by {
        assert(t.cols[j].len() == t.rows);
    }
}

/// A deletion of rows keeps a dataset regular, its levels distinct, and its columns.
pub proof fn law_delete_rows_keeps_sound(
    t: TableV,
    num: NumeralsV,
    at: u64,
    count: u64,
    revision: u64,
    w: Result<Seq<u8>, Seq<char>>,
)
    requires
        regular(t),
        delete_rows_outcome(t, num, at, count, revision, w) is Ok,
    ensures
        ({
            let u = delete_rows_outcome(t, num, at, count, revision, w)->Ok_0.table;
            regular(u) && (sound(t) ==> sound(u)) && u.fields == t.fields
        }),
{
    let u = without_rows(t, at as int, count as nat);
    assert forall|j: int, i: int| 0 <= j < u.cols.len() && 0 <= i < u.rows implies cell_fits(
        u.fields[j],
        u.dicts[j],
        #[trigger] u.cols[j][i],
    ) by {
        assert(t.cols[j].len() == t.rows);
        if i < at {
            assert(u.cols[j][i] == t.cols[j][i]);
        } else {
            assert(u.cols[j][i] == t.cols[j][i + count]);
        }
    }
    assert forall|j: int| 0 <= j < u.cols.len() implies (#[trigger] u.cols[j]).len() == u.rows by {
        assert(t.cols[j].len() == t.rows);
    }
}

/// A deletion of columns keeps a dataset regular, its levels distinct, and its names distinct.
pub proof fn law_delete_cols_keeps_sound(
    t: TableV,
    num: NumeralsV,
    at: u64,
    count: u64,
    revision: u64,
    w: Result<Seq<u8>, Seq<char>>,
)
    requires
        regular(t),
        delete_cols_outcome(t, num, at, count, revision, w) is Ok,
    ensures
        ({
            let u = delete_cols_outcome(t, num, at, count, revision, w)->Ok_0.table;
            regular(u) && (sound(t) ==> sound(u)) && (t.names_distinct() ==> u.names_distinct())
        }),
{
    let u = without_cols(t, at as int, count as int);
    assert forall|j: int| 0 <= j < u.fields.len() implies ({
        let k = if j < at {
            j
        } else {
            j + count
        };
        #[trigger] u.fields[j] == t.fields[k] && u.dicts[j] == t.dicts[k] && u.cols[j] == t.cols[k]
    }) by {}
    assert forall|j: int, i: int| 0 <= j < u.cols.len() && 0 <= i < u.rows implies cell_fits(
        u.fields[j],
        u.dicts[j],
        #[trigger] u.cols[j][i],
    ) by {
        let k = if j < at {
            j
        } else {
            j + count
        };
        assert(u.fields[j] == t.fields[k]);
        assert(cell_fits(t.fields[k], t.dicts[k], t.cols[k][i]));
    }
}

proof fn lemma_inserted_free(s: Seq<SpecV>, used: Seq<Seq<char>>, at: u64)
    requires
        distinct(used),
        used.len() + s.len() + 2 <= u64::MAX,
    ensures
        distinct(used + inserted_names(s, used, at)),
    decreases s.len(),
{
    if s.len() == 0 {
        assert(used + inserted_names(s, used, at) =~= used);
    } else {
        let p = inserted_names(s.drop_last(), used, at);
        lemma_inserted_free(s.drop_last(), used, at);
        let n = new_name(used + p, s.last().name, (at + s.len()) as u64);
        lemma_names_len(s.drop_last(), used, at);
        law_new_name_is_free(used + p, s.last().name, (at + s.len()) as u64);
        let all = used + p;
        assert(used + inserted_names(s, used, at) =~= all.push(n));
        assert forall|i: int, k: int| 0 <= i < k < all.push(n).len() implies all.push(n)[i]
            != all.push(n)[k] by {
            if k == all.len() {
                assert(all.contains(all[i]));
            }
        }
    }
}

/// An insertion of columns keeps a dataset regular, its levels distinct, and its names distinct: a
/// name that is taken is made free.
#[verifier::rlimit(50)]
pub proof fn law_insert_cols_keeps_sound(
    t: TableV,
    num: NumeralsV,
    at: u64,
    specs: Seq<SpecV>,
    revision: u64,
)
    requires
        regular(t),
        insert_cols_outcome(t, num, at, specs, revision) is Ok,
        forall|i: int|
            0 <= i < specs.len() && (#[trigger] specs[i]).levels is Some ==> specs[i].levels->0.len()
                <= u64::MAX,
    ensures
        ({
            let u = insert_cols_outcome(t, num, at, specs, revision)->Ok_0.table;
            regular(u) && (sound(t) ==> sound(u)) && (t.names_distinct() && u.fields.len() + 2 <= u64::MAX
                ==> u.names_distinct())
        }),
{
    let names = inserted_names(specs, field_names(t), at);
    lemma_names_len(specs, field_names(t), at);
    let cols = inserted_cols(specs, names);
    let fresh = null_columns(cols, t.rows);
    let u = with_cols(t, at as int, fresh);
    let m = specs.len();
    assert forall|j: int| 0 <= j < u.fields.len() implies if j < at {
        #[trigger] u.fields[j] == t.fields[j] && u.dicts[j] == t.dicts[j] && u.cols[j] == t.cols[j]
    } else if j < at + m {
        u.fields[j] == cols[j - at].field && u.cols[j] == nulls(t.rows) && (u.dicts[j] == Seq::<
            Seq<char>,
        >::empty() || u.dicts[j] == cols[j - at].levels)
    } else {
        u.fields[j] == t.fields[j - m] && u.dicts[j] == t.dicts[j - m] && u.cols[j] == t.cols[j - m]
    } by {}
    assert forall|i: int| 0 <= i < m implies declared_level(#[trigger] specs[i]) is Ok && distinct(
        cols[i].levels,
    ) && cols[i].levels.len() <= u64::MAX by {
        lemma_specs_at(specs, i);
        match specs[i].levels {
            Some(l) => lemma_first_repeat(l),
            None => {},
        }
    }
    assert forall|j: int| 0 <= j < u.fields.len() implies (#[trigger] u.fields[j]).level() is Some by {
        if at <= j < at + m {
            assert(declared_level(specs[j - at]) is Ok);
        }
    }
    assert forall|j: int| 0 <= j < u.dicts.len() implies (t.levels_distinct() ==> distinct(
        #[trigger] u.dicts[j],
    )) && u.dicts[j].len() <= u64::MAX by {
        assert(u.fields[j] == u.fields[j]);
        if at <= j < at + m {
            assert(declared_level(specs[j - at]) is Ok);
        }
    }
    assert forall|j: int| 0 <= j < u.cols.len() implies (#[trigger] u.cols[j]).len() == u.rows by {
        assert(u.fields[j] == u.fields[j]);
    }
    assert forall|j: int, i: int| 0 <= j < u.cols.len() && 0 <= i < u.rows implies cell_fits(
        u.fields[j],
        u.dicts[j],
        #[trigger] u.cols[j][i],
    ) by {
        assert(u.fields[j] == u.fields[j]);
        if j < at {
            assert(cell_fits(t.fields[j], t.dicts[j], t.cols[j][i]));
        } else if j >= at + m {
            assert(cell_fits(t.fields[j - m], t.dicts[j - m], t.cols[j - m][i]));
        }
    }
    assert forall|j: int| 0 <= j < u.dicts.len() && !(u.fields[j].kind is Dictionary) implies (
    #[trigger] u.dicts[j]) =~= Seq::empty() by {
        assert(u.fields[j] == u.fields[j]);
        if at <= j < at + m {
            assert(declared_level(specs[j - at]) is Ok);
        }
    }
    if t.names_distinct() && u.fields.len() + 2 <= u64::MAX {
        let used = field_names(t);
        assert(distinct(used));
        lemma_inserted_free(specs, used, at);
        let all = used + names;
        assert forall|i: int, k: int| 0 <= i < k < u.fields.len() implies (
        #[trigger] u.fields[i]).name != (#[trigger] u.fields[k]).name by {
            let place = |j: int|
                if j < at {
                    j
                } else if j < at + m {
                    t.fields.len() + j - at
                } else {
                    j - m
                };
            assert(u.fields[i].name == all[place(i)]);
            assert(u.fields[k].name == all[place(k)]);
            if place(i) < place(k) {
                assert(all[place(i)] != all[place(k)]);
            } else {
                assert(all[place(k)] != all[place(i)]);
            }
        }
    }
}

} // verus!
