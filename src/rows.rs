//! Rows read back from the `items` table, the two equivalent ways of
//! selecting them by identifier, and the check that both agree.

use vstd::prelude::*;

verus! {

/// A row of the `items` table; the price is in hundredths.
pub struct ItemRow {
    pub id: i64,
    pub name: String,
    pub price_cents: Option<i64>,
}

impl View for ItemRow {
    type V = (i64, Seq<char>, Option<i64>);

    open spec fn view(&self) -> (i64, Seq<char>, Option<i64>) {
        (self.id, self.name@, self.price_cents)
    }
}

/// The views of a list of rows.
pub open spec fn row_views(rows: Seq<ItemRow>) -> Seq<(i64, Seq<char>, Option<i64>)> {
    rows.map_values(|r: ItemRow| r@)
}

/// The rows of `table` whose identifier is one of `ids`, in table order: a
/// membership filter against the identifiers.
pub open spec fn select_in(table: Seq<(i64, Seq<char>, Option<i64>)>, ids: Seq<i64>) -> Seq<
    (i64, Seq<char>, Option<i64>),
> {
    table.filter(|r: (i64, Seq<char>, Option<i64>)| ids.contains(r.0))
}

/// How many times `x` occurs in `ids`.
pub open spec fn occurrences(ids: Seq<i64>, x: i64) -> nat
    decreases ids.len(),
{
    if ids.len() == 0 {
        0
    } else {
        occurrences(ids.drop_last(), x) + if ids.last() == x {
            1nat
        } else {
            0nat
        }
    }
}

/// The rows of `table` joined with the expanded identifier batch `ids` on
/// identifier equality, in table order: each row once for each identifier
/// that matches it.
pub open spec fn select_join(table: Seq<(i64, Seq<char>, Option<i64>)>, ids: Seq<i64>) -> Seq<
    (i64, Seq<char>, Option<i64>),
>
    decreases table.len(),
{
    if table.len() == 0 {
        seq![]
    } else {
        select_join(table.drop_last(), ids) + Seq::new(
            occurrences(ids, table.last().0),
            |i: int| table.last(),
        )
    }
}

proof fn lemma_occurrences_distinct(ids: Seq<i64>, x: i64)
    requires
        ids.no_duplicates(),
    ensures
        occurrences(ids, x) == if ids.contains(x) {
            1nat
        } else {
            0nat
        },
    decreases ids.len(),
{
    if ids.len() > 0 {
        let init = ids.drop_last();
        assert(init.no_duplicates());
        lemma_occurrences_distinct(init, x);
        if ids.last() == x {
            if init.contains(x) {
                let j = choose|j: int| 0 <= j < init.len() && init[j] == x;
                assert(ids[j] == ids[ids.len() - 1]);
            }
        }
        if ids.contains(x) && ids.last() != x {
            let j = choose|j: int| 0 <= j < ids.len() && ids[j] == x;
            assert(init[j] == x);
        }
        if init.contains(x) {
            let j = choose|j: int| 0 <= j < init.len() && init[j] == x;
            assert(ids[j] == x);
        }
    }
}

/// With distinct identifiers, joining the table against the expanded batch
/// returns exactly the rows that the membership filter returns, in the same
/// order; both are empty where no identifier matches.
pub proof fn lemma_join_matches_filter(table: Seq<(i64, Seq<char>, Option<i64>)>, ids: Seq<i64>)
    requires
        ids.no_duplicates(),
    ensures
        select_join(table, ids) == select_in(table, ids),
    decreases table.len(),
{
    if table.len() > 0 {
        lemma_join_matches_filter(table.drop_last(), ids);
        lemma_occurrences_distinct(ids, table.last().0);
        let last = table.last();
        let pred = |r: (i64, Seq<char>, Option<i64>)| ids.contains(r.0);
        let prev = select_in(table.drop_last(), ids);
        assert(select_in(table, ids) == table.filter(pred));
        assert(prev == table.drop_last().filter(pred));
        reveal(Seq::filter);
        if ids.contains(last.0) {
            assert(table.filter(pred) == prev.push(last));
            assert(Seq::new(1nat, |i: int| last) =~= seq![last]);
            assert(select_join(table, ids) =~= prev.push(last));
        } else {
            assert(table.filter(pred) == prev);
            assert(Seq::new(0nat, |i: int| last) =~= Seq::<(i64, Seq<char>, Option<i64>)>::empty());
            assert(select_join(table, ids) =~= prev);
        }
    } else {
        reveal(Seq::filter);
        assert(select_join(table, ids) =~= select_in(table, ids));
    }
}

/// Compares two rows field by field.
pub fn same_row(a: &ItemRow, b: &ItemRow) -> (r: bool)
    ensures
        r == (a@ == b@),
{
    let prices = match (a.price_cents, b.price_cents) {
        (Some(x), Some(y)) => x == y,
        (None, None) => true,
        _ => false,
    };
    a.id == b.id && a.name == b.name && prices
}

/// Whether two query results hold the same rows in the same order.
pub fn rows_agree(a: &Vec<ItemRow>, b: &Vec<ItemRow>) -> (r: bool)
    ensures
        r == (row_views(a@) == row_views(b@)),
{
    if a.len() != b.len() {
        proof {
            assert(row_views(a@).len() != row_views(b@).len());
        }
        return false;
    }
    let mut i: usize = 0;
    while i < a.len()
        invariant
            i <= a@.len(),
            a@.len() == b@.len(),
            forall|j: int| 0 <= j < i ==> #[trigger] a@[j]@ == b@[j]@,
        decreases a@.len() - i,
    {
        if !same_row(&a[i], &b[i]) {
            proof {
                assert(row_views(a@)[i as int] != row_views(b@)[i as int]);
            }
            return false;
        }
        i = i + 1;
    }
    proof {
        assert(row_views(a@) =~= row_views(b@));
    }
    true
}

} // verus!
