//! The order of rows under keys, their stable sort, and their runs of equal
//! rows.

use crate::row::Row;
use crate::decimal::Number;
use crate::text::{
    lemma_lexicographic_equal, lemma_lexicographic_mirror, lemma_lexicographic_transitive,
    lemma_utf8_injective, utf8, Order,
};
use crate::value::{Cell, Scalar};
use crate::vecs::{reversed, take_next};
use itertools::Itertools;
use vstd::prelude::*;

verus! {

/// What a row holds under each key.
pub type Fields = Map<Seq<char>, Cell>;

/// The characters of each key.
pub open spec fn key_texts(keys: Seq<String>) -> Seq<Seq<char>> {
    Seq::new(keys.len(), |i: int| keys[i]@)
}

/// What each row holds.
pub open spec fn views(rows: Seq<Row>) -> Seq<Fields> {
    Seq::new(rows.len(), |i: int| rows[i]@)
}

/// What each of the rows that are referred to holds.
pub open spec fn ref_views(rows: Seq<&Row>) -> Seq<Fields> {
    Seq::new(rows.len(), |i: int| rows[i]@)
}

/// What each row of each group holds.
pub open spec fn group_views(groups: Seq<Vec<&Row>>) -> Seq<Seq<Fields>> {
    Seq::new(groups.len(), |g: int| ref_views(groups[g]@))
}

/// The row has a value under every key.
pub open spec fn covers(row: Fields, keys: Seq<Seq<char>>) -> bool {
    forall|i: int| 0 <= i < keys.len() ==> row.contains_key(#[trigger] keys[i])
}

/// Every row has a value under every key.
pub open spec fn all_cover(rows: Seq<Fields>, keys: Seq<Seq<char>>) -> bool {
    forall|i: int| 0 <= i < rows.len() ==> covers(#[trigger] rows[i], keys)
}

/// The order of two rows under keys: the first key under which the values
/// of the rows have an order other than equal decides; rows without such a
/// key are equal.
pub open spec fn row_order(a: Fields, b: Fields, keys: Seq<Seq<char>>) -> Order
    decreases keys.len(),
{
    if keys.len() == 0 {
        Order::Equal
    } else {
        match a[keys[0]].order(b[keys[0]]) {
            Some(Order::Less) => Order::Less,
            Some(Order::Greater) => Order::Greater,
            _ => row_order(a, b, keys.drop_first()),
        }
    }
}

/// The order of two rows under keys.
pub fn order_rows(a: &Row, b: &Row, keys: &[String]) -> (order: Order)
    requires
        covers(a@, key_texts(keys@)),
        covers(b@, key_texts(keys@)),
    ensures
        order == row_order(a@, b@, key_texts(keys@)),
{
    let ghost texts = key_texts(keys@);
    let mut i: usize = 0;
    assert(texts.skip(0) =~= texts);
    while i < keys.len()
        invariant
            i <= keys@.len(),
            texts == key_texts(keys@),
            covers(a@, texts),
            covers(b@, texts),
            row_order(a@, b@, texts) == row_order(a@, b@, texts.skip(i as int)),
        decreases keys@.len() - i,
    {
        proof {
            assert(texts.skip(i as int)[0] == texts[i as int]);
            assert(texts.skip(i as int).drop_first() =~= texts.skip(i + 1));
            assert(a@.contains_key(texts[i as int]));
            assert(b@.contains_key(texts[i as int]));
        }
        let x = a.get(keys[i].as_str()).unwrap();
        let y = b.get(keys[i].as_str()).unwrap();
        match x.order(y) {
            Some(Order::Less) => {
                return Order::Less;
            },
            Some(Order::Greater) => {
                return Order::Greater;
            },
            _ => {},
        }
        i = i + 1;
    }
    Order::Equal
}

/// Sorted rows with one more row: it stands behind the last row that is not
/// greater than it, and so behind every row that is equal to it.
pub open spec fn inserted(sorted: Seq<Fields>, row: Fields, keys: Seq<Seq<char>>) -> Seq<Fields>
    decreases sorted.len(),
{
    if sorted.len() == 0 {
        seq![row]
    } else if row_order(sorted.last(), row, keys) == Order::Greater {
        inserted(sorted.drop_last(), row, keys).push(sorted.last())
    } else {
        sorted.push(row)
    }
}

/// The rows in the order of the keys; rows that are equal under the keys
/// keep the order in which they were given.
pub open spec fn sorted(rows: Seq<Fields>, keys: Seq<Seq<char>>) -> Seq<Fields>
    decreases rows.len(),
{
    if rows.len() == 0 {
        Seq::empty()
    } else {
        inserted(sorted(rows.drop_last(), keys), rows.last(), keys)
    }
}

/// Inserting a row adds it and keeps all others.
pub proof fn lemma_inserted_contents(sorted: Seq<Fields>, row: Fields, keys: Seq<Seq<char>>)
    ensures
        inserted(sorted, row, keys).to_multiset() == sorted.to_multiset().insert(row),
        inserted(sorted, row, keys).len() == sorted.len() + 1,
    decreases sorted.len(),
{
    broadcast use vstd::seq_lib::group_to_multiset_ensures;

    if sorted.len() == 0 {
        assert(seq![row] =~= Seq::<Fields>::empty().push(row));
    } else if row_order(sorted.last(), row, keys) == Order::Greater {
        lemma_inserted_contents(sorted.drop_last(), row, keys);
        assert(sorted =~= sorted.drop_last().push(sorted.last()));
        assert(inserted(sorted, row, keys).to_multiset() =~= sorted.to_multiset().insert(row));
    }
}

/// Sorting rearranges the rows: it neither adds nor drops one.
pub proof fn lemma_sorted_is_rearranged(rows: Seq<Fields>, keys: Seq<Seq<char>>)
    ensures
        sorted(rows, keys).to_multiset() == rows.to_multiset(),
        sorted(rows, keys).len() == rows.len(),
    decreases rows.len(),
{
    broadcast use vstd::seq_lib::group_to_multiset_ensures;

    if rows.len() > 0 {
        lemma_sorted_is_rearranged(rows.drop_last(), keys);
        lemma_inserted_contents(sorted(rows.drop_last(), keys), rows.last(), keys);
        assert(rows =~= rows.drop_last().push(rows.last()));
    } else {
        assert(rows =~= Seq::<Fields>::empty());
    }
}

/// What sorting keeps true of every row stays true of the sorted rows.
pub proof fn lemma_sorted_keeps(rows: Seq<Fields>, keys: Seq<Seq<char>>, covered: Seq<Seq<char>>)
    requires
        all_cover(rows, covered),
    ensures
        all_cover(sorted(rows, keys), covered),
        sorted(rows, keys).len() == rows.len(),
{
    broadcast use vstd::seq_lib::group_to_multiset_ensures;

    lemma_sorted_is_rearranged(rows, keys);
    let out = sorted(rows, keys);
    assert forall|i: int| 0 <= i < out.len() implies covers(#[trigger] out[i], covered) by {
        assert(out.to_multiset().contains(out[i]));
        assert(rows.to_multiset().contains(out[i]));
        assert(rows.contains(out[i]));
        let j = choose|j: int| 0 <= j < rows.len() && rows[j] == out[i];
        assert(covers(rows[j], covered));
    }
}

/// The outcome of a comparison with its sides exchanged.
pub open spec fn mirrored(order: Order) -> Order {
    match order {
        Order::Less => Order::Greater,
        Order::Equal => Order::Equal,
        Order::Greater => Order::Less,
    }
}

/// Exchanging two values mirrors their order.
pub proof fn lemma_cell_order_mirror(a: Cell, b: Cell)
    ensures
        a.order(b) == match b.order(a) {
            Some(order) => Some(mirrored(order)),
            None => None,
        },
{
    match (a, b) {
        (Cell::Text(x), Cell::Text(y)) => {
            lemma_lexicographic_mirror(utf8(x), utf8(y));
            lemma_lexicographic_mirror(utf8(y), utf8(x));
        },
        _ => {},
    }
}

/// Exchanging two rows mirrors their order.
pub proof fn lemma_row_order_mirror(a: Fields, b: Fields, keys: Seq<Seq<char>>)
    ensures
        row_order(a, b, keys) == mirrored(row_order(b, a, keys)),
    decreases keys.len(),
{
    if keys.len() > 0 {
        lemma_cell_order_mirror(a[keys[0]], b[keys[0]]);
        lemma_row_order_mirror(a, b, keys.drop_first());
    }
}

/// The row `a` may stand before the row `b`: it is not the greater one.
pub open spec fn in_order(a: Fields, b: Fields, keys: Seq<Seq<char>>) -> bool {
    row_order(a, b, keys) != Order::Greater
}

/// Every row may stand before every later one.
pub open spec fn ordered(rows: Seq<Fields>, keys: Seq<Seq<char>>) -> bool {
    forall|i: int, j: int|
        0 <= i < j < rows.len() ==> in_order(#[trigger] rows[i], #[trigger] rows[j], keys)
}

/// Among the rows, what may stand before a row that may stand before a
/// third may stand before the third. This holds of all rows whose
/// quotients under the keys are defined.
pub open spec fn consistent(rows: Seq<Fields>, keys: Seq<Seq<char>>) -> bool {
    forall|a: Fields, b: Fields, c: Fields|
        rows.contains(a) && rows.contains(b) && rows.contains(c) && #[trigger] in_order(a, b, keys)
            && #[trigger] in_order(b, c, keys) ==> in_order(a, c, keys)
}

/// The value is no undefined quotient.
pub open spec fn defined(cell: Cell) -> bool {
    !(cell matches Cell::Decimal(Number::Undefined))
}

/// No value of the row under the keys is an undefined quotient.
pub open spec fn all_defined(row: Fields, keys: Seq<Seq<char>>) -> bool {
    forall|i: int| 0 <= i < keys.len() ==> defined(row[#[trigger] keys[i]])
}

/// Among values that are defined the order is that of a line: every two
/// values have an order, and what comes before a value that does not come
/// after a third comes before the third.
pub proof fn lemma_cell_order_transitive(a: Cell, b: Cell, c: Cell)
    requires
        defined(a),
        defined(b),
        defined(c),
    ensures
        a.order(b) is Some,
        a.order(b) == Some(Order::Less) && b.order(c) != Some(Order::Greater) ==> a.order(c)
            == Some(Order::Less),
        a.order(b) == Some(Order::Equal) ==> a.order(c) == b.order(c),
{
    match (a, b, c) {
        (Cell::Text(x), Cell::Text(y), Cell::Text(z)) => {
            if a.order(b) == Some(Order::Less) && b.order(c) != Some(Order::Greater) {
                lemma_lexicographic_transitive(utf8(x), utf8(y), utf8(z));
            }
            if a.order(b) == Some(Order::Equal) {
                lemma_lexicographic_equal(utf8(x), utf8(y));
                lemma_utf8_injective(x, y);
            }
        },
        (Cell::Text(x), Cell::Text(y), _) => {
            if a.order(b) == Some(Order::Equal) {
                lemma_lexicographic_equal(utf8(x), utf8(y));
                lemma_utf8_injective(x, y);
            }
        },
        _ => {},
    }
}

/// Among rows whose values under the keys are defined, what may stand before
/// a row that may stand before a third may stand before the third.
pub proof fn lemma_row_order_transitive(a: Fields, b: Fields, c: Fields, keys: Seq<Seq<char>>)
    requires
        all_defined(a, keys),
        all_defined(b, keys),
        all_defined(c, keys),
        in_order(a, b, keys),
        in_order(b, c, keys),
    ensures
        in_order(a, c, keys),
        row_order(a, b, keys) == Order::Less || row_order(b, c, keys) == Order::Less ==> row_order(
            a,
            c,
            keys,
        ) == Order::Less,
    decreases keys.len(),
{
    if keys.len() > 0 {
        let rest = keys.drop_first();
        assert(defined(a[keys[0]]) && defined(b[keys[0]]) && defined(c[keys[0]]));
        assert forall|i: int| 0 <= i < rest.len() implies defined(a[#[trigger] rest[i]]) && defined(
            b[rest[i]],
        ) && defined(c[rest[i]]) by {
            assert(rest[i] == keys[i + 1]);
        }
        lemma_cell_order_transitive(a[keys[0]], b[keys[0]], c[keys[0]]);
        lemma_cell_order_transitive(b[keys[0]], c[keys[0]], a[keys[0]]);
        lemma_cell_order_mirror(a[keys[0]], b[keys[0]]);
        lemma_cell_order_mirror(b[keys[0]], c[keys[0]]);
        lemma_cell_order_mirror(a[keys[0]], c[keys[0]]);
        if a[keys[0]].order(b[keys[0]]) == Some(Order::Equal) && b[keys[0]].order(c[keys[0]])
            == Some(Order::Equal) {
            lemma_row_order_transitive(a, b, c, rest);
        }
    }
}

/// The order of rows whose values under the keys are all defined is
/// consistent.
pub proof fn lemma_defined_is_consistent(rows: Seq<Fields>, keys: Seq<Seq<char>>)
    requires
        forall|i: int| 0 <= i < rows.len() ==> all_defined(#[trigger] rows[i], keys),
    ensures
        consistent(rows, keys),
{
    assert forall|a: Fields, b: Fields, c: Fields|
        rows.contains(a) && rows.contains(b) && rows.contains(c) && #[trigger] in_order(a, b, keys)
            && #[trigger] in_order(b, c, keys) implies in_order(a, c, keys) by {
        let i = choose|i: int| 0 <= i < rows.len() && rows[i] == a;
        let j = choose|j: int| 0 <= j < rows.len() && rows[j] == b;
        let k = choose|k: int| 0 <= k < rows.len() && rows[k] == c;
        assert(all_defined(rows[i], keys) && all_defined(rows[j], keys) && all_defined(
            rows[k],
            keys,
        ));
        lemma_row_order_transitive(a, b, c, keys);
    }
}

/// A row that is put among ordered rows leaves them ordered, where the
/// order of all rows is consistent.
pub proof fn lemma_inserted_is_ordered(
    sorted: Seq<Fields>,
    row: Fields,
    keys: Seq<Seq<char>>,
    all: Seq<Fields>,
)
    requires
        ordered(sorted, keys),
        consistent(all, keys),
        all.contains(row),
        forall|i: int| 0 <= i < sorted.len() ==> all.contains(#[trigger] sorted[i]),
    ensures
        ordered(inserted(sorted, row, keys), keys),
        forall|i: int|
            0 <= i < inserted(sorted, row, keys).len() ==> (#[trigger] inserted(
                sorted,
                row,
                keys,
            )[i]) == row || sorted.contains(inserted(sorted, row, keys)[i]),
    decreases sorted.len(),
{
    let out = inserted(sorted, row, keys);
    if sorted.len() == 0 {
    } else if row_order(sorted.last(), row, keys) == Order::Greater {
        let rest = sorted.drop_last();
        let last = sorted.last();
        assert forall|i: int| 0 <= i < rest.len() implies all.contains(#[trigger] rest[i]) by {
            assert(rest[i] == sorted[i]);
        }
        assert(ordered(rest, keys)) by {
            assert forall|i: int, j: int| 0 <= i < j < rest.len() implies in_order(
                #[trigger] rest[i],
                #[trigger] rest[j],
                keys,
            ) by {
                assert(rest[i] == sorted[i] && rest[j] == sorted[j]);
            }
        }
        lemma_inserted_is_ordered(rest, row, keys, all);
        lemma_row_order_mirror(row, last, keys);
        let inner = inserted(rest, row, keys);
        assert forall|i: int| 0 <= i < out.len() implies (#[trigger] out[i]) == row
            || sorted.contains(out[i]) by {
            if i < inner.len() {
                assert(out[i] == inner[i]);
                if inner[i] != row {
                    let k = choose|k: int| 0 <= k < rest.len() && rest[k] == inner[i];
                    assert(sorted[k] == inner[i]);
                }
            } else {
                assert(out[i] == sorted[sorted.len() - 1]);
            }
        }
        assert forall|i: int, j: int| 0 <= i < j < out.len() implies in_order(
            #[trigger] out[i],
            #[trigger] out[j],
            keys,
        ) by {
            if j < inner.len() {
                assert(out[i] == inner[i] && out[j] == inner[j]);
            } else {
                assert(out[j] == last);
                assert(out[i] == inner[i]);
                if inner[i] != row {
                    let k = choose|k: int| 0 <= k < rest.len() && rest[k] == inner[i];
                    assert(sorted[k] == inner[i]);
                    assert(in_order(sorted[k], sorted[sorted.len() - 1], keys));
                }
            }
        }
    } else {
        let last = sorted.last();
        assert forall|i: int| 0 <= i < out.len() implies (#[trigger] out[i]) == row
            || sorted.contains(out[i]) by {
            if i < sorted.len() {
                assert(out[i] == sorted[i]);
            }
        }
        assert forall|i: int, j: int| 0 <= i < j < out.len() implies in_order(
            #[trigger] out[i],
            #[trigger] out[j],
            keys,
        ) by {
            assert(out[i] == sorted[i]);
            if j < sorted.len() {
                assert(out[j] == sorted[j]);
            } else {
                assert(out[j] == row);
                assert(all.contains(sorted[i]));
                assert(all.contains(sorted[sorted.len() - 1]));
                assert(in_order(last, row, keys));
                if i < sorted.len() - 1 {
                    assert(in_order(sorted[i], sorted[sorted.len() - 1], keys));
                    assert(in_order(sorted[i], row, keys));
                }
            }
        }
    }
}

/// The sorted rows are in order: no row is greater than a later one, where
/// the order of the rows is consistent, as it is where all their values under
/// the keys are defined.
pub proof fn lemma_sorted_is_ordered(rows: Seq<Fields>, keys: Seq<Seq<char>>)
    requires
        consistent(rows, keys),
    ensures
        ordered(sorted(rows, keys), keys),
    decreases rows.len(),
{
    broadcast use vstd::seq_lib::group_to_multiset_ensures;

    if rows.len() > 0 {
        let rest = rows.drop_last();
        assert forall|a: Fields| rest.contains(a) implies rows.contains(a) by {
            let i = choose|i: int| 0 <= i < rest.len() && rest[i] == a;
            assert(rows[i] == a);
        }
        assert(consistent(rest, keys));
        lemma_sorted_is_ordered(rest, keys);
        lemma_sorted_is_rearranged(rest, keys);
        let before = sorted(rest, keys);
        assert forall|i: int| 0 <= i < before.len() implies rows.contains(#[trigger] before[i]) by {
            assert(before.to_multiset().contains(before[i]));
            assert(rest.to_multiset().contains(before[i]));
            assert(rest.contains(before[i]));
        }
        assert(rows.contains(rows.last())) by {
            assert(rows[rows.len() - 1] == rows.last());
        }
        lemma_inserted_is_ordered(before, rows.last(), keys, rows);
    }
}

/// One more row in its place among sorted rows.
fn insert_row(sorted: &mut Vec<Row>, row: Row, keys: &[String])
    requires
        all_cover(views(old(sorted)@), key_texts(keys@)),
        covers(row@, key_texts(keys@)),
    ensures
        views(final(sorted)@) == inserted(views(old(sorted)@), row@, key_texts(keys@)),
        all_cover(views(final(sorted)@), key_texts(keys@)),
{
    let ghost texts = key_texts(keys@);
    let ghost before = views(sorted@);
    let mut at: usize = sorted.len();
    assert(before.take(at as int) =~= before);
    assert(before.skip(at as int) =~= Seq::<Fields>::empty());
    assert(inserted(before, row@, texts) =~= inserted(before.take(at as int), row@, texts)
        + before.skip(at as int));
    let mut placed = false;
    while at > 0 && !placed
        invariant
            at <= sorted@.len(),
            sorted@ == old(sorted)@,
            before == views(sorted@),
            texts == key_texts(keys@),
            all_cover(before, texts),
            covers(row@, texts),
            inserted(before, row@, texts) == inserted(before.take(at as int), row@, texts)
                + before.skip(at as int),
            placed ==> at > 0 && row_order(before[at - 1], row@, texts) != Order::Greater,
        decreases at + (if placed { 0int } else { 1int }),
    {
        let ghost head = before.take(at as int);
        proof {
            assert(head.last() == before[at - 1]);
            assert(head.drop_last() =~= before.take(at - 1));
            assert(covers(before[at - 1], texts));
        }
        match order_rows(&sorted[at - 1], &row, keys) {
            Order::Greater => {
                proof {
                    assert(inserted(head, row@, texts) + before.skip(at as int) =~= inserted(
                        before.take(at - 1),
                        row@,
                        texts,
                    ) + before.skip(at - 1));
                }
                at = at - 1;
            },
            _ => {
                placed = true;
            },
        }
    }
    proof {
        if at > 0 {
            let head = before.take(at as int);
            assert(head.last() == before[at - 1]);
            assert(inserted(head, row@, texts) == head.push(row@));
        } else {
            assert(before.take(0) =~= Seq::<Fields>::empty());
        }
    }
    sorted.insert(at, row);
    proof {
        let after = views(sorted@);
        assert(after =~= before.take(at as int).push(row@) + before.skip(at as int));
        assert forall|i: int| 0 <= i < after.len() implies covers(#[trigger] after[i], texts) by {
            if i < at {
                assert(after[i] == before[i]);
            } else if i > at {
                assert(after[i] == before[i - 1]);
            }
        }
    }
}

/// The rows in the order of the keys; rows that are equal under the keys
/// keep the order in which they were given.
pub fn sort_rows(rows: Vec<Row>, order: &[String]) -> (out: Vec<Row>)
    requires
        all_cover(views(rows@), key_texts(order@)),
    ensures
        views(out@) == sorted(views(rows@), key_texts(order@)),
        all_cover(views(out@), key_texts(order@)),
        out@.len() == rows@.len(),
{
    let ghost all = rows@;
    let ghost given = views(rows@);
    let ghost texts = key_texts(order@);
    let mut rest = reversed(rows);
    let mut out: Vec<Row> = Vec::new();
    let ghost mut taken: int = 0;
    proof {
        assert(rest@ =~= all.reverse().take(all.len() - 0));
        assert(given.take(0) =~= Seq::<Fields>::empty());
        assert(views(out@) =~= Seq::<Fields>::empty());
    }
    while rest.len() > 0
        invariant
            0 <= taken <= all.len(),
            given == views(all),
            texts == key_texts(order@),
            all_cover(given, texts),
            rest@ == all.reverse().take(all.len() - taken),
            views(out@) == sorted(given.take(taken), texts),
            all_cover(views(out@), texts),
            out@.len() == taken,
        decreases rest@.len(),
    {
        let row = take_next(&mut rest, Ghost(all), Ghost(taken));
        proof {
            assert(row@ == given[taken]);
            assert(given.take(taken + 1).drop_last() =~= given.take(taken));
            assert(given.take(taken + 1).last() == given[taken]);
            assert(covers(given[taken], texts));
        }
        insert_row(&mut out, row, order);
        proof {
            lemma_inserted_contents(sorted(given.take(taken), texts), given[taken], texts);
            assert(views(out@).len() == out@.len());
            taken = taken + 1;
        }
    }
    assert(given.take(given.len() as int) =~= given);
    out
}

/// Two rows have the same values under all keys.
pub open spec fn same_under(a: Fields, b: Fields, keys: Seq<Seq<char>>) -> bool {
    forall|i: int| 0 <= i < keys.len() ==> a[#[trigger] keys[i]].same(b[keys[i]])
}

/// The runs of the rows: a row joins the run of the row before it where both
/// have the same values under all keys, and starts a run where they have not.
pub open spec fn runs(rows: Seq<Fields>, keys: Seq<Seq<char>>) -> Seq<Seq<Fields>>
    decreases rows.len(),
{
    if rows.len() == 0 {
        Seq::empty()
    } else if rows.len() == 1 {
        seq![rows]
    } else {
        let before = runs(rows.drop_last(), keys);
        if same_under(rows[rows.len() - 2], rows.last(), keys) {
            before.drop_last().push(before.last().push(rows.last()))
        } else {
            before.push(seq![rows.last()])
        }
    }
}

/// Each row alone.
pub open spec fn singles(rows: Seq<Fields>) -> Seq<Seq<Fields>> {
    Seq::new(rows.len(), |i: int| seq![rows[i]])
}

/// No group is empty, and every row of a group has a value under every
/// key.
pub open spec fn groups_cover(groups: Seq<Seq<Fields>>, keys: Seq<Seq<char>>) -> bool {
    forall|g: int|
        0 <= g < groups.len() ==> (#[trigger] groups[g]).len() > 0 && all_cover(groups[g], keys)
}

/// The runs of rows keep every row: there is a run unless there is no row, no
/// run is empty, the last row is the last of the last run, and what holds of
/// all rows holds of the rows of each run.
pub proof fn lemma_runs_keep(rows: Seq<Fields>, keys: Seq<Seq<char>>, covered: Seq<Seq<char>>)
    requires
        all_cover(rows, covered),
    ensures
        groups_cover(runs(rows, keys), covered),
        rows.len() > 0 ==> runs(rows, keys).len() > 0 && runs(rows, keys).last().last()
            == rows.last(),
        rows.len() == 0 ==> runs(rows, keys).len() == 0,
        rows.len() > 0 ==> runs(rows, keys)[0][0] == rows[0],
        runs(rows, keys).len() <= rows.len(),
    decreases rows.len(),
{
    if rows.len() == 1 {
        assert(runs(rows, keys)[0] == rows);
    } else if rows.len() > 1 {
        let rest = rows.drop_last();
        lemma_runs_keep(rest, keys, covered);
        assert forall|i: int| 0 <= i < rest.len() implies covers(#[trigger] rest[i], covered) by {
            assert(rest[i] == rows[i]);
        }
        let before = runs(rest, keys);
        let all = runs(rows, keys);
        assert(covers(rows[rows.len() - 1], covered));
        assert forall|g: int| 0 <= g < all.len() implies (#[trigger] all[g]).len() > 0
            && all_cover(all[g], covered) by {
            if g < before.len() - 1 {
                assert(all[g] == before[g]);
            } else if same_under(rows[rows.len() - 2], rows.last(), keys) {
                let run = before.last().push(rows.last());
                assert(all[g] == run);
                assert forall|m: int| 0 <= m < run.len() implies covers(
                    #[trigger] run[m],
                    covered,
                ) by {
                    if m < before.last().len() {
                        assert(run[m] == before.last()[m]);
                    }
                }
            } else if g == before.len() - 1 {
                assert(all[g] == before[g]);
            } else {
                assert(all[g] == seq![rows.last()]);
            }
        }
        assert(all[0][0] == rows[0]) by {
            assert(before[0][0] == rest[0]);
            if same_under(rows[rows.len() - 2], rows.last(), keys) && before.len() == 1 {
                assert(all[0] == before.last().push(rows.last()));
            } else if same_under(rows[rows.len() - 2], rows.last(), keys) {
                assert(all[0] == before.drop_last()[0]);
            } else {
                assert(all[0] == before[0]);
            }
        }
    }
}

/// The rows of all groups, one group after the other.
pub open spec fn joined_groups(groups: Seq<Seq<Fields>>) -> Seq<Fields>
    decreases groups.len(),
{
    if groups.len() == 0 {
        Seq::empty()
    } else {
        joined_groups(groups.drop_last()) + groups.last()
    }
}

/// The runs are the rows, cut where two neighbours differ under the keys, and
/// nowhere else: the runs one after the other are the rows, no run is empty,
/// neighbours in a run have the same values under the keys, and the last row
/// of a run and the first of the next have not.
pub proof fn lemma_runs_are_maximal(rows: Seq<Fields>, keys: Seq<Seq<char>>)
    ensures
        joined_groups(runs(rows, keys)) == rows,
        forall|g: int| 0 <= g < runs(rows, keys).len() ==> (#[trigger] runs(rows, keys)[g]).len() > 0,
        forall|g: int, m: int|
            0 <= g < runs(rows, keys).len() && 0 < m < runs(rows, keys)[g].len() ==> same_under(
                runs(rows, keys)[g][m - 1],
                #[trigger] runs(rows, keys)[g][m],
                keys,
            ),
        forall|g: int|
            0 < g < runs(rows, keys).len() ==> !same_under(
                runs(rows, keys)[g - 1].last(),
                (#[trigger] runs(rows, keys)[g])[0],
                keys,
            ),
        rows.len() > 0 ==> runs(rows, keys).len() > 0 && runs(rows, keys).last().last()
            == rows.last(),
    decreases rows.len(),
{
    let all = runs(rows, keys);
    if rows.len() == 0 {
    } else if rows.len() == 1 {
        assert(all.drop_last() =~= Seq::<Seq<Fields>>::empty());
        assert(all.last() == rows);
        assert(joined_groups(all.drop_last()) =~= Seq::<Fields>::empty());
        assert(joined_groups(all) =~= rows);
    } else {
        let rest = rows.drop_last();
        let before = runs(rest, keys);
        let last = rows.last();
        lemma_runs_are_maximal(rest, keys);
        assert(rest.last() == rows[rows.len() - 2]);
        if same_under(rows[rows.len() - 2], last, keys) {
            let run = before.last().push(last);
            assert(all.drop_last() =~= before.drop_last());
            assert(all.last() == run);
            assert(before.drop_last().push(before.last()) =~= before);
            assert(joined_groups(before) == joined_groups(before.drop_last()) + before.last());
            assert(joined_groups(all) == joined_groups(before.drop_last()) + run);
            assert(joined_groups(all) =~= joined_groups(before) + seq![last]);
            assert(joined_groups(all) =~= rows);
            assert forall|g: int, m: int|
                0 <= g < all.len() && 0 < m < all[g].len() implies same_under(
                all[g][m - 1],
                #[trigger] all[g][m],
                keys,
            ) by {
                if g < all.len() - 1 {
                    assert(all[g] == before[g]);
                } else if m < before.last().len() {
                    assert(all[g][m] == before[g][m]);
                    assert(all[g][m - 1] == before[g][m - 1]);
                } else {
                    assert(all[g][m - 1] == before.last().last());
                }
            }
            assert forall|g: int| 0 < g < all.len() implies !same_under(
                all[g - 1].last(),
                (#[trigger] all[g])[0],
                keys,
            ) by {
                assert(all[g - 1] == before[g - 1]);
                if g < all.len() - 1 {
                    assert(all[g] == before[g]);
                } else {
                    assert(all[g][0] == before[g][0]);
                }
            }
        } else {
            assert(all.drop_last() =~= before);
            assert(all.last() == seq![last]);
            assert(joined_groups(all) =~= joined_groups(before) + seq![last]);
            assert(joined_groups(all) =~= rows);
            assert forall|g: int, m: int|
                0 <= g < all.len() && 0 < m < all[g].len() implies same_under(
                all[g][m - 1],
                #[trigger] all[g][m],
                keys,
            ) by {
                if g < before.len() {
                    assert(all[g] == before[g]);
                }
            }
            assert forall|g: int| 0 < g < all.len() implies !same_under(
                all[g - 1].last(),
                (#[trigger] all[g])[0],
                keys,
            ) by {
                assert(all[g - 1] == before[g - 1]);
                if g < before.len() {
                    assert(all[g] == before[g]);
                }
            }
        }
    }
}

/// What holds of all rows holds of each row alone.
pub proof fn lemma_singles_keep(rows: Seq<Fields>, covered: Seq<Seq<char>>)
    requires
        all_cover(rows, covered),
    ensures
        groups_cover(singles(rows), covered),
{
    assert forall|g: int| 0 <= g < singles(rows).len() implies (#[trigger] singles(rows)[g]).len()
        > 0 && all_cover(singles(rows)[g], covered) by {
        assert(singles(rows)[g][0] == rows[g]);
    }
}

/// The values of a row under the keys.
pub fn key_values(row: &Row, keys: &Vec<String>) -> (values: Vec<Scalar>)
    requires
        covers(row@, key_texts(keys@)),
    ensures
        values@.len() == keys@.len(),
        forall|i: int| 0 <= i < keys@.len() ==> (#[trigger] values@[i])@ == row@[keys@[i]@],
{
    let mut values: Vec<Scalar> = Vec::new();
    let mut i: usize = 0;
    while i < keys.len()
        invariant
            i <= keys@.len(),
            covers(row@, key_texts(keys@)),
            values@.len() == i,
            forall|j: int| 0 <= j < i ==> (#[trigger] values@[j])@ == row@[keys@[j]@],
        decreases keys@.len() - i,
    {
        assert(row@.contains_key(key_texts(keys@)[i as int]));
        values.push(row.get(keys[i].as_str()).unwrap().duplicate());
        i = i + 1;
    }
    values
}

/// `Itertools::group_by` on the rows, with the values of a row under the
/// keys as its key: adjacent rows whose keys are equal are one group, and
/// the groups come in the order of the rows. Two keys are equal where they
/// hold the same values, one by one.
#[verifier::external_body]
fn group_runs<'a>(rows: &'a Vec<Row>, keys: &Vec<String>) -> (groups: Vec<Vec<&'a Row>>)
    requires
        all_cover(views(rows@), key_texts(keys@)),
    ensures
        group_views(groups@) == runs(views(rows@), key_texts(keys@)),
{
    let mut groups = Vec::new();
    for (_, run) in &rows.iter().group_by(|row| key_values(row, keys)) {
        groups.push(run.collect());
    }
    groups
}

/// The runs of the rows under the keys.
pub fn group_rows<'a>(rows: &'a Vec<Row>, keys: &Vec<String>) -> (groups: Vec<Vec<&'a Row>>)
    requires
        all_cover(views(rows@), key_texts(keys@)),
    ensures
        group_views(groups@) == runs(views(rows@), key_texts(keys@)),
{
    group_runs(rows, keys)
}

/// Each row alone.
pub fn single_rows<'a>(rows: &'a Vec<Row>) -> (groups: Vec<Vec<&'a Row>>)
    ensures
        group_views(groups@) == singles(views(rows@)),
{
    let mut groups: Vec<Vec<&Row>> = Vec::new();
    let mut i: usize = 0;
    while i < rows.len()
        invariant
            i <= rows@.len(),
            groups@.len() == i,
            forall|g: int| 0 <= g < i ==> ref_views((#[trigger] groups@[g])@) == seq![rows@[g]@],
        decreases rows@.len() - i,
    {
        let mut group: Vec<&Row> = Vec::new();
        group.push(&rows[i]);
        assert(ref_views(group@) =~= seq![rows@[i as int]@]);
        groups.push(group);
        i = i + 1;
    }
    assert(group_views(groups@) =~= singles(views(rows@)));
    groups
}

} // verus!
