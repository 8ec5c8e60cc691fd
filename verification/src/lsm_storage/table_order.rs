//! The order of the tables of a level.

use vstd::prelude::*;
use crate::key;
use crate::key::KeyModel;
use crate::table::TableView;

verus! {

/// No table comes after one with a larger first key.
pub open spec fn ordered_by_first(s: Seq<usize>, tables: Map<usize, TableView>) -> bool {
    forall|i: int, j: int|
        0 <= i < j < s.len() ==> !tables[#[trigger] s[j]].first().lt(
            tables[#[trigger] s[i]].first(),
        )
}

/// The tables that start with a key.
pub open spec fn with_first(
    ids: Seq<usize>,
    k: Seq<u8>,
    tables: Map<usize, TableView>,
) -> Seq<usize> {
    ids.filter(|id: usize| tables[id].first() == k)
}

/// `s` holds the tables of `ids` in the order of their first keys. Tables with the same first key
/// keep their order.
pub open spec fn is_sorting(
    s: Seq<usize>,
    ids: Seq<usize>,
    tables: Map<usize, TableView>,
) -> bool {
    &&& s.to_multiset() == ids.to_multiset()
    &&& ordered_by_first(s, tables)
    &&& forall|k: Seq<u8>| #[trigger] with_first(s, k, tables) == with_first(ids, k, tables)
}

/// Tables in the order of their first keys; tables with the same one keep their order.
pub open spec fn sort_by_first(ids: Seq<usize>, tables: Map<usize, TableView>) -> Seq<usize> {
    choose|s: Seq<usize>| is_sorting(s, ids, tables)
}

/// A table that is put before tables with larger first keys is the last one with its own.
proof fn with_first_insert(
    s: Seq<usize>,
    p: int,
    id: usize,
    k: Seq<u8>,
    tables: Map<usize, TableView>,
)
    requires
        0 <= p <= s.len(),
        forall|i: int|
            p <= i < s.len() ==> tables[id].first().lt(tables[#[trigger] s[i]].first()),
    ensures
        with_first(s.insert(p, id), k, tables) == if tables[id].first() == k {
            with_first(s, k, tables).push(id)
        } else {
            with_first(s, k, tables)
        },
{
    broadcast use key::group_key_order;

    let pred = |id: usize| tables[id].first() == k;
    let (head, tail) = (s.take(p), s.skip(p));
    assert(s =~= head + tail);
    assert(s.insert(p, id) =~= head.push(id) + tail);
    Seq::filter_distributes_over_add(head, tail, pred);
    Seq::filter_distributes_over_add(head.push(id), tail, pred);
    assert(head.push(id).drop_last() =~= head);
    reveal_with_fuel(Seq::filter, 2);
    if tables[id].first() == k {
        assert forall|i: int| 0 <= i < tail.len() implies !pred(#[trigger] tail[i]) by {
            assert(tail[i] == s[i + p]);
        }
        tail.lemma_all_neg_filter_empty(pred);
        assert(tail.filter(pred) =~= Seq::empty());
        assert(head.push(id).filter(pred) + tail.filter(pred) =~= (head.filter(pred)
            + tail.filter(pred)).push(id));
    }
}

/// Where a table belongs among sorted ones.
pub open spec fn is_place(
    s: Seq<usize>,
    p: int,
    id: usize,
    tables: Map<usize, TableView>,
) -> bool {
    &&& 0 <= p <= s.len()
    &&& forall|i: int| p <= i < s.len() ==> tables[id].first().lt(tables[#[trigger] s[i]].first())
    &&& p > 0 ==> !tables[id].first().lt(tables[s[p - 1]].first())
}

/// One more table, put where it belongs.
pub proof fn insert_sorts(
    s: Seq<usize>,
    p: int,
    id: usize,
    ids: Seq<usize>,
    tables: Map<usize, TableView>,
)
    requires
        is_sorting(s, ids, tables),
        is_place(s, p, id, tables),
    ensures
        is_sorting(s.insert(p, id), ids.push(id), tables),
{
    broadcast use key::group_key_order;

    let t = s.insert(p, id);
    let all = ids.push(id);
    vstd::seq_lib::to_multiset_insert(s, p, id);
    vstd::seq_lib::to_multiset_build(ids, id);
    assert forall|i: int| 0 <= i < t.len() implies #[trigger] t[i] == if i < p {
        s[i]
    } else if i == p {
        id
    } else {
        s[i - 1]
    } by {}
    assert forall|i: int| 0 <= i < p implies !tables[id].first().lt(
        tables[#[trigger] s[i]].first(),
    ) by {
        if i < p - 1 {
            assert(!tables[s[p - 1]].first().lt(tables[s[i]].first()));
        }
    }
    assert forall|i: int, j: int| 0 <= i < j < t.len() implies !tables[
    #[trigger] t[j]].first().lt(tables[#[trigger] t[i]].first()) by {
        if j == p {
            assert(t[i] == s[i]);
        } else if i == p {
            assert(t[j] == s[j - 1]);
        }
    }
    assert(ids.insert(ids.len() as int, id) =~= all);
    assert forall|k: Seq<u8>| #[trigger] with_first(t, k, tables) == with_first(
        all,
        k,
        tables,
    ) by {
        with_first_insert(s, p, id, k, tables);
        with_first_insert(ids, ids.len() as int, id, k, tables);
        assert(with_first(s, k, tables) == with_first(ids, k, tables));
    }
}

proof fn place_exists(s: Seq<usize>, id: usize, tables: Map<usize, TableView>) -> (p: int)
    ensures
        is_place(s, p, id, tables),
    decreases s.len(),
{
    if s.len() > 0 && tables[id].first().lt(tables[s.last()].first()) {
        let rest = s.drop_last();
        let p = place_exists(rest, id, tables);
        assert forall|i: int| p <= i < s.len() implies tables[id].first().lt(
            tables[#[trigger] s[i]].first(),
        ) by {
            if i < rest.len() {
                assert(rest[i] == s[i]);
            }
        }
        p
    } else {
        s.len() as int
    }
}

proof fn sorting_exists(ids: Seq<usize>, tables: Map<usize, TableView>) -> (s: Seq<usize>)
    ensures
        is_sorting(s, ids, tables),
    decreases ids.len(),
{
    if ids.len() == 0 {
        ids
    } else {
        let s = sorting_exists(ids.drop_last(), tables);
        let p = place_exists(s, ids.last(), tables);
        insert_sorts(s, p, ids.last(), ids.drop_last(), tables);
        assert(ids.drop_last().push(ids.last()) =~= ids);
        s.insert(p, ids.last())
    }
}

/// What is left when the last element, which is the same, is taken away.
proof fn without_last(s: Seq<usize>, t: Seq<usize>)
    requires
        s.len() > 0,
        t.len() > 0,
        s.last() == t.last(),
        s.to_multiset() == t.to_multiset(),
    ensures
        s.drop_last().to_multiset() == t.drop_last().to_multiset(),
{
    broadcast use vstd::multiset::group_multiset_axioms;

    let (a, b) = (s.drop_last(), t.drop_last());
    assert(a.push(s.last()) =~= s);
    assert(b.push(t.last()) =~= t);
    vstd::seq_lib::to_multiset_build(a, s.last());
    vstd::seq_lib::to_multiset_build(b, t.last());
    assert(a.to_multiset() =~= a.to_multiset().insert(s.last()).remove(s.last()));
    assert(b.to_multiset() =~= b.to_multiset().insert(t.last()).remove(t.last()));
}

/// The last of the one has no smaller first key than the last of the other.
proof fn last_is_largest(s: Seq<usize>, t: Seq<usize>, tables: Map<usize, TableView>)
    requires
        s.len() > 0,
        t.len() > 0,
        s.to_multiset() == t.to_multiset(),
        ordered_by_first(t, tables),
    ensures
        !tables[t.last()].first().lt(tables[s.last()].first()),
        t.contains(s.last()),
{
    broadcast use key::group_key_order;

    assert(s.contains(s.last()));
    vstd::seq_lib::to_multiset_contains(s, s.last());
    vstd::seq_lib::to_multiset_contains(t, s.last());
    let j = choose|j: int| 0 <= j < t.len() && t[j] == s.last();
    if j < t.len() - 1 {
        assert(!tables[t[t.len() - 1]].first().lt(tables[t[j]].first()));
    }
}

proof fn sorting_unique(s: Seq<usize>, t: Seq<usize>, tables: Map<usize, TableView>)
    requires
        s.to_multiset() == t.to_multiset(),
        ordered_by_first(s, tables),
        ordered_by_first(t, tables),
        forall|k: Seq<u8>| #[trigger] with_first(s, k, tables) == with_first(t, k, tables),
    ensures
        s == t,
    decreases s.len(),
{
    broadcast use key::group_key_order;

    vstd::seq_lib::to_multiset_len(s);
    vstd::seq_lib::to_multiset_len(t);
    if s.len() > 0 {
        let (a, b) = (s.drop_last(), t.drop_last());
        let k = tables[s.last()].first();
        last_is_largest(s, t, tables);
        last_is_largest(t, s, tables);
        assert(tables[t.last()].first() == k);
        reveal_with_fuel(Seq::filter, 2);
        assert(with_first(s, k, tables).last() == s.last());
        assert(with_first(t, k, tables).last() == t.last());
        without_last(s, t);
        assert forall|j: Seq<u8>| #[trigger] with_first(a, j, tables) == with_first(
            b,
            j,
            tables,
        ) by {
            assert(with_first(s, j, tables) == with_first(t, j, tables));
            if j == k {
                assert(with_first(a, j, tables) =~= with_first(s, j, tables).drop_last());
                assert(with_first(b, j, tables) =~= with_first(t, j, tables).drop_last());
            }
        }
        sorting_unique(a, b, tables);
        assert(s =~= a.push(s.last()));
        assert(t =~= b.push(t.last()));
    } else {
        assert(s =~= t);
    }
}

/// **Sorting orders the tables and loses none**: the same tables come out, no table after one with
/// a larger first key, and tables with the same first key as they were.
pub proof fn sorting_orders(ids: Seq<usize>, tables: Map<usize, TableView>)
    ensures
        sort_by_first(ids, tables).to_multiset() == ids.to_multiset(),
        forall|i: int, j: int|
            #![trigger sort_by_first(ids, tables)[i], sort_by_first(ids, tables)[j]]
            0 <= i < j < sort_by_first(ids, tables).len() ==> !tables[sort_by_first(
                ids,
                tables,
            )[j]].first().lt(tables[sort_by_first(ids, tables)[i]].first()),
        is_sorting(sort_by_first(ids, tables), ids, tables),
{
    let s = sorting_exists(ids, tables);
}

/// There is one way to sort.
pub proof fn sorting_is(s: Seq<usize>, ids: Seq<usize>, tables: Map<usize, TableView>)
    requires
        is_sorting(s, ids, tables),
    ensures
        sort_by_first(ids, tables) == s,
{
    let t = sort_by_first(ids, tables);
    assert(is_sorting(t, ids, tables));
    assert forall|k: Seq<u8>| #[trigger] with_first(s, k, tables) == with_first(t, k, tables) by {
        assert(with_first(s, k, tables) == with_first(ids, k, tables));
        assert(with_first(t, k, tables) == with_first(ids, k, tables));
    }
    sorting_unique(s, t, tables);
}

proof fn order_unique(s: Seq<usize>, t: Seq<usize>, tables: Map<usize, TableView>)
    requires
        s.to_multiset() == t.to_multiset(),
        ordered_by_first(s, tables),
        forall|i: int, j: int|
            0 <= i < j < t.len() ==> tables[#[trigger] t[i]].first().lt(
                tables[#[trigger] t[j]].first(),
            ),
    ensures
        s == t,
    decreases s.len(),
{
    broadcast use key::group_key_order;

    vstd::seq_lib::to_multiset_len(s);
    vstd::seq_lib::to_multiset_len(t);
    if s.len() > 0 {
        let (a, b) = (s.drop_last(), t.drop_last());
        last_is_largest(s, t, tables);
        last_is_largest(t, s, tables);
        let j = choose|j: int| 0 <= j < t.len() && t[j] == s.last();
        if j < t.len() - 1 {
            assert(tables[t[j]].first().lt(tables[t[t.len() - 1]].first()));
        }
        without_last(s, t);
        assert forall|i: int, j: int| 0 <= i < j < b.len() implies tables[
        #[trigger] b[i]].first().lt(tables[#[trigger] b[j]].first()) by {
            assert(b[i] == t[i] && b[j] == t[j]);
        }
        order_unique(a, b, tables);
        assert(s =~= a.push(s.last()));
        assert(t =~= b.push(t.last()));
    } else {
        assert(s =~= t);
    }
}

/// **Sorting restores an order that was lost**: where the first keys of `t` increase, every
/// rearrangement of `t` is sorted into `t`.
pub proof fn sorting_restores(ids: Seq<usize>, t: Seq<usize>, tables: Map<usize, TableView>)
    requires
        ids.to_multiset() == t.to_multiset(),
        forall|i: int, j: int|
            0 <= i < j < t.len() ==> tables[#[trigger] t[i]].first().lt(
                tables[#[trigger] t[j]].first(),
            ),
    ensures
        sort_by_first(ids, tables) == t,
{
    sorting_orders(ids, tables);
    order_unique(sort_by_first(ids, tables), t, tables);
}

} // verus!
