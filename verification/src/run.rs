//! Sorted runs: what a cursor walks over, and the map that a run lists.

use vstd::prelude::*;
use crate::key;
use crate::key::KeyModel;

verus! {

/// Entries in the order in which a cursor visits them.
pub type Run<K> = Seq<(K, Seq<u8>)>;

/// What a source of the store holds for user keys.
pub type Entries = Map<Seq<u8>, Seq<u8>>;

/// Keys strictly increase: entries are in order and no key occurs twice.
pub open spec fn sorted<K: KeyModel>(s: Run<K>) -> bool {
    forall|i: int, j: int| 0 <= i < j < s.len() ==> (#[trigger] s[i]).0.lt((#[trigger] s[j]).0)
}

/// `k` is the key of the entry at `i`.
pub open spec fn key_at<K>(s: Run<K>, i: int, k: K) -> bool {
    0 <= i < s.len() && s[i].0 == k
}

pub open spec fn has_key<K>(s: Run<K>, k: K) -> bool {
    exists|i: int| key_at(s, i, k)
}

/// The map that a run lists.
pub open spec fn run_map<K>(s: Run<K>) -> Map<K, Seq<u8>> {
    Map::new(|k: K| has_key(s, k), |k: K| s[choose|i: int| key_at(s, i, k)].1)
}

/// `upper` laid over `lower`: where both have a key, the entry of `upper` counts.
pub open spec fn overlay<K>(upper: Map<K, Seq<u8>>, lower: Map<K, Seq<u8>>) -> Map<K, Seq<u8>> {
    lower.union_prefer_right(upper)
}

/// Maps laid over one another, the first on top.
pub open spec fn overlay_all<K>(maps: Seq<Map<K, Seq<u8>>>) -> Map<K, Seq<u8>>
    decreases maps.len(),
{
    if maps.len() == 0 {
        Map::empty()
    } else {
        overlay(maps[0], overlay_all(maps.drop_first()))
    }
}

/// A run past its entry for `k`, if it starts with one.
pub open spec fn past<K>(s: Run<K>, k: K) -> Run<K> {
    if s.len() > 0 && s[0].0 == k {
        s.drop_first()
    } else {
        s
    }
}

/// Two runs merged: keys in order, each once, and the entry of `a` where both have a key.
pub open spec fn merge2<K: KeyModel>(a: Run<K>, b: Run<K>) -> Run<K>
    decreases a.len() + b.len(),
{
    if a.len() == 0 {
        b
    } else if b.len() == 0 {
        a
    } else if a[0].0.lt(b[0].0) {
        seq![a[0]] + merge2(a.drop_first(), b)
    } else if b[0].0.lt(a[0].0) {
        seq![b[0]] + merge2(a, b.drop_first())
    } else {
        seq![a[0]] + merge2(a.drop_first(), b.drop_first())
    }
}

/// Any number of runs merged: keys in order, each once, and the entry of the first run that has
/// the key.
pub open spec fn merge_all<K: KeyModel>(runs: Seq<Run<K>>) -> Run<K>
    decreases runs.len(),
{
    if runs.len() == 0 {
        Seq::empty()
    } else {
        merge2(runs[0], merge_all(runs.drop_first()))
    }
}

/// `s` is the sorted run that lists `m`.
pub open spec fn is_listing<K: KeyModel>(s: Run<K>, m: Map<K, Seq<u8>>) -> bool {
    sorted(s) && run_map(s) == m
}

/// The sorted run that lists the finite map `m`.
pub open spec fn listing<K: KeyModel>(m: Map<K, Seq<u8>>) -> Run<K> {
    choose|s: Run<K>| is_listing(s, m)
}

pub proof fn run_map_at<K: KeyModel>(s: Run<K>, i: int)
    requires
        sorted(s),
        0 <= i < s.len(),
    ensures
        run_map(s).contains_key(s[i].0),
        run_map(s)[s[i].0] == s[i].1,
{
    broadcast use key::group_key_order;

    assert(key_at(s, i, s[i].0));
    let j = choose|j: int| key_at(s, j, s[i].0);
    assert(key_at(s, j, s[i].0));
    assert(i == j);
}

/// The entry that lists a key of the map.
pub proof fn run_map_find<K: KeyModel>(s: Run<K>, k: K) -> (i: int)
    requires
        sorted(s),
        run_map(s).contains_key(k),
    ensures
        0 <= i < s.len(),
        s[i].0 == k,
        s[i].1 == run_map(s)[k],
{
    let i = choose|i: int| key_at(s, i, k);
    assert(key_at(s, i, k));
    run_map_at(s, i);
    i
}

pub proof fn run_map_empty<K: KeyModel>(s: Run<K>)
    ensures
        s.len() == 0 <==> run_map(s) == Map::<K, Seq<u8>>::empty(),
{
    if s.len() == 0 {
        assert(run_map(s) =~= Map::empty());
    } else {
        assert(key_at(s, 0, s[0].0));
        assert(run_map(s).contains_key(s[0].0));
    }
}

/// Advancing past the head takes the head's key out of the map.
pub proof fn run_map_drop_first<K: KeyModel>(s: Run<K>)
    requires
        sorted(s),
        s.len() > 0,
    ensures
        sorted(s.drop_first()),
        run_map(s.drop_first()) == run_map(s).remove(s[0].0),
        forall|k: K| #[trigger] run_map(s).contains_key(k) ==> key::le(s[0].0, k),
{
    broadcast use key::group_key_order;

    let t = s.drop_first();
    assert forall|k: K| run_map(s).contains_key(k) implies #[trigger] key::le(s[0].0, k) by {
        let i = run_map_find(s, k);
        if i > 0 {
            assert(s[0].0.lt(s[i].0));
        }
    }
    assert forall|k: K| run_map(t).contains_key(k) <==> run_map(s).remove(s[0].0).contains_key(
        k,
    ) by {
        if run_map(t).contains_key(k) {
            let i = run_map_find(t, k);
            assert(key_at(s, i + 1, k));
            assert(s[0].0.lt(s[i + 1].0));
        }
        if run_map(s).remove(s[0].0).contains_key(k) {
            let i = run_map_find(s, k);
            assert(i > 0);
            assert(key_at(t, i - 1, k));
        }
    }
    assert forall|k: K| run_map(t).contains_key(k) implies #[trigger] run_map(t)[k]
        == run_map(s)[k] by {
        let i = run_map_find(t, k);
        run_map_at(s, i + 1);
    }
    assert(run_map(t) =~= run_map(s).remove(s[0].0));
}

/// A run with an entry put before it.
pub proof fn run_map_prepend<K: KeyModel>(e: (K, Seq<u8>), s: Run<K>)
    requires
        sorted(s),
        forall|k: K| #[trigger] run_map(s).contains_key(k) ==> e.0.lt(k),
    ensures
        sorted(seq![e] + s),
        run_map(seq![e] + s) == run_map(s).insert(e.0, e.1),
{
    broadcast use key::group_key_order;

    let t = seq![e] + s;
    assert forall|i: int, j: int| 0 <= i < j < t.len() implies (#[trigger] t[i]).0.lt(
        (#[trigger] t[j]).0,
    ) by {
        run_map_at(s, j - 1);
        assert(t[j] == s[j - 1]);
        if i > 0 {
            assert(t[i] == s[i - 1]);
        }
    }
    assert forall|k: K| run_map(t).contains_key(k) <==> run_map(s).insert(
        e.0,
        e.1,
    ).contains_key(k) by {
        if run_map(t).contains_key(k) {
            let i = run_map_find(t, k);
            if i > 0 {
                assert(key_at(s, i - 1, k));
            }
        }
        if k == e.0 {
            assert(key_at(t, 0, k));
        } else if run_map(s).contains_key(k) {
            let i = run_map_find(s, k);
            assert(key_at(t, i + 1, k));
        }
    }
    assert forall|k: K| #[trigger] run_map(t).contains_key(k) implies run_map(t)[k] == run_map(
        s,
    ).insert(e.0, e.1)[k] by {
        let i = run_map_find(t, k);
        if i > 0 {
            run_map_at(s, i - 1);
        }
    }
    assert(run_map(t) =~= run_map(s).insert(e.0, e.1));
}

/// Two runs one after the other.
pub proof fn run_map_concat<K: KeyModel>(a: Run<K>, b: Run<K>)
    requires
        sorted(a + b),
    ensures
        sorted(a),
        sorted(b),
        run_map(a + b) == overlay(run_map(a), run_map(b)),
    decreases a.len(),
{
    broadcast use key::group_key_order;

    let s = a + b;
    assert forall|i: int, j: int| 0 <= i < j < a.len() implies (#[trigger] a[i]).0.lt(
        (#[trigger] a[j]).0,
    ) by {
        assert(s[i].0.lt(s[j].0));
    }
    assert forall|i: int, j: int| 0 <= i < j < b.len() implies (#[trigger] b[i]).0.lt(
        (#[trigger] b[j]).0,
    ) by {
        assert(s[i + a.len()].0.lt(s[j + a.len()].0));
    }
    run_map_empty(a);
    if a.len() == 0 {
        assert(s =~= b);
        assert(overlay(run_map(a), run_map(b)) =~= run_map(b));
    } else {
        assert(s.drop_first() =~= a.drop_first() + b);
        run_map_drop_first(s);
        run_map_concat(a.drop_first(), b);
        run_map_at(s, 0);
        run_map_at(a, 0);
        run_map_drop_first(a);
        assert(s[0] == a[0]);
        assert forall|k: K| run_map(b).contains_key(k) implies k != a[0].0 by {
            let i = run_map_find(b, k);
            assert(s[0].0.lt(s[i + a.len()].0));
        }
        assert(run_map(s) =~= run_map(s).remove(s[0].0).insert(s[0].0, s[0].1));
        assert(overlay(run_map(a), run_map(b)) =~= overlay(
            run_map(a).remove(a[0].0),
            run_map(b),
        ).insert(a[0].0, a[0].1));
    }
}

/// A sorted run is determined by the map that it lists.
pub proof fn same_map_same_run<K: KeyModel>(s: Run<K>, t: Run<K>)
    requires
        sorted(s),
        sorted(t),
        run_map(s) == run_map(t),
    ensures
        s == t,
    decreases s.len(),
{
    broadcast use key::group_key_order;

    run_map_empty(s);
    run_map_empty(t);
    if s.len() == 0 {
        assert(s =~= t);
    } else {
        run_map_at(s, 0);
        run_map_at(t, 0);
        run_map_drop_first(s);
        run_map_drop_first(t);
        assert(key::le(s[0].0, t[0].0) && key::le(t[0].0, s[0].0));
        same_map_same_run(s.drop_first(), t.drop_first());
        assert(s =~= seq![s[0]] + s.drop_first());
        assert(t =~= seq![t[0]] + t.drop_first());
    }
}

/// **Merging two sorted runs**: the result is sorted, so every key comes out once, and it lists
/// the first run laid over the second.
pub proof fn merge2_is_overlay<K: KeyModel>(a: Run<K>, b: Run<K>)
    requires
        sorted(a),
        sorted(b),
    ensures
        sorted(merge2(a, b)),
        run_map(merge2(a, b)) == overlay(run_map(a), run_map(b)),
    decreases a.len() + b.len(),
{
    broadcast use key::group_key_order;

    run_map_empty(a);
    run_map_empty(b);
    if a.len() == 0 {
        assert(overlay(run_map(a), run_map(b)) =~= run_map(b));
    } else if b.len() == 0 {
        assert(overlay(run_map(a), run_map(b)) =~= run_map(a));
    } else {
        run_map_at(a, 0);
        run_map_at(b, 0);
        run_map_drop_first(a);
        run_map_drop_first(b);
        let all = overlay(run_map(a), run_map(b));
        if a[0].0.lt(b[0].0) {
            merge2_is_overlay(a.drop_first(), b);
            run_map_prepend(a[0], merge2(a.drop_first(), b));
            assert(all =~= overlay(run_map(a.drop_first()), run_map(b)).insert(a[0].0, a[0].1));
        } else if b[0].0.lt(a[0].0) {
            merge2_is_overlay(a, b.drop_first());
            run_map_prepend(b[0], merge2(a, b.drop_first()));
            assert(all =~= overlay(run_map(a), run_map(b.drop_first())).insert(b[0].0, b[0].1));
        } else {
            merge2_is_overlay(a.drop_first(), b.drop_first());
            run_map_prepend(a[0], merge2(a.drop_first(), b.drop_first()));
            assert(all =~= overlay(run_map(a.drop_first()), run_map(b.drop_first())).insert(
                a[0].0,
                a[0].1,
            ));
        }
    }
}

/// **Merging prefers the first run**: a key that it has comes out with its entry, any other key
/// with that of the second, and no key comes out that neither has.
pub proof fn merge2_prefers_first<K: KeyModel>(a: Run<K>, b: Run<K>, k: K)
    requires
        sorted(a),
        sorted(b),
    ensures
        sorted(merge2(a, b)),
        forall|i: int|
            0 <= i < a.len() && (#[trigger] a[i]).0 == k ==> merge2(a, b).contains(a[i]),
        forall|i: int|
            0 <= i < b.len() && (#[trigger] b[i]).0 == k && !has_key(a, k) ==> merge2(
                a,
                b,
            ).contains(b[i]),
        has_key(merge2(a, b), k) <==> has_key(a, k) || has_key(b, k),
{
    let s = merge2(a, b);
    merge2_is_overlay(a, b);
    assert(run_map(s).contains_key(k) <==> has_key(s, k));
    assert(run_map(a).contains_key(k) <==> has_key(a, k));
    assert(run_map(b).contains_key(k) <==> has_key(b, k));
    assert forall|i: int| 0 <= i < a.len() && (#[trigger] a[i]).0 == k implies s.contains(
        a[i],
    ) by {
        run_map_at(a, i);
        let j = run_map_find(s, k);
        assert(s[j] == a[i]);
    }
    assert forall|i: int|
        0 <= i < b.len() && (#[trigger] b[i]).0 == k && !has_key(a, k) implies s.contains(
        b[i],
    ) by {
        run_map_at(b, i);
        let j = run_map_find(s, k);
        assert(s[j] == b[i]);
    }
}

/// The maps that some runs list.
pub open spec fn run_maps<K>(runs: Seq<Run<K>>) -> Seq<Map<K, Seq<u8>>> {
    runs.map_values(|s: Run<K>| run_map(s))
}

/// **Merging any number of sorted runs**: the result is sorted and lists the runs laid over one
/// another, the first on top.
pub proof fn merge_all_is_overlay<K: KeyModel>(runs: Seq<Run<K>>)
    requires
        forall|i: int| 0 <= i < runs.len() ==> sorted(#[trigger] runs[i]),
    ensures
        sorted(merge_all(runs)),
        run_map(merge_all(runs)) == overlay_all(run_maps(runs)),
    decreases runs.len(),
{
    if runs.len() == 0 {
        run_map_empty(merge_all(runs));
    } else {
        let rest = runs.drop_first();
        merge_all_is_overlay(rest);
        merge2_is_overlay(runs[0], merge_all(rest));
        assert(run_maps(runs).drop_first() =~= run_maps(rest));
    }
}

/// **Merging prefers earlier runs**: a key comes out with the entry of the first run that has it,
/// and comes out only if some run has it.
pub proof fn merge_all_prefers_first<K: KeyModel>(runs: Seq<Run<K>>, n: int, i: int)
    requires
        forall|j: int| 0 <= j < runs.len() ==> sorted(#[trigger] runs[j]),
        0 <= n < runs.len(),
        0 <= i < runs[n].len(),
        forall|j: int| 0 <= j < n ==> !has_key(#[trigger] runs[j], runs[n][i].0),
    ensures
        sorted(merge_all(runs)),
        merge_all(runs).contains(runs[n][i]),
{
    let k = runs[n][i].0;
    let s = merge_all(runs);
    let maps = run_maps(runs);
    merge_all_is_overlay(runs);
    run_map_at(runs[n], i);
    assert forall|j: int| 0 <= j < n implies !(#[trigger] maps[j]).contains_key(k) by {
        assert(!has_key(runs[j], k));
    }
    overlay_all_first(maps, n, k);
    let at = run_map_find(s, k);
    assert(s[at] == runs[n][i]);
}

/// **Merging makes up no key.**
pub proof fn merge_all_makes_up_nothing<K: KeyModel>(runs: Seq<Run<K>>, k: K)
    requires
        forall|j: int| 0 <= j < runs.len() ==> sorted(#[trigger] runs[j]),
        forall|j: int| 0 <= j < runs.len() ==> !has_key(#[trigger] runs[j], k),
    ensures
        !has_key(merge_all(runs), k),
{
    let maps = run_maps(runs);
    merge_all_is_overlay(runs);
    assert forall|j: int| 0 <= j < maps.len() implies !(#[trigger] maps[j]).contains_key(k) by {
        assert(!has_key(runs[j], k));
    }
    overlay_all_absent(maps, k);
    assert(run_map(merge_all(runs)).contains_key(k) <==> has_key(merge_all(runs), k));
}

/// Maps laid over one another, in two groups.
pub proof fn overlay_all_concat<K>(a: Seq<Map<K, Seq<u8>>>, b: Seq<Map<K, Seq<u8>>>)
    ensures
        overlay_all(a + b) == overlay(overlay_all(a), overlay_all(b)),
    decreases a.len(),
{
    if a.len() == 0 {
        assert(a + b =~= b);
        assert(overlay(overlay_all(a), overlay_all(b)) =~= overlay_all(b));
    } else {
        overlay_all_concat(a.drop_first(), b);
        assert((a + b).drop_first() =~= a.drop_first() + b);
        assert((a + b)[0] == a[0]);
        assert(overlay_all(a + b) =~= overlay(overlay_all(a), overlay_all(b)));
    }
}

/// One more map below the others.
pub proof fn overlay_all_push<K>(maps: Seq<Map<K, Seq<u8>>>, m: Map<K, Seq<u8>>)
    ensures
        overlay_all(maps.push(m)) == overlay(overlay_all(maps), m),
{
    overlay_all_concat(maps, seq![m]);
    assert(maps.push(m) =~= maps + seq![m]);
    assert(overlay_all(seq![m]) =~= m) by {
        reveal_with_fuel(overlay_all, 2);
    }
}

/// The first map that has a key decides on it.
pub proof fn overlay_all_first<K>(maps: Seq<Map<K, Seq<u8>>>, i: int, k: K)
    requires
        0 <= i < maps.len(),
        maps[i].contains_key(k),
        forall|j: int| 0 <= j < i ==> !(#[trigger] maps[j]).contains_key(k),
    ensures
        overlay_all(maps).contains_key(k),
        overlay_all(maps)[k] == maps[i][k],
    decreases maps.len(),
{
    if i > 0 {
        let rest = maps.drop_first();
        assert forall|j: int| 0 <= j < i - 1 implies !(#[trigger] rest[j]).contains_key(k) by {
            assert(rest[j] == maps[j + 1]);
        }
        assert(!maps[0].contains_key(k));
        overlay_all_first(rest, i - 1, k);
    }
}

/// Maps without a key have no say on it.
pub proof fn overlay_all_absent<K>(maps: Seq<Map<K, Seq<u8>>>, k: K)
    requires
        forall|j: int| 0 <= j < maps.len() ==> !(#[trigger] maps[j]).contains_key(k),
    ensures
        !overlay_all(maps).contains_key(k),
    decreases maps.len(),
{
    if maps.len() > 0 {
        let rest = maps.drop_first();
        assert forall|j: int| 0 <= j < rest.len() implies !(#[trigger] rest[j]).contains_key(k) by {
            assert(rest[j] == maps[j + 1]);
        }
        assert(!maps[0].contains_key(k));
        overlay_all_absent(rest, k);
    }
}

/// A run lists finitely many keys.
pub proof fn run_map_finite<K: KeyModel>(s: Run<K>)
    requires
        sorted(s),
    ensures
        run_map(s).dom().finite(),
    decreases s.len(),
{
    if s.len() == 0 {
        run_map_empty(s);
    } else {
        run_map_at(s, 0);
        run_map_drop_first(s);
        run_map_finite(s.drop_first());
        assert(run_map(s).dom() =~= run_map(s.drop_first()).dom().insert(s[0].0));
    }
}

/// Finite maps laid over one another are a finite map.
pub proof fn overlay_all_finite<K>(maps: Seq<Map<K, Seq<u8>>>)
    requires
        forall|i: int| 0 <= i < maps.len() ==> (#[trigger] maps[i]).dom().finite(),
    ensures
        overlay_all(maps).dom().finite(),
    decreases maps.len(),
{
    if maps.len() > 0 {
        let rest = maps.drop_first();
        assert forall|i: int| 0 <= i < rest.len() implies (#[trigger] rest[i]).dom().finite() by {
            assert(rest[i] == maps[i + 1]);
        }
        overlay_all_finite(rest);
        assert(maps[0].dom().finite());
        assert(overlay_all(maps).dom() =~= maps[0].dom().union(overlay_all(rest).dom()));
    }
}

/// Every finite map has a listing.
pub proof fn listing_exists<K: KeyModel>(m: Map<K, Seq<u8>>)
    requires
        m.dom().finite(),
    ensures
        is_listing(listing(m), m),
    decreases m.dom().len(),
{
    if m.dom().len() == 0 {
        assert(m =~= Map::empty());
        run_map_empty(Seq::<(K, Seq<u8>)>::empty());
        assert(is_listing(Seq::empty(), m));
    } else {
        let k = m.dom().choose();
        let rest = m.remove(k);
        listing_exists(rest);
        let one = seq![(k, m[k])];
        let s = merge2(one, listing(rest));
        run_map_at(one, 0);
        merge2_is_overlay(one, listing(rest));
        assert forall|j: K| run_map(one).contains_key(j) implies j == k by {
            let i = run_map_find(one, j);
        }
        assert(run_map(s) =~= m);
        assert(is_listing(s, m));
    }
}

/// The listing of the map of a sorted run is that run.
pub proof fn listing_of_run<K: KeyModel>(s: Run<K>)
    requires
        sorted(s),
    ensures
        listing(run_map(s)) == s,
{
    assert(is_listing(s, run_map(s)));
    same_map_same_run(s, listing(run_map(s)));
}

/// The listing of a map starts with its least key.
pub proof fn listing_head<K: KeyModel>(m: Map<K, Seq<u8>>, k: K)
    requires
        m.dom().finite(),
        m.contains_key(k),
        forall|j: K| #[trigger] m.contains_key(j) ==> key::le(k, j),
    ensures
        listing(m) == seq![(k, m[k])] + listing(m.remove(k)),
{
    broadcast use key::group_key_order;

    let rest = m.remove(k);
    listing_exists(m);
    listing_exists(rest);
    assert forall|j: K| #[trigger] run_map(listing(rest)).contains_key(j) implies k.lt(j) by {
        assert(m.contains_key(j));
    }
    run_map_prepend((k, m[k]), listing(rest));
    let s = seq![(k, m[k])] + listing(rest);
    assert(run_map(s) =~= m);
    same_map_same_run(s, listing(m));
}

/// The listing of a map without entries.
pub proof fn listing_of_nothing<K: KeyModel>(m: Map<K, Seq<u8>>)
    requires
        forall|k: K| !m.contains_key(k),
    ensures
        listing(m).len() == 0,
{
    assert(m =~= Map::empty());
    assert(m.dom() =~= Set::empty());
    listing_exists(m);
    run_map_empty(listing(m));
}

} // verus!
