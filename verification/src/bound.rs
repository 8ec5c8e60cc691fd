//! Range bounds on keys.

use vstd::prelude::*;
use std::ops::Bound;
use bytes::Bytes;
use crate::bytes_spec;
use crate::key;
use crate::key::{bytes_less, KeyModel};
use crate::run;
use crate::run::Run;

verus! {

/// [`std::ops::Bound`], with its three variants as std declares them.
#[verifier::external_type_specification]
#[verifier::reject_recursive_types(T)]
pub struct ExBound<T>(std::ops::Bound<T>);

/// `k` is not cut off by the lower bound.
pub open spec fn above_lower<K: KeyModel>(lower: Bound<K>, k: K) -> bool {
    match lower {
        Bound::Included(b) => key::le(b, k),
        Bound::Excluded(b) => b.lt(k),
        Bound::Unbounded => true,
    }
}

/// `k` is not cut off by the upper bound.
pub open spec fn below_upper<K: KeyModel>(upper: Bound<K>, k: K) -> bool {
    match upper {
        Bound::Included(b) => key::le(k, b),
        Bound::Excluded(b) => k.lt(b),
        Bound::Unbounded => true,
    }
}

/// `k` lies between the bounds.
pub open spec fn within<K: KeyModel>(lower: Bound<K>, upper: Bound<K>, k: K) -> bool {
    above_lower(lower, k) && below_upper(upper, k)
}

/// The entries of `m` whose keys lie between the bounds.
pub open spec fn range_of<K: KeyModel>(
    m: Map<K, Seq<u8>>,
    lower: Bound<K>,
    upper: Bound<K>,
) -> Map<K, Seq<u8>> {
    Map::new(|k: K| m.contains_key(k) && within(lower, upper, k), |k: K| m[k])
}

/// **What bounds let through**: an included bound lets its own key through, an excluded one does
/// not, and keys on the wrong side are cut off.
pub proof fn bounds_cut_off(a: Seq<u8>, b: Seq<u8>, k: Seq<u8>)
    ensures
        within(Bound::Included(a), Bound::Included(b), k) <==> !k.lt(a) && !b.lt(k),
        within(Bound::Included(a), Bound::Excluded(b), k) <==> !k.lt(a) && k.lt(b),
        within(Bound::Included(a), Bound::Unbounded, k) <==> !k.lt(a),
        within(Bound::Excluded(a), Bound::Included(b), k) <==> a.lt(k) && !b.lt(k),
        within(Bound::Excluded(a), Bound::Excluded(b), k) <==> a.lt(k) && k.lt(b),
        within(Bound::Excluded(a), Bound::Unbounded, k) <==> a.lt(k),
        within(Bound::Unbounded, Bound::Included(b), k) <==> !b.lt(k),
        within(Bound::Unbounded, Bound::Excluded(b), k) <==> k.lt(b),
        within(Bound::<Seq<u8>>::Unbounded, Bound::Unbounded, k),
{
    broadcast use key::group_key_order;

}

/// **A range holds what lies between its bounds**, unchanged.
pub proof fn range_holds_what_lies_between(
    m: Map<Seq<u8>, Seq<u8>>,
    lower: Bound<Seq<u8>>,
    upper: Bound<Seq<u8>>,
    k: Seq<u8>,
)
    ensures
        range_of(m, lower, upper).contains_key(k) <==> m.contains_key(k) && within(
            lower,
            upper,
            k,
        ),
        range_of(m, lower, upper).contains_key(k) ==> range_of(m, lower, upper)[k] == m[k],
{
}

/// The entries of a sorted run from the first key on that is not before `k`.
pub open spec fn seek<K: KeyModel>(s: Run<K>, k: K) -> Run<K>
    decreases s.len(),
{
    if s.len() > 0 && s[0].0.lt(k) {
        seek(s.drop_first(), k)
    } else {
        s
    }
}

/// Seeking lands behind the keys before `k`.
pub proof fn seek_at<K: KeyModel>(s: Run<K>, k: K, i: int)
    requires
        0 <= i <= s.len(),
        forall|j: int| 0 <= j < i ==> (#[trigger] s[j]).0.lt(k),
        i < s.len() ==> !s[i].0.lt(k),
    ensures
        seek(s, k) == s.skip(i),
    decreases s.len(),
{
    if i == 0 {
        assert(s.skip(0) =~= s);
    } else {
        let rest = s.drop_first();
        assert forall|j: int| 0 <= j < i - 1 implies (#[trigger] rest[j]).0.lt(k) by {
            assert(rest[j] == s[j + 1]);
        }
        assert(s[0].0.lt(k));
        seek_at(rest, k, i - 1);
        assert(rest.skip(i - 1) =~= s.skip(i));
    }
}

/// **Seeking splits a sorted run at the key**: what is left behind comes before it, and nothing of
/// the rest does.
pub proof fn seek_splits(s: Run<Seq<u8>>, k: Seq<u8>) -> (n: int)
    requires
        run::sorted(s),
    ensures
        0 <= n <= s.len(),
        seek(s, k) == s.skip(n),
        forall|i: int| 0 <= i < n ==> (#[trigger] s[i]).0.lt(k),
        forall|i: int| n <= i < s.len() ==> !(#[trigger] s[i]).0.lt(k),
    decreases s.len(),
{
    broadcast use key::group_key_order;

    if s.len() > 0 && s[0].0.lt(k) {
        let rest = s.drop_first();
        run::run_map_drop_first(s);
        let n = seek_splits(rest, k);
        assert(rest.skip(n) =~= s.skip(n + 1));
        assert forall|i: int| 0 <= i < n + 1 implies (#[trigger] s[i]).0.lt(k) by {
            if i > 0 {
                assert(rest[i - 1] == s[i]);
            }
        }
        assert forall|i: int| n + 1 <= i < s.len() implies !(#[trigger] s[i]).0.lt(k) by {
            assert(rest[i - 1] == s[i]);
        }
        n + 1
    } else {
        assert(s.skip(0) =~= s);
        assert forall|i: int| 0 <= i < s.len() implies !(#[trigger] s[i]).0.lt(k) by {
            if i > 0 {
                assert(s[0].0.lt(s[i].0));
            }
        }
        0
    }
}

/// What is left of a sorted run is sorted.
pub proof fn seek_sorted<K: KeyModel>(s: Run<K>, k: K)
    requires
        run::sorted(s),
    ensures
        run::sorted(seek(s, k)),
    decreases s.len(),
{
    if s.len() > 0 && s[0].0.lt(k) {
        run::run_map_drop_first(s);
        seek_sorted(s.drop_first(), k);
    }
}

/// Seeking leaves entries behind that all come before the key.
pub proof fn seek_past<K: KeyModel>(a: Run<K>, b: Run<K>, k: K)
    requires
        forall|i: int| 0 <= i < a.len() ==> (#[trigger] a[i]).0.lt(k),
    ensures
        seek(a + b, k) == seek(b, k),
    decreases a.len(),
{
    if a.len() == 0 {
        assert(a + b =~= b);
    } else {
        let rest = a.drop_first();
        assert forall|i: int| 0 <= i < rest.len() implies (#[trigger] rest[i]).0.lt(k) by {
            assert(rest[i] == a[i + 1]);
        }
        assert((a + b)[0] == a[0]);
        seek_past(rest, b, k);
        assert((a + b).drop_first() =~= rest + b);
    }
}

/// Seeking keeps entries whole of which none comes before the key.
pub proof fn seek_followed<K: KeyModel>(a: Run<K>, b: Run<K>, k: K)
    requires
        forall|i: int| 0 <= i < b.len() ==> !(#[trigger] b[i]).0.lt(k),
    ensures
        seek(a + b, k) == seek(a, k) + b,
    decreases a.len(),
{
    if a.len() == 0 {
        assert(a + b =~= b);
        assert(seek(a, k) + b =~= b);
    } else if a[0].0.lt(k) {
        assert((a + b)[0] == a[0]);
        seek_followed(a.drop_first(), b, k);
        assert((a + b).drop_first() =~= a.drop_first() + b);
    } else {
        assert((a + b)[0] == a[0]);
    }
}

/// What seeking leaves.
pub proof fn seek_map<K: KeyModel>(s: Run<K>, k: K)
    requires
        run::sorted(s),
    ensures
        run::run_map(seek(s, k)) == range_of(
            run::run_map(s),
            Bound::Included(k),
            Bound::Unbounded,
        ),
    decreases s.len(),
{
    broadcast use key::group_key_order;

    let all = range_of(run::run_map(s), Bound::Included(k), Bound::Unbounded);
    if s.len() == 0 {
        run::run_map_empty(s);
        assert(all =~= run::run_map(s));
    } else {
        run::run_map_at(s, 0);
        run::run_map_drop_first(s);
        if s[0].0.lt(k) {
            seek_map(s.drop_first(), k);
            assert(all =~= range_of(
                run::run_map(s.drop_first()),
                Bound::Included(k),
                Bound::Unbounded,
            ));
        } else {
            assert forall|j: K| #[trigger] run::run_map(s).contains_key(j) implies key::le(
                k,
                j,
            ) by {}
            assert(all =~= run::run_map(s));
        }
    }
}

/// The entries of a sorted run from a lower bound on: seek to the bound, and leave the entry on it
/// if the bound is an excluded one.
pub open spec fn from_bound<K: KeyModel>(s: Run<K>, lower: Bound<K>) -> Run<K> {
    match lower {
        Bound::Included(k) => seek(s, k),
        Bound::Excluded(k) => run::past(seek(s, k), k),
        Bound::Unbounded => s,
    }
}

/// What a lower bound leaves.
pub proof fn from_bound_map<K: KeyModel>(s: Run<K>, lower: Bound<K>)
    requires
        run::sorted(s),
    ensures
        run::sorted(from_bound(s, lower)),
        run::run_map(from_bound(s, lower)) == range_of(
            run::run_map(s),
            lower,
            Bound::Unbounded,
        ),
{
    broadcast use key::group_key_order;

    match lower {
        Bound::Included(k) => {
            seek_sorted(s, k);
            seek_map(s, k);
        },
        Bound::Excluded(k) => {
            seek_sorted(s, k);
            seek_map(s, k);
            let t = seek(s, k);
            let m = range_of(run::run_map(s), Bound::Included(k), Bound::Unbounded);
            let n = range_of(run::run_map(s), Bound::Excluded(k), Bound::Unbounded);
            if t.len() > 0 {
                run::run_map_at(t, 0);
                run::run_map_drop_first(t);
            } else {
                run::run_map_empty(t);
            }
            assert(n =~= m.remove(k));
            if m.contains_key(k) {
                assert(key::le(t[0].0, k));
            } else {
                assert(m.remove(k) =~= m);
            }
        },
        Bound::Unbounded => {
            assert(range_of(run::run_map(s), lower, Bound::Unbounded) =~= run::run_map(s));
        },
    }
}

/// What a borrowed bound denotes.
pub open spec fn slice_bound(b: Bound<&[u8]>) -> Bound<Seq<u8>> {
    match b {
        Bound::Included(x) => Bound::Included(x@),
        Bound::Excluded(x) => Bound::Excluded(x@),
        Bound::Unbounded => Bound::Unbounded,
    }
}

/// What an owned bound denotes.
pub open spec fn bytes_bound(b: Bound<Bytes>) -> Bound<Seq<u8>> {
    match b {
        Bound::Included(x) => Bound::Included(bytes_spec::bytes_of(x)),
        Bound::Excluded(x) => Bound::Excluded(bytes_spec::bytes_of(x)),
        Bound::Unbounded => Bound::Unbounded,
    }
}

/// **A bound denotes its own bytes**, included or excluded as it is, borrowed or owned.
pub proof fn bounds_keep_their_kind(x: &[u8], b: Bytes)
    ensures
        slice_bound(Bound::Included(x)) == Bound::Included(x@),
        slice_bound(Bound::Excluded(x)) == Bound::Excluded(x@),
        slice_bound(Bound::Unbounded) == Bound::<Seq<u8>>::Unbounded,
        bytes_bound(Bound::Included(b)) == Bound::Included(bytes_spec::bytes_of(b)),
        bytes_bound(Bound::Excluded(b)) == Bound::Excluded(bytes_spec::bytes_of(b)),
        bytes_bound(Bound::Unbounded) == Bound::<Seq<u8>>::Unbounded,
{
}

/// Create a bound of `Bytes` from a bound of `&[u8]`.
pub fn map_bound(bound: Bound<&[u8]>) -> (r: Bound<Bytes>)
    ensures
        bytes_bound(r) == slice_bound(bound),
{
    match bound {
        Bound::Included(x) => Bound::Included(Bytes::copy_from_slice(x)),
        Bound::Excluded(x) => Bound::Excluded(Bytes::copy_from_slice(x)),
        Bound::Unbounded => Bound::Unbounded,
    }
}

/// Whether `k` is not cut off by the upper bound.
pub fn is_below_upper(upper: &Bound<Bytes>, k: &[u8]) -> (r: bool)
    ensures
        r == below_upper(bytes_bound(*upper), k@),
{
    broadcast use key::group_key_order;

    match upper {
        Bound::Unbounded => true,
        Bound::Included(b) => !bytes_less(bytes_spec::as_slice(b), k),
        Bound::Excluded(b) => bytes_less(k, bytes_spec::as_slice(b)),
    }
}

} // verus!
