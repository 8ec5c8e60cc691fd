//! Keys and their order.

use vstd::prelude::*;

verus! {

/// What a key denotes: a point of a strict total order.
pub trait KeyModel: Sized {
    spec fn lt(self, other: Self) -> bool;

    proof fn lt_irreflexive(a: Self)
        ensures
            !a.lt(a),
    ;

    proof fn lt_transitive(a: Self, b: Self, c: Self)
        requires
            a.lt(b),
            b.lt(c),
        ensures
            a.lt(c),
    ;

    proof fn lt_total(a: Self, b: Self)
        ensures
            a.lt(b) || a == b || b.lt(a),
    ;
}

/// `a` comes before `b`, or is `b`.
pub open spec fn le<K: KeyModel>(a: K, b: K) -> bool {
    a.lt(b) || a == b
}

pub broadcast proof fn order_irreflexive<K: KeyModel>(a: K)
    ensures
        !(#[trigger] a.lt(a)),
{
    K::lt_irreflexive(a);
}

pub broadcast proof fn order_transitive<K: KeyModel>(a: K, b: K, c: K)
    requires
        #[trigger] a.lt(b),
        #[trigger] b.lt(c),
    ensures
        a.lt(c),
{
    K::lt_transitive(a, b, c);
}

pub broadcast proof fn order_total<K: KeyModel>(a: K, b: K)
    ensures
        #[trigger] a.lt(b) || a == b || b.lt(a),
{
    K::lt_total(a, b);
}

/// The facts that make `lt` a strict total order.
pub broadcast group group_key_order {
    order_irreflexive,
    order_transitive,
    order_total,
}

/// Byte strings in dictionary order: the first differing byte decides, and a proper prefix comes
/// before the longer string.
pub open spec fn bytes_lt(a: Seq<u8>, b: Seq<u8>) -> bool
    decreases a.len(),
{
    if b.len() == 0 {
        false
    } else if a.len() == 0 {
        true
    } else if a[0] != b[0] {
        a[0] < b[0]
    } else {
        bytes_lt(a.drop_first(), b.drop_first())
    }
}

proof fn bytes_lt_transitive(a: Seq<u8>, b: Seq<u8>, c: Seq<u8>)
    requires
        bytes_lt(a, b),
        bytes_lt(b, c),
    ensures
        bytes_lt(a, c),
    decreases a.len(),
{
    if a.len() > 0 && a[0] == b[0] && b[0] == c[0] {
        bytes_lt_transitive(a.drop_first(), b.drop_first(), c.drop_first());
    }
}

proof fn bytes_lt_irreflexive(a: Seq<u8>)
    ensures
        !bytes_lt(a, a),
    decreases a.len(),
{
    if a.len() > 0 {
        bytes_lt_irreflexive(a.drop_first());
    }
}

proof fn bytes_lt_total(a: Seq<u8>, b: Seq<u8>)
    ensures
        bytes_lt(a, b) || a == b || bytes_lt(b, a),
    decreases a.len(),
{
    if a.len() > 0 && b.len() > 0 && a[0] == b[0] {
        bytes_lt_total(a.drop_first(), b.drop_first());
        if a.drop_first() == b.drop_first() {
            assert(a =~= seq![a[0]] + a.drop_first());
            assert(b =~= seq![b[0]] + b.drop_first());
        }
    } else if a.len() == 0 && b.len() == 0 {
        assert(a =~= b);
    }
}

impl KeyModel for Seq<u8> {
    open spec fn lt(self, other: Self) -> bool {
        bytes_lt(self, other)
    }

    proof fn lt_irreflexive(a: Self) {
        bytes_lt_irreflexive(a);
    }

    proof fn lt_transitive(a: Self, b: Self, c: Self) {
        bytes_lt_transitive(a, b, c);
    }

    proof fn lt_total(a: Self, b: Self) {
        bytes_lt_total(a, b);
    }
}

/// The empty string comes before every other string.
pub broadcast proof fn empty_is_least(a: Seq<u8>)
    ensures
        !(#[trigger] a.lt(Seq::<u8>::empty())),
{
}

/// Strings with a common prefix compare as what follows the prefix does.
proof fn bytes_lt_skip(a: Seq<u8>, b: Seq<u8>, n: int)
    requires
        0 <= n <= a.len(),
        n <= b.len(),
        a.take(n) == b.take(n),
    ensures
        bytes_lt(a, b) == bytes_lt(a.skip(n), b.skip(n)),
        a == b <==> a.skip(n) == b.skip(n),
    decreases n,
{
    if n == 0 {
        assert(a.skip(0) =~= a);
        assert(b.skip(0) =~= b);
    } else {
        assert(a[0] == a.take(n)[0] && b[0] == b.take(n)[0]);
        assert(a.drop_first().take(n - 1) =~= a.take(n).drop_first());
        assert(b.drop_first().take(n - 1) =~= b.take(n).drop_first());
        bytes_lt_skip(a.drop_first(), b.drop_first(), n - 1);
        assert(bytes_lt(a, b) == bytes_lt(a.drop_first(), b.drop_first()));
        assert(a.drop_first().skip(n - 1) =~= a.skip(n));
        assert(b.drop_first().skip(n - 1) =~= b.skip(n));
        if a.skip(n) == b.skip(n) {
            assert(a =~= a.take(n) + a.skip(n));
            assert(b =~= b.take(n) + b.skip(n));
        }
    }
}

/// **The first differing byte decides**, as a number.
pub proof fn first_difference_decides(a: Seq<u8>, b: Seq<u8>, n: int)
    requires
        0 <= n < a.len(),
        n < b.len(),
        forall|i: int| 0 <= i < n ==> a[i] == b[i],
        a[n] < b[n],
    ensures
        a.lt(b),
        !b.lt(a),
{
    assert(a.take(n) =~= b.take(n));
    bytes_lt_skip(a, b, n);
    bytes_lt_skip(b, a, n);
    assert(a.skip(n)[0] == a[n] && b.skip(n)[0] == b[n]);
}

/// **A proper prefix comes before the longer string.**
pub proof fn prefix_comes_first(a: Seq<u8>, b: Seq<u8>)
    requires
        a.len() < b.len(),
        forall|i: int| 0 <= i < a.len() ==> a[i] == b[i],
    ensures
        a.lt(b),
        !b.lt(a),
{
    let n = a.len() as int;
    assert(a.take(n) =~= b.take(n));
    bytes_lt_skip(a, b, n);
    bytes_lt_skip(b, a, n);
}

/// **No key comes before itself, and of two keys one comes first**; `le` is what is left of `lt`
/// when the keys change places.
pub proof fn order_of_two(a: Seq<u8>, b: Seq<u8>)
    ensures
        !a.lt(a),
        a != b ==> (a.lt(b) <==> !b.lt(a)),
        le(a, b) <==> !b.lt(a),
{
    broadcast use group_key_order;

}

/// The length of the longest common prefix.
fn common_prefix(a: &[u8], b: &[u8]) -> (n: usize)
    ensures
        n <= a@.len(),
        n <= b@.len(),
        a@.take(n as int) == b@.take(n as int),
        n < a@.len() && n < b@.len() ==> a@[n as int] != b@[n as int],
{
    let mut n: usize = 0;
    while n < a.len() && n < b.len() && a[n] == b[n]
        invariant
            n <= a@.len(),
            n <= b@.len(),
            a@.take(n as int) == b@.take(n as int),
        decreases a@.len() - n,
    {
        proof {
            assert(a@.take(n + 1) =~= a@.take(n as int).push(a@[n as int]));
            assert(b@.take(n + 1) =~= b@.take(n as int).push(b@[n as int]));
        }
        n = n + 1;
    }
    n
}

/// Whether `a` comes before `b` in dictionary order.
pub fn bytes_less(a: &[u8], b: &[u8]) -> (r: bool)
    ensures
        r == a@.lt(b@),
{
    let n: usize = common_prefix(a, b);
    proof {
        bytes_lt_skip(a@, b@, n as int);
    }
    if n == b.len() {
        false
    } else if n == a.len() {
        true
    } else {
        a[n] < b[n]
    }
}

/// Whether `a` and `b` hold the same bytes.
pub fn bytes_same(a: &[u8], b: &[u8]) -> (r: bool)
    ensures
        r == (a@ == b@),
{
    let n: usize = common_prefix(a, b);
    let r: bool = n == a.len() && n == b.len();
    proof {
        if r {
            assert(a@.take(n as int) =~= a@);
            assert(b@.take(n as int) =~= b@);
        }
    }
    r
}

/// A key that a cursor hands out, usually a borrowed one.
pub trait StorageKey {
    type Model: KeyModel;

    spec fn model(&self) -> Self::Model;

    /// Whether this key comes before `other`.
    fn less(&self, other: &Self) -> (r: bool)
        ensures
            r == self.model().lt(other.model()),
    ;

    /// Whether both keys are the same.
    fn same(&self, other: &Self) -> (r: bool)
        ensures
            r == (self.model() == other.model()),
    ;
}

/// A kind of key: for each lifetime, the type in which a cursor lends its current key.
pub trait KeyFamily {
    type Model: KeyModel;

    type Key<'a>: StorageKey<Model = Self::Model>;
}

/// A borrowed user key.
#[derive(Clone, Copy)]
pub struct KeySlice<'a> {
    raw: &'a [u8],
}

impl<'a> KeySlice<'a> {
    /// The key as a byte string.
    pub closed spec fn bytes(&self) -> Seq<u8> {
        self.raw@
    }

    pub fn from_slice(raw: &'a [u8]) -> (r: Self)
        ensures
            r.bytes() == raw@,
    {
        KeySlice { raw }
    }

    pub fn raw_ref(&self) -> (r: &'a [u8])
        ensures
            r@ == self.bytes(),
    {
        self.raw
    }
}

impl<'a> StorageKey for KeySlice<'a> {
    type Model = Seq<u8>;

    open spec fn model(&self) -> Seq<u8> {
        self.bytes()
    }

    fn less(&self, other: &Self) -> (r: bool) {
        bytes_less(self.raw, other.raw)
    }

    fn same(&self, other: &Self) -> (r: bool) {
        bytes_same(self.raw, other.raw)
    }
}

impl<'a> StorageKey for &'a [u8] {
    type Model = Seq<u8>;

    open spec fn model(&self) -> Seq<u8> {
        self@
    }

    fn less(&self, other: &Self) -> (r: bool) {
        bytes_less(self, other)
    }

    fn same(&self, other: &Self) -> (r: bool) {
        bytes_same(self, other)
    }
}

/// Keys lent as [`KeySlice`].
pub struct UserKeys;

impl KeyFamily for UserKeys {
    type Model = Seq<u8>;

    type Key<'a> = KeySlice<'a>;
}

/// Keys lent as plain slices.
pub struct RawKeys;

impl KeyFamily for RawKeys {
    type Model = Seq<u8>;

    type Key<'a> = &'a [u8];
}

} // verus!
