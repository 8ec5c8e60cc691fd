//! Bloom filters on key fingerprints.

use vstd::prelude::*;

verus! {

/// Bits that the filter spends on each key, for about one false positive in a hundred.
pub const BITS_PER_KEY: usize = 10;

/// Bits that are set, and looked at, for each key.
pub const PROBES: u32 = 6;

/// The least number of bits.
pub const MIN_BITS: usize = 64;

/// The distance between the probes of a fingerprint: its bits rotated by fifteen places.
pub open spec fn stride(h: u32) -> u32 {
    (h << 15u32) | (h >> 17u32)
}

/// The hash that gives the position of probe `i` of fingerprint `h`.
pub open spec fn probe(h: u32, i: nat) -> u32
    decreases i,
{
    if i == 0 {
        h
    } else {
        probe(h, (i - 1) as nat).wrapping_add(stride(h))
    }
}

/// Probe `i` of fingerprint `h` meets a bit that is set.
pub open spec fn probe_set(bits: Seq<bool>, h: u32, i: nat) -> bool {
    bits[probe(h, i) as int % bits.len() as int]
}

/// All probes of fingerprint `h` meet bits that are set.
pub open spec fn covers(bits: Seq<bool>, h: u32) -> bool {
    forall|i: nat| i < PROBES ==> #[trigger] probe_set(bits, h, i)
}

/// A set of fingerprints, up to false positives.
pub struct Bloom {
    filter: Vec<bool>,
}

impl View for Bloom {
    type V = Seq<bool>;

    closed spec fn view(&self) -> Seq<bool> {
        self.filter@
    }
}

/// How many bits a filter on `n` keys has.
pub open spec fn filter_len(n: int) -> int {
    let bits = n * BITS_PER_KEY;
    let at_least = if bits < MIN_BITS {
        MIN_BITS as int
    } else {
        bits
    };
    (at_least + 7) / 8 * 8
}

/// Some probe of the first `n` fingerprints meets bit `b` of `len` bits.
pub open spec fn is_hit(hashes: Seq<u32>, n: int, len: int, b: int) -> bool {
    exists|j: int, i: nat|
        0 <= j < n && i < PROBES && b == #[trigger] probe(hashes[j], i) as int % len
}

/// The filter on some fingerprints: the bits that their probes meet are set, and no others.
pub open spec fn filter_bits(hashes: Seq<u32>) -> Seq<bool> {
    let len = filter_len(hashes.len() as int);
    Seq::new(len as nat, |b: int| is_hit(hashes, hashes.len() as int, len, b))
}

/// **A filter has no false negatives**: it lets every fingerprint through on which it was built.
pub proof fn filter_covers_all(hashes: Seq<u32>)
    ensures
        forall|j: int| 0 <= j < hashes.len() ==> covers(filter_bits(hashes), #[trigger] hashes[j]),
{
    let bits = filter_bits(hashes);
    let len = filter_len(hashes.len() as int);
    assert forall|j: int| 0 <= j < hashes.len() implies covers(bits, #[trigger] hashes[j]) by {
        assert forall|i: nat| i < PROBES implies #[trigger] probe_set(bits, hashes[j], i) by {
            let b = probe(hashes[j], i) as int % len;
            assert(0 <= b < len);
            assert(is_hit(hashes, hashes.len() as int, len, b));
        }
    }
}

/// **A filter sets no bit without a key**: a bit that a fingerprint meets is one that a probe of
/// some key meets, and a filter on no keys rules everything out.
pub proof fn filter_sets_what_keys_meet(hashes: Seq<u32>, h: u32, i: nat)
    requires
        i < PROBES,
        probe_set(filter_bits(hashes), h, i),
    ensures
        exists|j: int, n: nat|
            0 <= j < hashes.len() && n < PROBES && #[trigger] probe(hashes[j], n) as int
                % filter_bits(hashes).len() as int == probe(h, i) as int
                % filter_bits(hashes).len() as int,
        hashes.len() > 0,
        filter_bits(hashes).len() >= 10 * hashes.len(),
        filter_bits(hashes).len() >= 64,
{
    let len = filter_len(hashes.len() as int);
    let b = probe(h, i) as int % len;
    assert(0 <= b < len);
    assert(is_hit(hashes, hashes.len() as int, len, b));
}

/// **A fingerprint is probed at its own place first**, and then at equal distances.
pub proof fn probes_are_apart_by_a_stride(h: u32, i: nat)
    ensures
        probe(h, 0) == h,
        probe(h, i + 1) == probe(h, i).wrapping_add((h << 15u32) | (h >> 17u32)),
{
}

impl Bloom {
    /// The filter has room for a bit.
    pub open spec fn wf(&self) -> bool {
        0 < self@.len() <= u32::MAX
    }

    /// Build a bloom filter from key hashes.
    pub fn build_from_key_hashes(keys: &Vec<u32>) -> (r: Self)
        requires
            filter_len(keys@.len() as int) <= u32::MAX,
        ensures
            r.wf(),
            r@ == filter_bits(keys@),
    {
        let bits: usize = keys.len() * BITS_PER_KEY;
        let at_least: usize = if bits < MIN_BITS {
            MIN_BITS
        } else {
            bits
        };
        let len: usize = (at_least + 7) / 8 * 8;
        let mut filter: Vec<bool> = Vec::new();
        while filter.len() < len
            invariant
                filter@.len() <= len,
                forall|b: int| 0 <= b < filter@.len() ==> !(#[trigger] filter@[b]),
            decreases len - filter@.len(),
        {
            filter.push(false);
        }
        let mut j: usize = 0;
        while j < keys.len()
            invariant
                j <= keys@.len(),
                filter@.len() == len,
                0 < len <= u32::MAX,
                forall|b: int|
                    0 <= b < len ==> #[trigger] filter@[b] == is_hit(
                        keys@,
                        j as int,
                        len as int,
                        b,
                    ),
            decreases keys@.len() - j,
        {
            let mut h: u32 = keys[j];
            let delta: u32 = (h << 15u32) | (h >> 17u32);
            let ghost before = filter@;
            let mut i: u32 = 0;
            while i < PROBES
                invariant
                    i <= PROBES,
                    j < keys@.len(),
                    filter@.len() == len,
                    0 < len <= u32::MAX,
                    before.len() == len,
                    h == probe(keys@[j as int], i as nat),
                    delta == stride(keys@[j as int]),
                    forall|b: int|
                        0 <= b < len ==> (#[trigger] filter@[b] <==> before[b] || exists|n: nat|
                            n < i && b == #[trigger] probe(keys@[j as int], n) as int % len as int),
                decreases PROBES - i,
            {
                let at: usize = (h as usize) % len;
                let ghost now = filter@;
                filter.set(at, true);
                proof {
                    let hit = keys@[j as int];
                    assert(at == probe(hit, i as nat) as int % len as int);
                    assert forall|b: int| 0 <= b < len implies (#[trigger] filter@[b]
                        <==> before[b] || exists|n: nat|
                        n < i + 1 && b == #[trigger] probe(hit, n) as int % len as int) by {
                        if b != at && filter@[b] && !before[b] {
                            assert(now[b]);
                        }
                    }
                }
                h = h.wrapping_add(delta);
                i = i + 1;
            }
            proof {
                let len = len as int;
                assert forall|b: int| 0 <= b < len implies #[trigger] filter@[b] == is_hit(
                    keys@,
                    j + 1,
                    len,
                    b,
                ) by {
                    if before[b] {
                        let (m, n) = choose|m: int, n: nat|
                            0 <= m < j && n < PROBES && b == #[trigger] probe(keys@[m], n) as int
                                % len;
                        assert(b == probe(keys@[m], n) as int % len);
                    }
                    if filter@[b] && !before[b] {
                        let n = choose|n: nat|
                            n < PROBES && b == #[trigger] probe(keys@[j as int], n) as int % len;
                        assert(b == probe(keys@[j as int], n) as int % len);
                    }
                    if is_hit(keys@, j + 1, len, b) && !before[b] {
                        let (m, n) = choose|m: int, n: nat|
                            0 <= m < j + 1 && n < PROBES && b == #[trigger] probe(
                                keys@[m],
                                n,
                            ) as int % len;
                        if m < j {
                            assert(is_hit(keys@, j as int, len, b));
                        }
                    }
                }
            }
            j = j + 1;
        }
        assert(filter@ =~= filter_bits(keys@));
        Bloom { filter }
    }

    /// Check if a bloom filter may contain some data: false rules the fingerprint out.
    pub fn may_contain(&self, hash: u32) -> (r: bool)
        requires
            self.wf(),
        ensures
            r == covers(self@, hash),
    {
        let nbits: usize = self.filter.len();
        let delta: u32 = (hash << 15u32) | (hash >> 17u32);
        let mut h: u32 = hash;
        let mut i: u32 = 0;
        while i < PROBES
            invariant
                i <= PROBES,
                self.wf(),
                nbits == self@.len(),
                h == probe(hash, i as nat),
                delta == stride(hash),
                forall|n: nat| n < i ==> #[trigger] probe_set(self@, hash, n),
            decreases PROBES - i,
        {
            let at: usize = (h as usize) % nbits;
            if !self.filter[at] {
                assert(!probe_set(self@, hash, i as nat));
                return false;
            }
            h = h.wrapping_add(delta);
            i = i + 1;
        }
        true
    }
}

} // verus!
