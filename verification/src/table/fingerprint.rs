//! Fingerprints of keys.

use vstd::prelude::*;

verus! {

/// The fingerprint of a byte string.
pub uninterp spec fn fingerprint(s: Seq<u8>) -> u32;

/// Four bytes read as a number, the lowest byte first.
pub open spec fn word_at(s: Seq<u8>, i: int) -> int {
    s[i] + 0x100 * s[i + 1] + 0x1_0000 * s[i + 2] + 0x100_0000 * s[i + 3]
}

/// The multiplier by which `farmhash` mixes words.
pub const MIX: u32 = 0xcc9e2d51;

/// No plain addition in the fingerprint's computation leaves the range of 32 bits. Strings of 5 to
/// 24 bytes have a few such additions; for others every addition is a wrapping one.
pub open spec fn sums_fit(s: Seq<u8>) -> bool {
    let n = s.len() as int;
    if 5 <= n <= 12 {
        &&& word_at(s, 0) + n <= u32::MAX
        &&& word_at(s, n - 4) + 5 * n <= u32::MAX
        &&& word_at(s, if n < 8 { 0 } else { 4 }) + 9 <= u32::MAX
    } else if 13 <= n <= 24 {
        (word_at(s, n / 2) * MIX) % 0x1_0000_0000 + n <= u32::MAX
    } else {
        true
    }
}

/// [`farmhash::fingerprint32`]. The result depends on the bytes alone. Strings on which one of its
/// plain additions overflows are left out, because a build with overflow checks panics there.
#[verifier::external_body]
pub(crate) fn fingerprint32(s: &[u8]) -> (r: u32)
    requires
        sums_fit(s@),
    ensures
        r == fingerprint(s@),
{
    farmhash::fingerprint32(s)
}

fn word(s: &[u8], i: usize) -> (r: u64)
    requires
        i + 4 <= s@.len(),
    ensures
        r == word_at(s@, i as int),
        r <= u32::MAX,
{
    s[i] as u64 + 0x100 * (s[i + 1] as u64) + 0x1_0000 * (s[i + 2] as u64) + 0x100_0000 * (s[i
        + 3] as u64)
}

fn do_sums_fit(s: &[u8]) -> (r: bool)
    ensures
        r == sums_fit(s@),
{
    let n: usize = s.len();
    let max: u64 = u32::MAX as u64;
    if 5 <= n && n <= 12 {
        let third: usize = if n < 8 { 0 } else { 4 };
        word(s, 0) + n as u64 <= max && word(s, n - 4) + 5 * (n as u64) <= max && word(s, third) + 9
            <= max
    } else if 13 <= n && n <= 24 {
        let w: u64 = word(s, n / 2);
        assert(w * 0xcc9e2d51 <= 0xffff_ffff * 0xcc9e2d51) by (nonlinear_arith)
            requires
                w <= 0xffff_ffff,
        ;
        let product: u64 = w * (MIX as u64);
        product % 0x1_0000_0000 + n as u64 <= max
    } else {
        true
    }
}

/// The fingerprint of a key, where it can be computed without an overflow.
pub fn key_fingerprint(key: &[u8]) -> (r: Option<u32>)
    ensures
        r == if sums_fit(key@) {
            Some(fingerprint(key@))
        } else {
            None
        },
{
    if do_sums_fit(key) {
        Some(fingerprint32(key))
    } else {
        None
    }
}

} // verus!
