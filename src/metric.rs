//! The masked XOR metric and the bit-level facts that the indexes rely on.
use vstd::prelude::*;

verus! {

/// Number of key bits that select a bucket of the bin overlay.
pub const SUBNET_BITS: u32 = 11;

/// Number of buckets of the bin overlay: two to the power `SUBNET_BITS`.
pub const NUM_SUBNETS: usize = 2048;

/// The metric of class `class`: the XOR of the two keys with its top `class`
/// bits cleared.
pub open spec fn masked_distance(id: u64, target: u64, class: u8) -> u64 {
    (id ^ target) & (u64::MAX >> (class as u64))
}

/// Bucket of `id` at class `class`: the `SUBNET_BITS`-bit window of the key
/// that starts at its `class`-th highest bit.
pub open spec fn subnet_of(id: u64, class: u8) -> u64 {
    (id << (class as u64)) >> 53u64
}

/// Class 0 leaves the XOR unchanged.
pub proof fn lemma_class_zero(id: u64, target: u64)
    ensures
        masked_distance(id, target, 0) == id ^ target,
{
    let x = id ^ target;
    assert(x & (u64::MAX >> 0u64) == x) by (bit_vector);
}

/// Bit `p` of `x`, as 0 or 1.
pub open spec fn bit_at(x: u64, p: u64) -> u64 {
    (x >> p) & 1
}

/// `x` and `y` agree, under the metric of class `class`, on every bit at
/// position `w` or above.
pub open spec fn agree_from(x: u64, y: u64, w: u64, class: u8) -> bool {
    w >= 64 || ((x ^ y) & (u64::MAX >> (class as u64))) >> w == 0
}

/// Every bucket number is below `NUM_SUBNETS`.
pub proof fn lemma_subnet_bound(id: u64, class: u8)
    requires
        class < 64,
    ensures
        subnet_of(id, class) < 2048,
{
    let c = class as u64;
    assert((id << c) >> 53u64 < 2048) by (bit_vector);
}

/// Combining two bucket numbers with XOR stays a bucket number, commutes, and
/// undoes itself.
pub proof fn lemma_bucket_xor(a: u64, b: u64)
    requires
        a < 2048,
        b < 2048,
    ensures
        a ^ b < 2048,
        a ^ b == b ^ a,
        (a ^ b) ^ a == b,
        (a ^ b) ^ b == a,
{
    assert(a < 2048 && b < 2048 ==> a ^ b < 2048 && a ^ b == b ^ a && (a ^ b) ^ a == b && (a ^ b)
        ^ b == a) by (bit_vector);
}

/// A node whose bucket is XOR-closer to the target's bucket is strictly closer
/// to the target.
pub proof fn lemma_bucket_order(x: u64, y: u64, t: u64, class: u8)
    requires
        class < 64,
        subnet_of(x, class) ^ subnet_of(t, class) < subnet_of(y, class) ^ subnet_of(t, class),
    ensures
        masked_distance(x, t, class) < masked_distance(y, t, class),
{
    let c = class as u64;
    assert(c < 64 && ((x << c) >> 53u64) ^ ((t << c) >> 53u64) < ((y << c) >> 53u64) ^ ((t << c)
        >> 53u64) ==> (x ^ t) & (u64::MAX >> c) < (y ^ t) & (u64::MAX >> c)) by (bit_vector);
}

/// Two keys that agree above bit `p`, where `x` matches the target at bit `p`
/// and `y` does not: `x` is strictly closer.
pub proof fn lemma_bit_order(x: u64, y: u64, t: u64, p: u64, class: u8)
    requires
        p + class <= 63,
        agree_from(x, y, (p + 1) as u64, class),
        bit_at(x, p) == bit_at(t, p),
        bit_at(y, p) != bit_at(t, p),
    ensures
        masked_distance(x, t, class) < masked_distance(y, t, class),
{
    let c = class as u64;
    let q = (p + 1) as u64;
    assert(p + c <= 63 && q == p + 1 && (q >= 64 || ((x ^ y) & (u64::MAX >> c)) >> q == 0) && (x
        >> p) & 1 == (t >> p) & 1 && (y >> p) & 1 != (t >> p) & 1 ==> (x ^ t) & (u64::MAX >> c) < (y
        ^ t) & (u64::MAX >> c)) by (bit_vector);
}

/// Agreement from `w` extends to `w - 1` when the two keys share bit `w - 1`.
pub proof fn lemma_agree_step(x: u64, y: u64, w: u64, class: u8)
    requires
        1 <= w,
        w + class <= 64,
        agree_from(x, y, w, class),
        bit_at(x, (w - 1) as u64) == bit_at(y, (w - 1) as u64),
    ensures
        agree_from(x, y, (w - 1) as u64, class),
{
    let c = class as u64;
    let v = (w - 1) as u64;
    assert(1 <= w && w + c <= 64 && v == w - 1 && (w >= 64 || ((x ^ y) & (u64::MAX >> c)) >> w == 0)
        && (x >> v) & 1 == (y >> v) & 1 ==> ((x ^ y) & (u64::MAX >> c)) >> v == 0) by (bit_vector);
}

/// Agreement is symmetric and transitive.
pub proof fn lemma_agree_trans(x: u64, y: u64, z: u64, w: u64, class: u8)
    requires
        agree_from(x, y, w, class),
        agree_from(y, z, w, class),
    ensures
        agree_from(x, z, w, class),
        agree_from(y, x, w, class),
{
    let c = class as u64;
    assert((w >= 64 || ((x ^ y) & (u64::MAX >> c)) >> w == 0) && (w >= 64 || ((y ^ z) & (u64::MAX
        >> c)) >> w == 0) ==> (w >= 64 || ((x ^ z) & (u64::MAX >> c)) >> w == 0) && (w >= 64 || ((y
        ^ x) & (u64::MAX >> c)) >> w == 0)) by (bit_vector);
}

/// Every two keys agree on the bits that class `class` masks out.
pub proof fn lemma_agree_top(x: u64, y: u64, class: u8)
    requires
        class < 64,
    ensures
        agree_from(x, y, (64 - class) as u64, class),
{
    let c = class as u64;
    let w = (64 - c) as u64;
    assert(c < 64 && w == 64 - c ==> (w >= 64 || ((x ^ y) & (u64::MAX >> c)) >> w == 0)) by (
    bit_vector);
}

/// Keys that agree on every bit are at masked distance zero from each other.
pub proof fn lemma_agree_all(x: u64, y: u64, class: u8)
    requires
        agree_from(x, y, 0, class),
    ensures
        masked_distance(x, y, class) == 0,
{
    let c = class as u64;
    assert(((x ^ y) & (u64::MAX >> c)) >> 0u64 == 0 ==> (x ^ y) & (u64::MAX >> c) == 0) by (
    bit_vector);
}

/// Every key is at masked distance zero from itself, and the metric is symmetric.
pub proof fn lemma_distance_basics(x: u64, y: u64, class: u8)
    ensures
        masked_distance(x, x, class) == 0,
        masked_distance(x, y, class) == masked_distance(y, x, class),
{
    let c = class as u64;
    assert((x ^ x) & (u64::MAX >> c) == 0) by (bit_vector);
    assert((x ^ y) & (u64::MAX >> c) == (y ^ x) & (u64::MAX >> c)) by (bit_vector);
}

/// A bit is 0 or 1.
pub proof fn lemma_bit_values(x: u64, p: u64)
    ensures
        bit_at(x, p) <= 1,
{
    assert((x >> p) & 1 <= 1) by (bit_vector);
}

/// Every key agrees with itself.
pub proof fn lemma_agree_refl(x: u64, w: u64, class: u8)
    ensures
        agree_from(x, x, w, class),
{
    let c = class as u64;
    assert(w >= 64 || ((x ^ x) & (u64::MAX >> c)) >> w == 0) by (bit_vector);
}

/// Under the full XOR metric, distinct keys are at a nonzero distance.
pub proof fn lemma_class_zero_distinct(x: u64, y: u64)
    requires
        x != y,
    ensures
        masked_distance(x, y, 0) != 0,
{
    assert(x != y ==> (x ^ y) & (u64::MAX >> 0u64) != 0) by (bit_vector);
}

} // verus!
