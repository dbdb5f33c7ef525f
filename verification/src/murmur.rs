use vstd::prelude::*;

verus! {

/// The 64-bit multiplicative constant of the Murmur2-family mix.
pub const MAGIC: u64 = 0xc6a4a7935bd1e995;

/// The modular multiplicative inverse of `MAGIC` (mod 2^64):
/// multiplying by `MAGIC` and then by `MAGIC_INVERSE` wraps back to the start.
pub const MAGIC_INVERSE: u64 = 0x5f7a0ea7e59b19bd;

/// The right-shift distance of the xor-shift diffusion steps.
pub const ROLL: u64 = 47;

/// Multiplication on `u64` that wraps modulo 2^64.
pub open spec fn wmul(a: u64, b: u64) -> u64 {
    vstd::wrapping::u64_specs::wrapping_mul(a, b)
}

/// The little-endian 64-bit word assembled from the given eight bytes.
pub open spec fn word_from(
    b0: u8, b1: u8, b2: u8, b3: u8, b4: u8, b5: u8, b6: u8, b7: u8,
) -> u64 {
    (b0 as u64) | ((b1 as u64) << 8) | ((b2 as u64) << 16) | ((b3 as u64) << 24)
        | ((b4 as u64) << 32) | ((b5 as u64) << 40) | ((b6 as u64) << 48) | ((b7 as u64) << 56)
}

/// Byte `i` of `s`, or zero past the end of `s`.
pub open spec fn byte_at(s: Seq<u8>, i: int) -> u8 {
    if 0 <= i < s.len() {
        s[i]
    } else {
        0
    }
}

/// The little-endian packing of up to eight bytes into a word, unused high bytes zero.
pub open spec fn le_word(s: Seq<u8>) -> u64 {
    word_from(
        byte_at(s, 0), byte_at(s, 1), byte_at(s, 2), byte_at(s, 3),
        byte_at(s, 4), byte_at(s, 5), byte_at(s, 6), byte_at(s, 7),
    )
}

/// One 8-byte chunk, diffused before it is folded into the running state.
pub open spec fn spec_mix(k: u64) -> u64 {
    let a = wmul(k, MAGIC);
    wmul(a ^ (a >> ROLL), MAGIC)
}

/// Folds `key` into the running state `h`: full 8-byte chunks first, then the
/// packed 1-7 byte remainder, if any.
pub open spec fn spec_rounds(h: u64, key: Seq<u8>) -> u64
    decreases key.len(),
{
    if key.len() >= 8 {
        spec_rounds(wmul(h ^ spec_mix(le_word(key.take(8))), MAGIC), key.skip(8))
    } else if key.len() > 0 {
        wmul(h ^ le_word(key), MAGIC)
    } else {
        h
    }
}

/// The trailing diffusion applied once all input bytes are folded in.
pub open spec fn spec_finalize(h: u64) -> u64 {
    let a = h ^ (h >> ROLL);
    let b = wmul(a, MAGIC);
    b ^ (b >> ROLL)
}

/// The hash of `key`, seed zero.
pub open spec fn spec_hash(key: Seq<u8>) -> u64 {
    spec_finalize(spec_rounds(wmul(key.len() as u64, MAGIC), key))
}

/// The running state after folding only full 8-byte chunks of `key`, seeded as
/// if the whole input were `total_len` bytes long.
pub open spec fn spec_prehash(key: Seq<u8>, total_len: u64) -> u64 {
    spec_rounds(wmul(total_len, MAGIC), key)
}

/// The two trailing operations of a 15-byte hash: the tail-mix multiply
/// composed with the finalize sequence.
pub open spec fn spec_trailing(t: u64) -> u64 {
    spec_finalize(wmul(t, MAGIC))
}

/// Undoes `spec_trailing`: xor-shift, multiply by the inverse, twice over.
pub open spec fn spec_revhash_trim(h: u64) -> u64 {
    let a = h ^ (h >> ROLL);
    let b = wmul(a, MAGIC_INVERSE);
    let c = b ^ (b >> ROLL);
    wmul(c, MAGIC_INVERSE)
}

/// The canonical hash of a byte sequence, seed zero.
pub fn hash(key: &[u8]) -> (r: u64)
    ensures
        r == spec_hash(key@),
{
    hash_(key)
}

/// Reads the eight bytes of `key` at `i` as a little-endian word.
fn load_chunk(key: &[u8], i: usize) -> (k: u64)
    requires
        i + 8 <= key@.len(),
    ensures
        k == le_word(key@.subrange(i as int, i as int + 8)),
{
    (key[i] as u64)
        | ((key[i + 1] as u64) << 8)
        | ((key[i + 2] as u64) << 16)
        | ((key[i + 3] as u64) << 24)
        | ((key[i + 4] as u64) << 32)
        | ((key[i + 5] as u64) << 40)
        | ((key[i + 6] as u64) << 48)
        | ((key[i + 7] as u64) << 56)
}

/// Packs the trailing 1-7 bytes of `key` at `i` into a word, high bytes zero.
fn load_tail(key: &[u8], i: usize) -> (w: u64)
    requires
        i < key@.len(),
        key@.len() - i < 8,
    ensures
        w == le_word(key@.skip(i as int)),
{
    let len = key.len();
    let t0 = key[i] as u64;
    let t1 = if len - i > 1 { key[i + 1] as u64 } else { 0 };
    let t2 = if len - i > 2 { key[i + 2] as u64 } else { 0 };
    let t3 = if len - i > 3 { key[i + 3] as u64 } else { 0 };
    let t4 = if len - i > 4 { key[i + 4] as u64 } else { 0 };
    let t5 = if len - i > 5 { key[i + 5] as u64 } else { 0 };
    let t6 = if len - i > 6 { key[i + 6] as u64 } else { 0 };
    let w = t0 | (t1 << 8) | (t2 << 16) | (t3 << 24) | (t4 << 32) | (t5 << 40) | (t6 << 48);
    proof {
        let s = key@.skip(i as int);
        let b0 = byte_at(s, 0);
        let b1 = byte_at(s, 1);
        let b2 = byte_at(s, 2);
        let b3 = byte_at(s, 3);
        let b4 = byte_at(s, 4);
        let b5 = byte_at(s, 5);
        let b6 = byte_at(s, 6);
        assert(t0 == b0 as u64 && t1 == b1 as u64 && t2 == b2 as u64 && t3 == b3 as u64
            && t4 == b4 as u64 && t5 == b5 as u64 && t6 == b6 as u64);
        assert(byte_at(s, 7) == 0);
        assert(word_from(b0, b1, b2, b3, b4, b5, b6, 0) == (b0 as u64) | ((b1 as u64) << 8)
            | ((b2 as u64) << 16) | ((b3 as u64) << 24) | ((b4 as u64) << 32)
            | ((b5 as u64) << 40) | ((b6 as u64) << 48)) by (bit_vector);
    }
    w
}

fn hash_(key: &[u8]) -> (r: u64)
    ensures
        r == spec_hash(key@),
{
    let len = key.len();
    let ghost h0: u64 = wmul(len as u64, MAGIC);
    let mut h: u64 = (len as u64).wrapping_mul(MAGIC);
    let mut i: usize = 0;
    proof {
        assert(key@.skip(0) =~= key@);
    }
    while len - i >= 8
        invariant
            i <= len,
            len == key@.len(),
            spec_rounds(h, key@.skip(i as int)) == spec_rounds(h0, key@),
        decreases len - i,
    {
        let k0 = load_chunk(key, i);
        let k1 = k0.wrapping_mul(MAGIC);
        let k2 = k1 ^ (k1 >> ROLL);
        let k3 = k2.wrapping_mul(MAGIC);
        proof {
            assert(key@.skip(i as int).take(8) =~= key@.subrange(i as int, i as int + 8));
            assert(k3 == spec_mix(le_word(key@.skip(i as int).take(8))));
            assert(key@.skip(i as int).skip(8) =~= key@.skip(i as int + 8));
        }
        h = (h ^ k3).wrapping_mul(MAGIC);
        i = i + 8;
    }
    if i < len {
        let w = load_tail(key, i);
        h = (h ^ w).wrapping_mul(MAGIC);
    } else {
        proof {
            assert(key@.skip(i as int).len() == 0);
        }
    }
    h = h ^ (h >> ROLL);
    h = h.wrapping_mul(MAGIC);
    h = h ^ (h >> ROLL);
    h
}

/// The partial forward hash over the full 8-byte chunks of `key`, with the
/// seed taken from the declared total length instead of `key`'s own length.
pub fn prehash(key: &[u8], len: usize) -> (r: u64)
    requires
        key@.len() % 8 == 0,
        key@.len() <= len,
    ensures
        r == spec_prehash(key@, len as u64),
{
    prehash_(key, len)
}

#[verifier::rlimit(100)]
fn prehash_(key: &[u8], total_len: usize) -> (r: u64)
    requires
        key@.len() % 8 == 0,
        key@.len() <= total_len,
    ensures
        r == spec_prehash(key@, total_len as u64),
{
    let len = key.len();
    let ghost h0: u64 = wmul(total_len as u64, MAGIC);
    let mut h: u64 = (total_len as u64).wrapping_mul(MAGIC);
    let mut i: usize = 0;
    proof {
        assert(key@.skip(0) =~= key@);
    }
    while len - i >= 8
        invariant
            i <= len,
            i % 8 == 0,
            len % 8 == 0,
            len == key@.len(),
            spec_rounds(h, key@.skip(i as int)) == spec_rounds(h0, key@),
        decreases len - i,
    {
        let k0 = load_chunk(key, i);
        let k1 = k0.wrapping_mul(MAGIC);
        let k2 = k1 ^ (k1 >> ROLL);
        let k3 = k2.wrapping_mul(MAGIC);
        proof {
            assert(key@.skip(i as int).take(8) =~= key@.subrange(i as int, i as int + 8));
            assert(k3 == spec_mix(le_word(key@.skip(i as int).take(8))));
            assert(key@.skip(i as int).skip(8) =~= key@.skip(i as int + 8));
        }
        h = (h ^ k3).wrapping_mul(MAGIC);
        i = i + 8;
    }
    proof {
        assert(i == len);
        assert(key@.skip(i as int).len() == 0);
    }
    h
}

/// The xor-shift step diffusing the high bits into the low ones is an
/// involution when the shift distance is at least half the word width.
pub proof fn lemma_xorshift_involution(x: u64)
    ensures
        (x ^ (x >> ROLL)) ^ ((x ^ (x >> ROLL)) >> ROLL) == x,
{
    assert((x ^ (x >> 47)) ^ ((x ^ (x >> 47)) >> 47) == x) by (bit_vector);
}

/// Multiplying by `MAGIC` and then by `MAGIC_INVERSE` (or the other way
/// round) wraps back to the starting value.
pub proof fn lemma_wmul_inverse(x: u64)
    ensures
        wmul(wmul(x, MAGIC), MAGIC_INVERSE) == x,
        wmul(wmul(x, MAGIC_INVERSE), MAGIC) == x,
{
    let r = 0x1_0000_0000_0000_0000int;
    assert(wmul(x, MAGIC) == ((x * 0xc6a4a7935bd1e995) % 0x1_0000_0000_0000_0000) as u64);
    assert(wmul(x, MAGIC_INVERSE) == ((x * 0x5f7a0ea7e59b19bd) % 0x1_0000_0000_0000_0000) as u64);
    let y = wmul(x, MAGIC);
    let z = wmul(x, MAGIC_INVERSE);
    assert(wmul(y, MAGIC_INVERSE) == ((y * 0x5f7a0ea7e59b19bd) % 0x1_0000_0000_0000_0000) as u64);
    assert(wmul(z, MAGIC) == ((z * 0xc6a4a7935bd1e995) % 0x1_0000_0000_0000_0000) as u64);
    assert((((((x * 0xc6a4a7935bd1e995) % 0x1_0000_0000_0000_0000) as u64)
        * 0x5f7a0ea7e59b19bd) % 0x1_0000_0000_0000_0000) as u64 == x) by (bit_vector);
    assert((((((x * 0x5f7a0ea7e59b19bd) % 0x1_0000_0000_0000_0000) as u64)
        * 0xc6a4a7935bd1e995) % 0x1_0000_0000_0000_0000) as u64 == x) by (bit_vector);
}

/// Plain facts about exclusive or, used to move terms across equations.
pub proof fn lemma_xor_basics(a: u64, b: u64)
    ensures
        a ^ (a ^ b) == b,
        (a ^ b) ^ b == a,
        (a ^ b) ^ a == b,
        a ^ b == b ^ a,
{
    assert(a ^ (a ^ b) == b && (a ^ b) ^ b == a && (a ^ b) ^ a == b && a ^ b == (b ^ a))
        by (bit_vector);
}

/// `spec_revhash_trim` undoes the two trailing operations of a hash.
pub proof fn lemma_trim_inverts_trailing(t: u64)
    ensures
        spec_revhash_trim(spec_trailing(t)) == t,
{
    let u = wmul(t, MAGIC);
    let a = u ^ (u >> ROLL);
    let b = wmul(a, MAGIC);
    lemma_xorshift_involution(b);
    lemma_wmul_inverse(a);
    lemma_xorshift_involution(u);
    lemma_wmul_inverse(t);
}

/// The two trailing operations undo `spec_revhash_trim`.
pub proof fn lemma_trailing_inverts_trim(h: u64)
    ensures
        spec_trailing(spec_revhash_trim(h)) == h,
{
    let a = h ^ (h >> ROLL);
    let b = wmul(a, MAGIC_INVERSE);
    let c = b ^ (b >> ROLL);
    lemma_wmul_inverse(c);
    lemma_xorshift_involution(b);
    lemma_wmul_inverse(a);
    lemma_xorshift_involution(h);
}

/// A 15-byte hash, written as the trailing operations applied to the partial
/// state of its 8-byte prefix xor the packed word of its 7-byte tail.
pub proof fn lemma_hash_split(p: Seq<u8>, t: Seq<u8>)
    requires
        p.len() == 8,
        t.len() == 7,
    ensures
        spec_hash(p + t) == spec_trailing(spec_prehash(p, 15) ^ le_word(t)),
{
    let k = p + t;
    let h0 = wmul(15, MAGIC);
    assert(k.take(8) =~= p);
    assert(k.skip(8) =~= t);
    let h1 = wmul(h0 ^ spec_mix(le_word(p)), MAGIC);
    assert(spec_rounds(h0, k) == spec_rounds(h1, t));
    assert(spec_rounds(h1, t) == wmul(h1 ^ le_word(t), MAGIC));
    assert(p.skip(8) =~= Seq::<u8>::empty());
    assert(spec_rounds(h0, p) == spec_rounds(h1, p.skip(8)));
    assert(spec_rounds(h1, p.skip(8)) == h1);
    assert(spec_prehash(p, 15) == h1);
}

/// Invertibility: partially unmixing the hash of any 15-byte input and then
/// xoring away the prefix's partial state reproduces the packed 7-byte tail
/// word, whose eighth byte is zero.
pub proof fn lemma_invert_trailing_mix(p: Seq<u8>, t: Seq<u8>)
    requires
        p.len() == 8,
        t.len() == 7,
    ensures
        spec_revhash_trim(spec_hash(p + t)) ^ spec_prehash(p, 15) == le_word(t),
        spec_revhash_trim(spec_hash(p + t)) == spec_prehash(p, 15) ^ le_word(t),
        byte_at(t, 7) == 0,
{
    lemma_hash_split(p, t);
    lemma_trim_inverts_trailing(spec_prehash(p, 15) ^ le_word(t));
    lemma_xor_basics(spec_prehash(p, 15), le_word(t));
}

/// A tail whose packed word equals the partial prefix state xor the partially
/// unmixed target really completes the prefix to a preimage of the target.
pub proof fn lemma_candidate_sound(p: Seq<u8>, t: Seq<u8>, h: u64)
    requires
        p.len() == 8,
        t.len() == 7,
        le_word(t) == spec_prehash(p, 15) ^ spec_revhash_trim(h),
    ensures
        spec_hash(p + t) == h,
{
    lemma_hash_split(p, t);
    lemma_xor_basics(spec_prehash(p, 15), spec_revhash_trim(h));
    assert(spec_prehash(p, 15) ^ le_word(t) == spec_revhash_trim(h));
    lemma_trailing_inverts_trim(h);
}

/// For a fixed prefix and target hash, only one tail word can complete the
/// prefix to a preimage of the target.
pub proof fn lemma_candidate_unique(p: Seq<u8>, t: Seq<u8>, h: u64)
    requires
        p.len() == 8,
        t.len() == 7,
        spec_hash(p + t) == h,
    ensures
        le_word(t) == spec_prehash(p, 15) ^ spec_revhash_trim(h),
{
    lemma_invert_trailing_mix(p, t);
    lemma_xor_basics(spec_revhash_trim(h), spec_prehash(p, 15));
}

/// Every word is the little-endian packing of its eight bytes.
pub proof fn lemma_word_bytes(w: u64)
    ensures
        w == word_from(
            (w & 0xff) as u8, ((w >> 8) & 0xff) as u8, ((w >> 16) & 0xff) as u8,
            ((w >> 24) & 0xff) as u8, ((w >> 32) & 0xff) as u8, ((w >> 40) & 0xff) as u8,
            ((w >> 48) & 0xff) as u8, ((w >> 56) & 0xff) as u8,
        ),
{
    assert(w == word_from(
        (w & 0xff) as u8, ((w >> 8) & 0xff) as u8, ((w >> 16) & 0xff) as u8,
        ((w >> 24) & 0xff) as u8, ((w >> 32) & 0xff) as u8, ((w >> 40) & 0xff) as u8,
        ((w >> 48) & 0xff) as u8, ((w >> 56) & 0xff) as u8,
    )) by (bit_vector);
}

/// Words built from the same bytes in the same places are equal bytewise.
pub proof fn lemma_word_from_injective(
    a0: u8, a1: u8, a2: u8, a3: u8, a4: u8, a5: u8, a6: u8, a7: u8,
    b0: u8, b1: u8, b2: u8, b3: u8, b4: u8, b5: u8, b6: u8, b7: u8,
)
    requires
        word_from(a0, a1, a2, a3, a4, a5, a6, a7) == word_from(b0, b1, b2, b3, b4, b5, b6, b7),
    ensures
        a0 == b0 && a1 == b1 && a2 == b2 && a3 == b3 && a4 == b4 && a5 == b5 && a6 == b6 && a7
            == b7,
{
    assert(word_from(a0, a1, a2, a3, a4, a5, a6, a7) == word_from(b0, b1, b2, b3, b4, b5, b6, b7)
        ==> a0 == b0 && a1 == b1 && a2 == b2 && a3 == b3 && a4 == b4 && a5 == b5 && a6 == b6
        && a7 == b7) by (bit_vector);
}

/// Partially undoes the trailing mixing steps of a hash of a 15-byte input:
/// the result is the pre-finalize state xor the packed 7-byte tail word.
pub fn revhash_trim(hash: u64) -> (r: u64)
    ensures
        r == spec_revhash_trim(hash),
{
    let mut h = hash;
    h = h ^ (h >> ROLL);
    h = h.wrapping_mul(MAGIC_INVERSE);
    h = h ^ (h >> ROLL);
    h = h.wrapping_mul(MAGIC_INVERSE);
    h
}

} // verus!
