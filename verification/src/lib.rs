use vstd::prelude::*;

pub mod alphabet;
pub mod murmur;

use crate::alphabet::{
    all_alpha, in_alpha, valid_key, valid_prefix, rank, pow94, AsciiIter, first_prefix,
    next_prefix, lemma_rank_bounds, lemma_rank_injective, lemma_pow94_pos,
};
use crate::murmur::{
    byte_at, le_word, spec_hash, spec_prehash, spec_revhash_trim, word_from,
    lemma_candidate_sound, lemma_candidate_unique, lemma_invert_trailing_mix, lemma_word_bytes,
    lemma_word_from_injective,
};

verus! {

broadcast use vstd::string::group_string_axioms;

/// The bits of a packed tail word that a valid key always leaves clear: the
/// high bit of each of the seven suffix bytes, and all eight bits of the
/// eighth byte, which a 7-byte tail leaves zero.
pub const ASCII_HASH_MASK: u64 =
    0b1111111110000000100000001000000010000000100000001000000010000000;

/// No 15-byte key over the alphabet hashes to `h`.
pub open spec fn no_ascii_preimage(h: u64) -> bool {
    forall|k: Seq<u8>| valid_key(k) ==> #[trigger] spec_hash(k) != h
}

/// Among the valid preimages of `h`, the key `k` carries the prefix that the
/// ascending enumeration meets first.
pub open spec fn first_found(h: u64, k: Seq<u8>) -> bool {
    forall|k2: Seq<u8>|
        valid_key(k2) && spec_hash(k2) == h ==> rank(k.take(8)) <= rank(#[trigger] k2.take(8))
}

/// The packed word of seven bytes with clear high bits never meets the mask.
proof fn lemma_tail_mask_clear(t: Seq<u8>)
    requires
        t.len() == 7,
        forall|i: int| 0 <= i < 7 ==> #[trigger] t[i] < 128,
    ensures
        le_word(t) & ASCII_HASH_MASK == 0,
{
    let b0 = byte_at(t, 0);
    let b1 = byte_at(t, 1);
    let b2 = byte_at(t, 2);
    let b3 = byte_at(t, 3);
    let b4 = byte_at(t, 4);
    let b5 = byte_at(t, 5);
    let b6 = byte_at(t, 6);
    assert(byte_at(t, 7) == 0);
    assert(word_from(b0, b1, b2, b3, b4, b5, b6, 0) & ASCII_HASH_MASK == 0) by (bit_vector)
        requires
            b0 < 128,
            b1 < 128,
            b2 < 128,
            b3 < 128,
            b4 < 128,
            b5 < 128,
            b6 < 128,
    ;
}

/// Xor with a word clear under the mask keeps the masked signature.
proof fn lemma_mask_xor(a: u64, w: u64)
    requires
        w & ASCII_HASH_MASK == 0,
    ensures
        (a ^ w) & ASCII_HASH_MASK == a & ASCII_HASH_MASK,
{
    assert((a ^ w) & ASCII_HASH_MASK == a & ASCII_HASH_MASK) by (bit_vector)
        requires
            w & ASCII_HASH_MASK == 0,
    ;
}

/// Masking soundness: for every valid 15-byte key, the masked signature of
/// the prefix's partial state equals the masked signature of the trimmed
/// value derived from the key's own hash, so the bucket filter never prunes
/// a completable prefix.
pub proof fn lemma_masking_sound(k: Seq<u8>)
    requires
        valid_key(k),
    ensures
        spec_prehash(k.take(8), 15) & ASCII_HASH_MASK == spec_revhash_trim(spec_hash(k))
            & ASCII_HASH_MASK,
{
    let p = k.take(8);
    let t = k.skip(8);
    assert(p + t =~= k);
    assert(valid_prefix(p));
    lemma_invert_trailing_mix(p, t);
    assert forall|i: int| 0 <= i < 7 implies #[trigger] t[i] < 128 by {
        assert(in_alpha(k[i + 8]));
    }
    lemma_tail_mask_clear(t);
    lemma_mask_xor(spec_prehash(p, 15), le_word(t));
}

/// A recovered key: an 8-byte prefix followed by a 7-byte suffix, all bytes
/// drawn from the alphabet.
pub struct Key(Vec<u8>);

impl View for Key {
    type V = Seq<u8>;

    closed spec fn view(&self) -> Seq<u8> {
        self.0@
    }
}

/// Appends the bytes of `src` to `dst`.
fn append_bytes(dst: &mut Vec<u8>, src: &[u8])
    ensures
        final(dst)@ == old(dst)@ + src@,
{
    let mut i: usize = 0;
    while i < src.len()
        invariant
            i <= src@.len(),
            dst@ == old(dst)@ + src@.take(i as int),
        decreases src@.len() - i,
    {
        dst.push(src[i]);
        proof {
            assert(old(dst)@ + src@.take(i as int) + seq![src@[i as int]] =~= old(dst)@
                + src@.take(i as int + 1));
        }
        i = i + 1;
    }
    proof {
        assert(src@.take(src@.len() as int) =~= src@);
    }
}

impl Key {
    /// Concatenates a prefix and a suffix into one key.
    fn new(prefix: &[u8], suffix: &[u8]) -> (k: Key)
        requires
            prefix@.len() == 8,
            suffix@.len() == 7,
        ensures
            k@ == prefix@ + suffix@,
    {
        let mut bytes: Vec<u8> = Vec::new();
        append_bytes(&mut bytes, prefix);
        append_bytes(&mut bytes, suffix);
        proof {
            assert(Seq::<u8>::empty() + prefix@ + suffix@ =~= prefix@ + suffix@);
        }
        Key(bytes)
    }

    /// The key's length in bytes.
    pub fn len(&self) -> (n: usize)
        ensures
            n == self@.len(),
    {
        self.0.len()
    }

    /// The key as a string slice; sound for the ASCII bytes a key holds.
    pub fn as_str(&self) -> (r: &str)
        requires
            forall|i: int| 0 <= i < self@.len() ==> 32 <= #[trigger] self@[i] < 127,
        ensures
            r@.len() == self@.len(),
            forall|i: int| 0 <= i < self@.len() ==> r@[i] as u32 == #[trigger] self@[i] as u32,
    {
        proof {
            assert(self.0@ == self@);
        }
        ascii_str(self.0.as_slice())
    }

    /// The key as a byte slice.
    pub fn as_bytes(&self) -> (r: &[u8])
        ensures
            r@ == self@,
    {
        self.0.as_slice()
    }
}

/// Relies on std::str::from_utf8: bytes in the printable ASCII range are
/// valid UTF-8, and read back as one char per byte with the same code points.
#[verifier::external_body]
fn ascii_str(bytes: &[u8]) -> (r: &str)
    requires
        forall|i: int| 0 <= i < bytes@.len() ==> 32 <= #[trigger] bytes@[i] < 127,
    ensures
        r@.len() == bytes@.len(),
        forall|i: int| 0 <= i < bytes@.len() ==> r@[i] as u32 == #[trigger] bytes@[i] as u32,
{
    std::str::from_utf8(bytes).unwrap()
}

/// Linear scan of `v` for `x`.
fn contains_u64(v: &Vec<u64>, x: u64) -> (r: bool)
    ensures
        r == v@.contains(x),
{
    let mut i: usize = 0;
    while i < v.len()
        invariant
            i <= v@.len(),
            forall|k: int| 0 <= k < i ==> v@[k] != x,
        decreases v@.len() - i,
    {
        if v[i] == x {
            proof {
                assert(v@[i as int] == x);
            }
            return true;
        }
        i = i + 1;
    }
    false
}

/// The index of unresolved targets. Each entry pairs an inserted hash with
/// its trimmed value; the signature bucketing an entry is its trimmed value
/// under `ASCII_HASH_MASK`. A record of every hash ever inserted makes
/// re-insertion a no-op.
pub struct HashSlot {
    entries: Vec<(u64, u64)>,
    seen: Vec<u64>,
}

impl HashSlot {
    /// The unresolved (hash, trim) entries, in insertion order.
    pub closed spec fn pending(self) -> Seq<(u64, u64)> {
        self.entries@
    }

    /// The hashes of the unresolved entries, in insertion order.
    pub open spec fn pending_hashes(self) -> Seq<u64> {
        self.pending().map_values(|e: (u64, u64)| e.0)
    }

    /// Every hash ever inserted.
    pub closed spec fn inserted(self) -> Set<u64> {
        self.seen@.to_set()
    }

    /// Each entry carries the trimmed value of its own recorded hash, and no
    /// hash is indexed twice.
    pub open spec fn wf(self) -> bool {
        &&& forall|i: int|
            0 <= i < self.pending().len() ==> (#[trigger] self.pending()[i]).1
                == spec_revhash_trim(self.pending()[i].0)
        &&& forall|i: int, j: int|
            0 <= i < j < self.pending().len() ==> (#[trigger] self.pending()[i]).0 != (
            #[trigger] self.pending()[j]).0
        &&& forall|i: int|
            0 <= i < self.pending().len() ==> self.inserted().contains(
                (#[trigger] self.pending()[i]).0,
            )
    }

    /// A fresh, empty index.
    pub fn new() -> (s: HashSlot)
        ensures
            s.wf(),
            s.pending() == Seq::<(u64, u64)>::empty(),
            s.inserted() == Set::<u64>::empty(),
    {
        let s = HashSlot { entries: Vec::new(), seen: Vec::new() };
        proof {
            assert(s.entries@ =~= Seq::<(u64, u64)>::empty());
            assert(s.seen@.to_set() =~= Set::<u64>::empty());
        }
        s
    }

    /// The count of unresolved targets.
    pub fn len(&self) -> (n: usize)
        ensures
            n == self.pending().len(),
    {
        self.entries.len()
    }

    /// Indexes a target hash: a hash seen before is refused, a new one is
    /// recorded beside its trimmed value. The count of unresolved targets
    /// grows only on the first insertion of a hash.
    pub fn insert(&mut self, hash: u64) -> (fresh: bool)
        requires
            old(self).wf(),
        ensures
            final(self).wf(),
            fresh == !old(self).inserted().contains(hash),
            final(self).inserted() == old(self).inserted().insert(hash),
            fresh ==> final(self).pending() == old(self).pending().push(
                (hash, spec_revhash_trim(hash)),
            ),
            !fresh ==> final(self).pending() == old(self).pending(),
            !fresh ==> final(self).inserted() == old(self).inserted(),
    {
        if contains_u64(&self.seen, hash) {
            proof {
                assert(old(self).inserted().contains(hash));
                assert(old(self).inserted().insert(hash) =~= old(self).inserted());
            }
            return false;
        }
        self.seen.push(hash);
        let trim = crate::murmur::revhash_trim(hash);
        self.entries.push((hash, trim));
        proof {
            let o = old(self);
            assert(self.seen@ =~= o.seen@.push(hash));
            assert forall|x: u64| self.seen@.to_set().contains(x) <==> o.seen@.to_set().insert(
                hash,
            ).contains(x) by {
                if self.seen@.contains(x) {
                    let w = choose|w: int| 0 <= w < self.seen@.len() && self.seen@[w] == x;
                    if w < o.seen@.len() {
                        assert(o.seen@[w] == x);
                    }
                }
                if o.seen@.contains(x) {
                    let w = choose|w: int| 0 <= w < o.seen@.len() && o.seen@[w] == x;
                    assert(self.seen@[w] == x);
                }
                if x == hash {
                    assert(self.seen@[o.seen@.len() as int] == x);
                }
            }
            assert(self.seen@.to_set() =~= o.seen@.to_set().insert(hash));
            assert(self.pending() =~= o.pending().push((hash, spec_revhash_trim(hash))));
            assert forall|i: int, j: int|
                0 <= i < j < self.pending().len() implies (#[trigger] self.pending()[i]).0 != (
            #[trigger] self.pending()[j]).0 by {
                if j == self.pending().len() - 1 {
                    assert(o.inserted().contains(o.pending()[i].0));
                }
            }
        }
        true
    }
}

/// The hashes of a result sequence, in emission order.
pub open spec fn result_hashes(rs: Seq<(u64, Key)>) -> Seq<u64> {
    rs.map_values(|r: (u64, Key)| r.0)
}

/// Each result pairs a target of the index with a valid key that hashes to
/// it, carrying the first prefix the enumeration can complete; no target is
/// answered twice.
pub open spec fn sound_results(init: HashSlot, rs: Seq<(u64, Key)>) -> bool {
    &&& forall|i: int| 0 <= i < rs.len() ==> valid_key((#[trigger] rs[i]).1@)
    &&& forall|i: int| 0 <= i < rs.len() ==> spec_hash((#[trigger] rs[i]).1@) == rs[i].0
    &&& forall|i: int|
        0 <= i < rs.len() ==> init.pending_hashes().contains((#[trigger] rs[i]).0)
    &&& forall|i: int| 0 <= i < rs.len() ==> first_found((#[trigger] rs[i]).0, rs[i].1@)
    &&& forall|i: int, j: int|
        0 <= i < j < rs.len() ==> (#[trigger] rs[i]).0 != (#[trigger] rs[j]).0
}

/// The target of entry `e` has no valid preimage with prefix `p`.
spec fn settled_at(e: (u64, u64), p: Seq<u8>) -> bool {
    forall|t: Seq<u8>| t.len() == 7 && all_alpha(t) ==> #[trigger] spec_hash(p + t) != e.0
}

/// Every valid preimage of entry `e`'s target has a prefix of rank at least
/// `r`: the enumeration up to `r` has found nothing for `e`.
spec fn unseen_below(e: (u64, u64), r: int) -> bool {
    forall|k: Seq<u8>| valid_key(k) && spec_hash(k) == e.0 ==> rank(#[trigger] k.take(8)) >= r
}

/// Results and still-pending entries partition the targets of the index.
spec fn partitioned(init: HashSlot, slot: HashSlot, rs: Seq<(u64, Key)>) -> bool {
    &&& forall|i: int|
        0 <= i < slot.pending().len() ==> !result_hashes(rs).contains(
            (#[trigger] slot.pending()[i]).0,
        )
    &&& forall|i: int|
        0 <= i < slot.pending().len() ==> init.pending_hashes().contains(
            (#[trigger] slot.pending()[i]).0,
        )
    &&& forall|j: int|
        0 <= j < init.pending_hashes().len() ==> result_hashes(rs).contains(
            #[trigger] init.pending_hashes()[j],
        ) || slot.pending_hashes().contains(init.pending_hashes()[j])
}

/// Distinct values covered by distinct values are no more numerous; mutual
/// coverage makes the counts equal.
proof fn lemma_count(a: Seq<u64>, b: Seq<u64>)
    requires
        a.no_duplicates(),
        b.no_duplicates(),
        forall|i: int| 0 <= i < a.len() ==> b.contains(#[trigger] a[i]),
    ensures
        a.len() <= b.len(),
        (forall|j: int| 0 <= j < b.len() ==> a.contains(#[trigger] b[j])) ==> a.len() == b.len(),
{
    broadcast use vstd::seq_lib::seq_to_set_is_finite;

    a.unique_seq_to_set();
    b.unique_seq_to_set();
    assert(a.to_set().subset_of(b.to_set()));
    vstd::set_lib::lemma_len_subset(a.to_set(), b.to_set());
    if forall|j: int| 0 <= j < b.len() ==> a.contains(#[trigger] b[j]) {
        assert(a.to_set() =~= b.to_set());
    }
}
/// The prefix and tail of a valid key are themselves over the alphabet.
proof fn lemma_key_parts(k: Seq<u8>)
    requires
        valid_key(k),
    ensures
        valid_prefix(k.take(8)),
        k.skip(8).len() == 7,
        all_alpha(k.skip(8)),
        k == k.take(8) + k.skip(8),
{
    assert forall|i: int| 0 <= i < 8 implies in_alpha(#[trigger] k.take(8)[i]) by {
        assert(k.take(8)[i] == k[i]);
    }
    assert forall|i: int| 0 <= i < 7 implies in_alpha(#[trigger] k.skip(8)[i]) by {
        assert(k.skip(8)[i] == k[i + 8]);
    }
    assert(k =~= k.take(8) + k.skip(8));
}

/// A prefix and a 7-byte tail over the alphabet make a valid key.
proof fn lemma_parts_key(p: Seq<u8>, t: Seq<u8>)
    requires
        valid_prefix(p),
        t.len() == 7,
        all_alpha(t),
    ensures
        valid_key(p + t),
        (p + t).take(8) == p,
        (p + t).skip(8) == t,
{
    let k = p + t;
    assert(k.take(8) =~= p);
    assert(k.skip(8) =~= t);
    assert forall|i: int| 0 <= i < 15 implies in_alpha(#[trigger] k[i]) by {
        if i < 8 {
            assert(k[i] == p[i]);
        } else {
            assert(k[i] == t[i - 8]);
        }
    }
}

/// A prefix whose masked partial state misses an entry's bucket signature
/// cannot complete to a preimage of that entry's target.
proof fn lemma_settled_by_mask(p: Seq<u8>, e: (u64, u64), ph: u64)
    requires
        valid_prefix(p),
        e.1 == spec_revhash_trim(e.0),
        ph == spec_prehash(p, 15),
        e.1 & ASCII_HASH_MASK != ph & ASCII_HASH_MASK,
    ensures
        settled_at(e, p),
{
    assert forall|t: Seq<u8>| t.len() == 7 && all_alpha(t) implies #[trigger] spec_hash(p + t)
        != e.0 by {
        if spec_hash(p + t) == e.0 {
            lemma_parts_key(p, t);
            lemma_masking_sound(p + t);
            assert(false);
        }
    }
}

/// A candidate suffix with a byte outside the alphabet rules this prefix out
/// for its entry: no other suffix can complete the prefix either.
proof fn lemma_settled_by_suffix(
    p: Seq<u8>,
    e: (u64, u64),
    ph: u64,
    w: u64,
    c0: u8,
    c1: u8,
    c2: u8,
    c3: u8,
    c4: u8,
    c5: u8,
    c6: u8,
)
    requires
        valid_prefix(p),
        e.1 == spec_revhash_trim(e.0),
        ph == spec_prehash(p, 15),
        w == ph ^ e.1,
        w == word_from(c0, c1, c2, c3, c4, c5, c6, 0),
        !(in_alpha(c0) && in_alpha(c1) && in_alpha(c2) && in_alpha(c3) && in_alpha(c4) && in_alpha(
            c5,
        ) && in_alpha(c6)),
    ensures
        settled_at(e, p),
{
    assert forall|t2: Seq<u8>| t2.len() == 7 && all_alpha(t2) implies #[trigger] spec_hash(p + t2)
        != e.0 by {
        if spec_hash(p + t2) == e.0 {
            lemma_candidate_unique(p, t2, e.0);
            assert(le_word(t2) == w);
            lemma_word_from_injective(
                byte_at(t2, 0),
                byte_at(t2, 1),
                byte_at(t2, 2),
                byte_at(t2, 3),
                byte_at(t2, 4),
                byte_at(t2, 5),
                byte_at(t2, 6),
                byte_at(t2, 7),
                c0,
                c1,
                c2,
                c3,
                c4,
                c5,
                c6,
                0,
            );
            assert(t2[0] == c0 && t2[1] == c1 && t2[2] == c2 && t2[3] == c3 && t2[4] == c4 && t2[5]
                == c5 && t2[6] == c6);
            assert(in_alpha(t2[0]) && in_alpha(t2[1]) && in_alpha(t2[2]) && in_alpha(t2[3])
                && in_alpha(t2[4]) && in_alpha(t2[5]) && in_alpha(t2[6]));
            assert(false);
        }
    }
}

/// An entry settled at the current prefix keeps all its preimages beyond it.
proof fn lemma_frontier_step(e: (u64, u64), p: Seq<u8>)
    requires
        valid_prefix(p),
        settled_at(e, p),
        unseen_below(e, rank(p)),
    ensures
        unseen_below(e, rank(p) + 1),
{
    assert forall|k: Seq<u8>| valid_key(k) && spec_hash(k) == e.0 implies rank(
        #[trigger] k.take(8),
    ) >= rank(p) + 1 by {
        assert(rank(k.take(8)) >= rank(p));
        if rank(k.take(8)) == rank(p) {
            lemma_key_parts(k);
            lemma_rank_injective(k.take(8), p);
            assert(spec_hash(p + k.skip(8)) == e.0);
            assert(false);
        }
    }
}

/// An entry whose preimages would all lie beyond the last rank has none.
proof fn lemma_no_preimage(e: (u64, u64))
    requires
        unseen_below(e, pow94(8) as int),
    ensures
        no_ascii_preimage(e.0),
{
    assert forall|k: Seq<u8>| valid_key(k) implies #[trigger] spec_hash(k) != e.0 by {
        if spec_hash(k) == e.0 {
            assert(rank(k.take(8)) >= pow94(8));
            lemma_key_parts(k);
            lemma_rank_bounds(k.take(8));
            assert(false);
        }
    }
}

/// After emitting entry `j` of the pending list as a result, the search
/// invariants hold of the shrunken index and the grown result list.
proof fn lemma_after_emit(
    init: HashSlot,
    slot0: HashSlot,
    slot1: HashSlot,
    res0: Seq<(u64, Key)>,
    key: Key,
    j: int,
    p: Seq<u8>,
)
    requires
        init.wf(),
        slot0.wf(),
        0 <= j < slot0.pending().len(),
        slot1.pending() == slot0.pending().remove(j),
        slot1.inserted() == slot0.inserted(),
        sound_results(init, res0),
        partitioned(init, slot0, res0),
        forall|i: int|
            0 <= i < slot0.pending().len() ==> unseen_below(
                #[trigger] slot0.pending()[i],
                rank(p),
            ),
        forall|i: int| 0 <= i < j ==> settled_at(#[trigger] slot0.pending()[i], p),
        valid_prefix(p),
        valid_key(key@),
        key@.take(8) == p,
        spec_hash(key@) == slot0.pending()[j].0,
    ensures
        slot1.wf(),
        sound_results(init, res0.push((slot0.pending()[j].0, key))),
        partitioned(init, slot1, res0.push((slot0.pending()[j].0, key))),
        forall|i: int|
            0 <= i < slot1.pending().len() ==> unseen_below(
                #[trigger] slot1.pending()[i],
                rank(p),
            ),
        forall|i: int| 0 <= i < j ==> settled_at(#[trigger] slot1.pending()[i], p),
{
    let h = slot0.pending()[j].0;
    let pend0 = slot0.pending();
    let pend1 = slot1.pending();
    let res1 = res0.push((h, key));
    assert forall|i: int| 0 <= i < pend1.len() implies #[trigger] pend1[i] == (if i < j {
        pend0[i]
    } else {
        pend0[i + 1]
    }) by {}
    assert(result_hashes(res1) =~= result_hashes(res0).push(h));
    assert(init.pending_hashes().contains(h));
    assert(!result_hashes(res0).contains(h));
    assert(first_found(h, key@)) by {
        assert(unseen_below(pend0[j], rank(p)));
        assert forall|k2: Seq<u8>| valid_key(k2) && spec_hash(k2) == h implies rank(key@.take(8))
            <= rank(#[trigger] k2.take(8)) by {
            assert(rank(k2.take(8)) >= rank(p));
        }
    }
    assert forall|i: int, i2: int| 0 <= i < i2 < res1.len() implies (#[trigger] res1[i]).0 != (
    #[trigger] res1[i2]).0 by {
        if i2 == res1.len() - 1 {
            if res1[i].0 == h {
                assert(result_hashes(res0)[i] == h);
            }
        }
    }
    assert(sound_results(init, res1));
    assert forall|i: int, i2: int| 0 <= i < i2 < pend1.len() implies (#[trigger] pend1[i]).0 != (
    #[trigger] pend1[i2]).0 by {
        let a: int = if i < j {
            i
        } else {
            i + 1
        };
        let b: int = if i2 < j {
            i2
        } else {
            i2 + 1
        };
        assert(pend0[a].0 != pend0[b].0);
    }
    assert forall|i: int| 0 <= i < pend1.len() implies (#[trigger] pend1[i]).1
        == spec_revhash_trim(pend1[i].0) && slot1.inserted().contains(pend1[i].0) by {
        let a: int = if i < j {
            i
        } else {
            i + 1
        };
        assert(pend1[i] == pend0[a]);
        assert(pend0[a].1 == spec_revhash_trim(pend0[a].0));
        assert(slot0.inserted().contains(pend0[a].0));
    }
    assert(slot1.wf());
    assert forall|i: int| 0 <= i < pend1.len() implies !result_hashes(res1).contains(
        (#[trigger] pend1[i]).0,
    ) && init.pending_hashes().contains(pend1[i].0) by {
        let a: int = if i < j {
            i
        } else {
            i + 1
        };
        assert(pend1[i] == pend0[a]);
        assert(!result_hashes(res0).contains(pend0[a].0));
        assert(pend0[a].0 != pend0[j].0);
        if result_hashes(res1).contains(pend0[a].0) {
            let wi = choose|wi: int|
                0 <= wi < result_hashes(res1).len() && result_hashes(res1)[wi] == pend0[a].0;
            if wi < res0.len() {
                assert(result_hashes(res0)[wi] == pend0[a].0);
            }
        }
        assert(init.pending_hashes().contains(pend0[a].0));
    }
    assert forall|jj: int| 0 <= jj < init.pending_hashes().len() implies result_hashes(
        res1,
    ).contains(#[trigger] init.pending_hashes()[jj]) || slot1.pending_hashes().contains(
        init.pending_hashes()[jj],
    ) by {
        let x = init.pending_hashes()[jj];
        if result_hashes(res0).contains(x) {
            let wi = choose|wi: int|
                0 <= wi < result_hashes(res0).len() && result_hashes(res0)[wi] == x;
            assert(result_hashes(res1)[wi] == x);
        } else {
            let ph0 = slot0.pending_hashes();
            assert(ph0.contains(x));
            let wi = choose|wi: int| 0 <= wi < ph0.len() && ph0[wi] == x;
            assert(pend0[wi].0 == x);
            if wi == j {
                assert(result_hashes(res1)[res0.len() as int] == h);
            } else if wi < j {
                assert(pend1[wi] == pend0[wi]);
                assert(slot1.pending_hashes()[wi] == x);
            } else {
                assert(pend1[wi - 1] == pend0[wi]);
                assert(slot1.pending_hashes()[wi - 1] == x);
            }
        }
    }
    assert forall|i: int| 0 <= i < j implies settled_at(#[trigger] pend1[i], p) by {
        assert(pend1[i] == pend0[i]);
    }
    assert forall|i: int| 0 <= i < pend1.len() implies unseen_below(
        #[trigger] pend1[i],
        rank(p),
    ) by {
        let a: int = if i < j {
            i
        } else {
            i + 1
        };
        assert(pend1[i] == pend0[a]);
        assert(unseen_below(pend0[a], rank(p)));
    }
}

/// Meet-in-the-middle search. Enumerates every 8-byte prefix over the
/// alphabet in ascending order; for each, derives the one candidate suffix
/// of every target whose masked signature admits the prefix, emits the
/// (target, key) pairs whose suffix validates, and stops as soon as every
/// target is resolved. A target is missing from the results exactly when no
/// valid 15-byte key hashes to it.
#[verifier::rlimit(100)]
pub fn bruteforce(hashes: HashSlot) -> (res: Vec<(u64, Key)>)
    requires
        hashes.wf(),
    ensures
        sound_results(hashes, res@),
        res@.len() <= hashes.pending().len(),
        forall|j: int|
            0 <= j < hashes.pending_hashes().len() ==> result_hashes(res@).contains(
                #[trigger] hashes.pending_hashes()[j],
            ) || no_ascii_preimage(hashes.pending_hashes()[j]),
        (forall|j: int|
            0 <= j < hashes.pending_hashes().len() ==> !no_ascii_preimage(
                #[trigger] hashes.pending_hashes()[j],
            )) ==> res@.len() == hashes.pending().len(),
{
    let ghost init = hashes;
    let mut slot = hashes;
    let mut res: Vec<(u64, Key)> = Vec::new();
    if slot.len() == 0 {
        return res;
    }
    let mut cur = first_prefix();
    proof {
        lemma_pow94_pos(8);
        assert forall|i: int| 0 <= i < slot.pending().len() implies !result_hashes(res@).contains(
            (#[trigger] slot.pending()[i]).0,
        ) by {}
        assert forall|i: int| 0 <= i < slot.pending().len() implies init.pending_hashes().contains(
            (#[trigger] slot.pending()[i]).0,
        ) by {
            assert(init.pending_hashes()[i] == slot.pending()[i].0);
        }
        assert forall|jj: int| 0 <= jj < init.pending_hashes().len() implies slot.pending_hashes()
            .contains(#[trigger] init.pending_hashes()[jj]) by {
            assert(slot.pending_hashes()[jj] == init.pending_hashes()[jj]);
        }
        assert forall|i: int| 0 <= i < slot.pending().len() implies unseen_below(
            #[trigger] slot.pending()[i],
            rank(cur@),
        ) by {
            let e = slot.pending()[i];
            assert forall|k: Seq<u8>| valid_key(k) && spec_hash(k) == e.0 implies rank(
                #[trigger] k.take(8),
            ) >= rank(cur@) by {
                lemma_key_parts(k);
                lemma_rank_bounds(k.take(8));
            }
        }
    }
    loop
        invariant
            init.wf(),
            slot.wf(),
            cur@.len() == 8,
            all_alpha(cur@),
            0 <= rank(cur@) < pow94(8),
            sound_results(init, res@),
            partitioned(init, slot, res@),
            forall|i: int|
                0 <= i < slot.pending().len() ==> unseen_below(
                    #[trigger] slot.pending()[i],
                    rank(cur@),
                ),
        ensures
            sound_results(init, res@),
            partitioned(init, slot, res@),
            slot.pending().len() == 0 || forall|i: int|
                0 <= i < slot.pending().len() ==> no_ascii_preimage(
                    (#[trigger] slot.pending()[i]).0,
                ),
        decreases pow94(8) - rank(cur@),
    {
        let phash = crate::murmur::prehash(cur.as_slice(), 15);
        let masked = phash & ASCII_HASH_MASK;
        let mut j: usize = 0;
        while j < slot.entries.len()
            invariant
                init.wf(),
                slot.wf(),
                cur@.len() == 8,
                all_alpha(cur@),
                phash == spec_prehash(cur@, 15),
                masked == phash & ASCII_HASH_MASK,
                j <= slot.pending().len(),
                sound_results(init, res@),
                partitioned(init, slot, res@),
                forall|i: int|
                    0 <= i < slot.pending().len() ==> unseen_below(
                        #[trigger] slot.pending()[i],
                        rank(cur@),
                    ),
                forall|i: int| 0 <= i < j ==> settled_at(#[trigger] slot.pending()[i], cur@),
            decreases slot.pending().len() - j,
        {
            let e = slot.entries[j];
            let h = e.0;
            let trim = e.1;
            proof {
                assert(slot.pending()[j as int] == e);
                assert(trim == spec_revhash_trim(h));
            }
            if (trim & ASCII_HASH_MASK) == masked {
                let w = phash ^ trim;
                proof {
                    assert(w & ASCII_HASH_MASK == 0) by (bit_vector)
                        requires
                            w == phash ^ trim,
                            phash & ASCII_HASH_MASK == trim & ASCII_HASH_MASK,
                    ;
                    assert(w & 0xff < 256 && (w >> 8) & 0xff < 256 && (w >> 16) & 0xff < 256 && (w
                        >> 24) & 0xff < 256 && (w >> 32) & 0xff < 256 && (w >> 40) & 0xff < 256
                        && (w >> 48) & 0xff < 256) by (bit_vector);
                    assert((w >> 56) & 0xff == 0) by (bit_vector)
                        requires
                            w & ASCII_HASH_MASK == 0,
                    ;
                }
                let c0 = (w & 0xff) as u8;
                let c1 = ((w >> 8) & 0xff) as u8;
                let c2 = ((w >> 16) & 0xff) as u8;
                let c3 = ((w >> 24) & 0xff) as u8;
                let c4 = ((w >> 32) & 0xff) as u8;
                let c5 = ((w >> 40) & 0xff) as u8;
                let c6 = ((w >> 48) & 0xff) as u8;
                proof {
                    lemma_word_bytes(w);
                    assert(w == word_from(c0, c1, c2, c3, c4, c5, c6, ((w >> 56) & 0xff) as u8));
                    assert(w == word_from(c0, c1, c2, c3, c4, c5, c6, 0));
                }
                let ok = AsciiIter::contains(c0) && AsciiIter::contains(c1) && AsciiIter::contains(
                    c2,
                ) && AsciiIter::contains(c3) && AsciiIter::contains(c4) && AsciiIter::contains(c5)
                    && AsciiIter::contains(c6);
                if ok {
                    let mut sfx: Vec<u8> = Vec::new();
                    sfx.push(c0);
                    sfx.push(c1);
                    sfx.push(c2);
                    sfx.push(c3);
                    sfx.push(c4);
                    sfx.push(c5);
                    sfx.push(c6);
                    let key = Key::new(cur.as_slice(), sfx.as_slice());
                    proof {
                        let t = sfx@;
                        assert(t[0] == c0 && t[1] == c1 && t[2] == c2 && t[3] == c3 && t[4] == c4
                            && t[5] == c5 && t[6] == c6);
                        assert(byte_at(t, 7) == 0);
                        assert(le_word(t) == word_from(c0, c1, c2, c3, c4, c5, c6, 0));
                        lemma_parts_key(cur@, t);
                        lemma_candidate_sound(cur@, t, h);
                        assert(key@ == cur@ + t);
                        assert(valid_key(key@));
                        assert(key@.take(8) == cur@);
                    }
                    let ghost slot0 = slot;
                    let ghost res0 = res@;
                    res.push((h, key));
                    slot.entries.remove(j);
                    proof {
                        assert(slot.pending() == slot0.pending().remove(j as int));
                        assert(slot.seen@ == slot0.seen@);
                        lemma_after_emit(init, slot0, slot, res0, key, j as int, cur@);
                    }
                } else {
                    proof {
                        lemma_settled_by_suffix(
                            cur@,
                            e,
                            phash,
                            w,
                            c0,
                            c1,
                            c2,
                            c3,
                            c4,
                            c5,
                            c6,
                        );
                    }
                    j = j + 1;
                }
            } else {
                proof {
                    lemma_settled_by_mask(cur@, e, phash);
                }
                j = j + 1;
            }
        }
        if slot.entries.len() == 0 {
            break;
        }
        proof {
            assert forall|i: int| 0 <= i < slot.pending().len() implies unseen_below(
                #[trigger] slot.pending()[i],
                rank(cur@) + 1,
            ) by {
                assert(settled_at(slot.pending()[i], cur@));
                lemma_frontier_step(slot.pending()[i], cur@);
            }
        }
        let ghost prev_rank = rank(cur@);
        let more = next_prefix(&mut cur);
        if !more {
            proof {
                lemma_rank_bounds(cur@);
                assert forall|i: int| 0 <= i < slot.pending().len() implies no_ascii_preimage(
                    (#[trigger] slot.pending()[i]).0,
                ) by {
                    assert(unseen_below(slot.pending()[i], prev_rank + 1));
                    lemma_no_preimage(slot.pending()[i]);
                }
            }
            break;
        }
        proof {
            assert(rank(cur@) == prev_rank + 1);
            lemma_rank_bounds(cur@);
        }
    }
    proof {
        assert forall|jj: int| 0 <= jj < init.pending_hashes().len() implies result_hashes(
            res@,
        ).contains(#[trigger] init.pending_hashes()[jj]) || no_ascii_preimage(
            init.pending_hashes()[jj],
        ) by {
            let x = init.pending_hashes()[jj];
            if !result_hashes(res@).contains(x) {
                assert(slot.pending_hashes().contains(x));
                let w = choose|w: int|
                    0 <= w < slot.pending_hashes().len() && slot.pending_hashes()[w] == x;
                assert(slot.pending()[w].0 == x);
                assert(slot.pending().len() != 0);
                assert(no_ascii_preimage(slot.pending()[w].0));
            }
        }
        let a = result_hashes(res@);
        let b = init.pending_hashes();
        assert(a.no_duplicates()) by {
            assert forall|i: int, i2: int|
                0 <= i < a.len() && 0 <= i2 < a.len() && i != i2 implies a[i] != a[i2] by {
                assert(a[i] == res@[i].0 && a[i2] == res@[i2].0);
            }
        }
        assert(b.no_duplicates()) by {
            assert forall|i: int, i2: int|
                0 <= i < b.len() && 0 <= i2 < b.len() && i != i2 implies b[i] != b[i2] by {
                assert(b[i] == init.pending()[i].0 && b[i2] == init.pending()[i2].0);
            }
        }
        lemma_count(a, b);
        assert(a.len() == res@.len() && b.len() == init.pending().len());
        if forall|jj: int|
            0 <= jj < init.pending_hashes().len() ==> !no_ascii_preimage(
                #[trigger] init.pending_hashes()[jj],
            ) {
            assert forall|jj: int| 0 <= jj < b.len() implies a.contains(#[trigger] b[jj]) by {
                assert(!no_ascii_preimage(b[jj]));
            }
        }
    }
    res
}

/// Two valid keys with one prefix and one hash are the same key: the suffix
/// is determined by the prefix and the target.
proof fn lemma_same_prefix_same_key(k1: Seq<u8>, k2: Seq<u8>, h: u64)
    requires
        valid_key(k1),
        valid_key(k2),
        spec_hash(k1) == h,
        spec_hash(k2) == h,
        k1.take(8) == k2.take(8),
    ensures
        k1 == k2,
{
    lemma_key_parts(k1);
    lemma_key_parts(k2);
    let p = k1.take(8);
    let t1 = k1.skip(8);
    let t2 = k2.skip(8);
    lemma_candidate_unique(p, t1, h);
    lemma_candidate_unique(p, t2, h);
    assert(le_word(t1) == le_word(t2));
    lemma_word_from_injective(
        byte_at(t1, 0),
        byte_at(t1, 1),
        byte_at(t1, 2),
        byte_at(t1, 3),
        byte_at(t1, 4),
        byte_at(t1, 5),
        byte_at(t1, 6),
        byte_at(t1, 7),
        byte_at(t2, 0),
        byte_at(t2, 1),
        byte_at(t2, 2),
        byte_at(t2, 3),
        byte_at(t2, 4),
        byte_at(t2, 5),
        byte_at(t2, 6),
        byte_at(t2, 7),
    );
    assert(t1 =~= t2);
    assert(k1 =~= k2);
}

/// Round trip: when a search's results meet `bruteforce`'s contract for an
/// index holding the hash of a valid key `s`, some result answers that hash;
/// and the answered key is `s` itself whenever `s` carries the first prefix
/// among the preimages of its hash, as when it is the sole preimage.
pub proof fn lemma_round_trip(init: HashSlot, rs: Seq<(u64, Key)>, s: Seq<u8>)
    requires
        valid_key(s),
        init.pending_hashes().contains(spec_hash(s)),
        sound_results(init, rs),
        forall|j: int|
            0 <= j < init.pending_hashes().len() ==> result_hashes(rs).contains(
                #[trigger] init.pending_hashes()[j],
            ) || no_ascii_preimage(init.pending_hashes()[j]),
    ensures
        exists|i: int| 0 <= i < rs.len() && (#[trigger] rs[i]).0 == spec_hash(s),
        first_found(spec_hash(s), s) ==> exists|i: int|
            0 <= i < rs.len() && (#[trigger] rs[i]).0 == spec_hash(s) && rs[i].1@ == s,
{
    let h = spec_hash(s);
    let jj = choose|jj: int|
        0 <= jj < init.pending_hashes().len() && init.pending_hashes()[jj] == h;
    assert(!no_ascii_preimage(h));
    assert(result_hashes(rs).contains(h));
    let wi = choose|wi: int| 0 <= wi < result_hashes(rs).len() && result_hashes(rs)[wi] == h;
    assert(rs[wi].0 == h);
    if first_found(h, s) {
        let k = rs[wi].1@;
        assert(valid_key(k) && spec_hash(k) == h);
        assert(first_found(h, k));
        assert(rank(k.take(8)) <= rank(s.take(8)));
        assert(rank(s.take(8)) <= rank(k.take(8)));
        lemma_key_parts(k);
        lemma_key_parts(s);
        lemma_rank_injective(k.take(8), s.take(8));
        lemma_same_prefix_same_key(k, s, h);
    }
}

/// Recovers the key for a single target hash as a string. The caller owes a
/// target that some ASCII-15 key produces; the result reads back as such a
/// key, byte for byte.
pub fn bruteforce_single(hash: u64) -> (r: String)
    requires
        !no_ascii_preimage(hash),
    ensures
        r@.len() == 15,
        exists|k: Seq<u8>|
            #![auto]
            valid_key(k) && spec_hash(k) == hash && (forall|i: int|
                0 <= i < 15 ==> r@[i] as u32 == k[i] as u32),
{
    let mut hashes = HashSlot::new();
    hashes.insert(hash);
    let ghost filled = hashes;
    let mut res = bruteforce(hashes);
    proof {
        assert(filled.pending() == Seq::<(u64, u64)>::empty().push(
            (hash, spec_revhash_trim(hash)),
        ));
        assert(filled.pending_hashes().len() == 1);
        assert(filled.pending_hashes()[0] == hash);
        assert(result_hashes(res@).contains(hash));
        let wi = choose|wi: int|
            0 <= wi < result_hashes(res@).len() && result_hashes(res@)[wi] == hash;
        assert(res@.len() > 0);
        assert(filled.pending_hashes().contains(res@[0].0)) by {
            assert(0 <= 0 < res@.len());
        }
        let w0 = choose|w0: int|
            0 <= w0 < filled.pending_hashes().len() && filled.pending_hashes()[w0] == res@[0].0;
        assert(res@[0].0 == hash);
        assert(valid_key(res@[0].1@));
        assert(spec_hash(res@[0].1@) == hash);
    }
    let pair = res.remove(0);
    let key = pair.1;
    proof {
        assert forall|i: int| 0 <= i < key@.len() implies 32 <= #[trigger] key@[i] < 127 by {
            assert(in_alpha(key@[i]));
        }
    }
    key.as_str().to_string()
}

} // verus!
