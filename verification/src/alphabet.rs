use vstd::prelude::*;

verus! {

/// Admitted key bytes: printable ASCII, backslash excluded.
pub open spec fn in_alpha(b: u8) -> bool {
    32 <= b && b < 127 && b != 92
}

/// Every byte of `s` drawn from the alphabet.
pub open spec fn all_alpha(s: Seq<u8>) -> bool {
    forall|i: int| 0 <= i < s.len() ==> in_alpha(#[trigger] s[i])
}

/// A well-formed 15-byte key.
pub open spec fn valid_key(k: Seq<u8>) -> bool {
    k.len() == 15 && all_alpha(k)
}

/// A well-formed 8-byte prefix.
pub open spec fn valid_prefix(p: Seq<u8>) -> bool {
    p.len() == 8 && all_alpha(p)
}

/// The ascending alphabet of admitted key bytes.
pub struct AsciiIter;

impl AsciiIter {
    /// Does `c` lie in the admitted alphabet?
    pub fn contains(c: u8) -> (r: bool)
        ensures
            r == in_alpha(c),
    {
        c >= 32 && c < 127 && c != 92
    }
}

/// The number of alphabet strings of `n` positions: the alphabet has 94 bytes.
pub open spec fn pow94(n: nat) -> nat
    decreases n,
{
    if n == 0 {
        1
    } else {
        94 * pow94((n - 1) as nat)
    }
}

/// The position of byte `b` within the ascending alphabet.
pub open spec fn apos(b: u8) -> int {
    if b > 92 {
        b - 33
    } else {
        b - 32
    }
}

/// The index of `s` in the lexicographic enumeration of all alphabet strings
/// of its length.
pub open spec fn rank(s: Seq<u8>) -> int
    decreases s.len(),
{
    if s.len() == 0 {
        0
    } else {
        rank(s.drop_last()) * 94 + apos(s.last())
    }
}

/// There is at least one alphabet string of every length.
pub proof fn lemma_pow94_pos(n: nat)
    ensures
        pow94(n) >= 1,
    decreases n,
{
    if n > 0 {
        lemma_pow94_pos((n - 1) as nat);
    }
}

/// The rank of an alphabet string lies below the count of its shape.
pub proof fn lemma_rank_bounds(s: Seq<u8>)
    requires
        all_alpha(s),
    ensures
        0 <= rank(s) < pow94(s.len()),
    decreases s.len(),
{
    if s.len() > 0 {
        assert(all_alpha(s.drop_last()));
        lemma_rank_bounds(s.drop_last());
        assert(in_alpha(s.last()));
        assert(0 <= apos(s.last()) < 94);
        assert(pow94(s.len()) == 94 * pow94((s.len() - 1) as nat));
    }
}

/// Alphabet strings of one length with one rank are the same string.
pub proof fn lemma_rank_injective(a: Seq<u8>, b: Seq<u8>)
    requires
        a.len() == b.len(),
        all_alpha(a),
        all_alpha(b),
        rank(a) == rank(b),
    ensures
        a == b,
    decreases a.len(),
{
    if a.len() == 0 {
        assert(a =~= b);
    } else {
        assert(in_alpha(a.last()) && in_alpha(b.last()));
        assert(0 <= apos(a.last()) < 94 && 0 <= apos(b.last()) < 94);
        assert(rank(a.drop_last()) * 94 + apos(a.last()) == rank(b.drop_last()) * 94 + apos(
            b.last(),
        ));
        assert(rank(a.drop_last()) == rank(b.drop_last()) && apos(a.last()) == apos(b.last()));
        assert(a.last() == b.last());
        assert(all_alpha(a.drop_last()) && all_alpha(b.drop_last()));
        lemma_rank_injective(a.drop_last(), b.drop_last());
        assert forall|i: int| 0 <= i < a.len() implies a[i] == b[i] by {
            if i < a.len() - 1 {
                assert(a[i] == a.drop_last()[i]);
                assert(b[i] == b.drop_last()[i]);
            }
        }
        assert(a =~= b);
    }
}

/// The rank of a string whose positions from `j` on all hold the greatest
/// alphabet byte.
pub proof fn lemma_rank_maxed(s: Seq<u8>, j: int)
    requires
        0 <= j <= s.len(),
        forall|i: int| j <= i < s.len() ==> s[i] == 126,
    ensures
        rank(s) == rank(s.take(j)) * pow94((s.len() - j) as nat) + pow94((s.len() - j) as nat)
            - 1,
    decreases s.len() - j,
{
    if j == s.len() {
        assert(s.take(j) =~= s);
        let q = pow94((s.len() - j) as nat) as int;
        assert(q == 1);
        assert(rank(s.take(j)) * q == rank(s.take(j))) by (nonlinear_arith)
            requires q == 1;
    } else {
        lemma_rank_maxed(s.drop_last(), j);
        assert(s.drop_last().take(j) =~= s.take(j));
        let x = rank(s.take(j));
        let p = pow94((s.len() - 1 - j) as nat) as int;
        assert(rank(s.drop_last()) == x * p + p - 1);
        assert(s.last() == 126 && apos(126) == 93);
        assert(rank(s) == (x * p + p - 1) * 94 + 93);
        let q = pow94((s.len() - j) as nat) as int;
        assert(q == 94 * p);
        assert((x * p + p - 1) * 94 + 93 == x * (94 * p) + (94 * p) - 1) by (nonlinear_arith);
        assert(x * q == x * (94 * p)) by (nonlinear_arith)
            requires q == 94 * p;
        assert(rank(s) == x * q + q - 1);
    }
}

/// The rank of a string whose positions from `j` on all hold the least
/// alphabet byte.
pub proof fn lemma_rank_floored(s: Seq<u8>, j: int)
    requires
        0 <= j <= s.len(),
        forall|i: int| j <= i < s.len() ==> s[i] == 32,
    ensures
        rank(s) == rank(s.take(j)) * pow94((s.len() - j) as nat),
    decreases s.len() - j,
{
    if j == s.len() {
        assert(s.take(j) =~= s);
        let q = pow94((s.len() - j) as nat) as int;
        assert(q == 1);
        assert(rank(s.take(j)) * q == rank(s.take(j))) by (nonlinear_arith)
            requires q == 1;
    } else {
        lemma_rank_floored(s.drop_last(), j);
        assert(s.drop_last().take(j) =~= s.take(j));
        let x = rank(s.take(j));
        let p = pow94((s.len() - 1 - j) as nat) as int;
        assert(rank(s.drop_last()) == x * p);
        assert(s.last() == 32 && apos(32) == 0);
        assert(rank(s) == (x * p) * 94);
        let q = pow94((s.len() - j) as nat) as int;
        assert(q == 94 * p);
        assert((x * p) * 94 == x * (94 * p)) by (nonlinear_arith);
        assert(x * q == x * (94 * p)) by (nonlinear_arith)
            requires q == 94 * p;
        assert(rank(s) == x * q);
    }
}

/// The first prefix of the enumeration: every position at the least byte.
pub fn first_prefix() -> (cur: Vec<u8>)
    ensures
        cur@.len() == 8,
        all_alpha(cur@),
        rank(cur@) == 0,
{
    let mut cur: Vec<u8> = Vec::new();
    let mut n: usize = 0;
    while n < 8
        invariant
            n <= 8,
            cur@.len() == n,
            forall|i: int| 0 <= i < n ==> cur@[i] == 32,
        decreases 8 - n,
    {
        cur.push(32);
        n = n + 1;
    }
    proof {
        lemma_rank_floored(cur@, 0);
        assert(cur@.take(0) =~= Seq::<u8>::empty());
    }
    cur
}

/// Advances the 8-position odometer to the prefix of the next rank, in the
/// lexicographic order of the enumeration; reports whether one is left.
pub fn next_prefix(cur: &mut Vec<u8>) -> (more: bool)
    requires
        old(cur)@.len() == 8,
        all_alpha(old(cur)@),
    ensures
        final(cur)@.len() == 8,
        all_alpha(final(cur)@),
        more ==> rank(final(cur)@) == rank(old(cur)@) + 1,
        !more ==> rank(old(cur)@) == pow94(8) - 1,
{
    let mut j: usize = 8;
    while j > 0
        invariant
            j <= 8,
            old(cur)@.len() == 8,
            all_alpha(old(cur)@),
            cur@.len() == 8,
            all_alpha(cur@),
            cur@.take(j as int) == old(cur)@.take(j as int),
            forall|i: int| j <= i < 8 ==> old(cur)@[i] == 126 && cur@[i] == 32,
        decreases j,
    {
        let b = cur[j - 1];
        proof {
            assert(cur@[j - 1] == cur@.take(j as int)[j - 1]);
            assert(old(cur)@[j - 1] == old(cur)@.take(j as int)[j - 1]);
            assert(in_alpha(b));
        }
        if b == 126 {
            cur[j - 1] = 32;
            proof {
                assert(cur@.take(j as int - 1) =~= old(cur)@.take(j as int - 1));
            }
            j = j - 1;
        } else {
            let s = if b == 91 {
                93
            } else {
                b + 1
            };
            cur[j - 1] = s;
            proof {
                let o = old(cur)@;
                let n = cur@;
                assert(in_alpha(s) && apos(s) == apos(b) + 1);
                let p = pow94((8 - j) as nat) as int;
                lemma_rank_maxed(o, j as int);
                lemma_rank_floored(n, j as int);
                assert(n.take(j as int).drop_last() =~= o.take(j as int).drop_last());
                assert(n.take(j as int).last() == s);
                assert(o.take(j as int).last() == b);
                assert(rank(n.take(j as int)) == rank(o.take(j as int)) + 1);
                let x = rank(o.take(j as int));
                assert((x + 1) * p == x * p + p) by (nonlinear_arith);
                assert(rank(n) == rank(o) + 1);
            }
            return true;
        }
    }
    proof {
        lemma_rank_maxed(old(cur)@, 0);
        assert(old(cur)@.take(0) =~= Seq::<u8>::empty());
    }
    false
}

} // verus!
