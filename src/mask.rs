//! Letter masks: bit `31 - r` of a mask stands for the letter of rarity rank `r`,
//! so the rarest letter is the most significant bit.
use vstd::prelude::*;

verus! {

/// Whether the letter of rank `r` is present in mask `m`.
pub open spec fn has_rank(m: u32, r: u32) -> bool {
    (m >> ((31 - r) as u32)) & 1u32 == 1u32
}

/// The mask holding the first `n` ranks (the whole alphabet of `n` letters).
pub open spec fn alphabet_mask(n: u32) -> u32 {
    !0u32 << ((32 - n) as u32)
}

/// Whether mask `m` holds every letter of an alphabet of `n` letters.
pub open spec fn covers_alphabet(m: u32, n: u32) -> bool {
    m & alphabet_mask(n) == alphabet_mask(n)
}

/// Whether mask `m` holds no letter outside an alphabet of `n` letters.
pub open spec fn within_alphabet(m: u32, n: u32) -> bool {
    m & !alphabet_mask(n) == 0
}

/// The bitwise OR of all masks of `s`.
pub open spec fn union_mask(s: Seq<u32>) -> u32
    decreases s.len(),
{
    if s.len() == 0 {
        0
    } else {
        union_mask(s.drop_last()) | s.last()
    }
}

/// The mask of the first `n` ranks.
pub fn full_mask(n: usize) -> (r: u32)
    requires
        n <= 32,
    ensures
        r == alphabet_mask(n as u32),
        forall|k: u32| k < 32 ==> (#[trigger] has_rank(r, k) <==> k < n),
{
    let r: u32 = if n == 0 {
        0
    } else {
        !0u32 << ((32 - n) as u32)
    };
    let nn = n as u32;
    assert(nn == 0 ==> !0u32 << ((32 - nn) as u32) == 0u32) by (bit_vector);
    assert forall|k: u32| k < 32 implies (#[trigger] has_rank(r, k) <==> k < n) by {
        lemma_alphabet_rank(nn, k);
    }
    r
}

/// Rank `k` is in the alphabet mask of `n` letters exactly when `k < n`.
pub proof fn lemma_alphabet_rank(n: u32, k: u32)
    by (bit_vector)
    requires
        n <= 32,
        k < 32,
    ensures
        has_rank(!0u32 << ((32 - n) as u32), k) <==> k < n,
{
}

/// Rank `k` is in `a | b` exactly when it is in `a` or in `b`.
pub proof fn lemma_or_rank(a: u32, b: u32, k: u32)
    by (bit_vector)
    requires
        k < 32,
    ensures
        has_rank(a | b, k) <==> has_rank(a, k) || has_rank(b, k),
{
}

/// Setting the bit of rank `r` adds exactly that rank.
pub proof fn lemma_set_rank(m: u32, r: u32, k: u32)
    by (bit_vector)
    requires
        r < 32,
        k < 32,
    ensures
        has_rank(m | (1u32 << ((31 - r) as u32)), k) <==> has_rank(m, k) || k == r,
{
}

/// Setting the bit of a rank below `n` keeps a mask within an alphabet of `n` letters.
pub proof fn lemma_set_rank_within(m: u32, r: u32, n: u32)
    by (bit_vector)
    requires
        r < n,
        n <= 32,
        m & !(!0u32 << ((32 - n) as u32)) == 0,
    ensures
        (m | (1u32 << ((31 - r) as u32))) & !(!0u32 << ((32 - n) as u32)) == 0,
{
}

/// The union of two masks within the alphabet stays within it.
pub proof fn lemma_or_within(a: u32, b: u32, f: u32)
    by (bit_vector)
    requires
        a & !f == 0,
        b & !f == 0,
    ensures
        (a | b) & !f == 0,
{
}

/// A mask within the alphabet that covers it equals the alphabet mask.
pub proof fn lemma_cover_within_eq(m: u32, f: u32)
    by (bit_vector)
    requires
        m & f == f,
        m & !f == 0,
    ensures
        m == f,
{
}

/// `leading_ones` reaches `n` exactly when the mask covers the first `n` ranks;
/// below that it names a missing rank, and every rank before it is present.
pub proof fn lemma_leading_ones(x: u32, n: u32)
    requires
        n <= 32,
    ensures
        (x.leading_ones() >= n) == covers_alphabet(x, n),
        x.leading_ones() <= 32,
        x.leading_ones() < 32 ==> !has_rank(x, x.leading_ones()),
        forall|k: u32| k < x.leading_ones() ==> #[trigger] has_rank(x, k),
{
    vstd::std_specs::bits::axiom_u32_leading_ones(x);
    let lo = x.leading_ones();
    assert(lo <= 32 && lo >= n && (!x) >> ((32 - lo) as u32) == 0 ==> x & (!0u32 << ((32
        - n) as u32)) == (!0u32 << ((32 - n) as u32))) by (bit_vector);
    assert(lo < n && n <= 32 && (x >> ((31 - lo) as u32)) & 1u32 == 0u32 ==> x & (!0u32 << ((
    32 - n) as u32)) != (!0u32 << ((32 - n) as u32))) by (bit_vector);
    assert forall|k: u32| k < lo implies #[trigger] has_rank(x, k) by {
        let j = (31 - k) as u32;
        assert(32 - lo <= j < 32);
    }
}

/// The union of a concatenation is the OR of the unions.
pub proof fn lemma_union_concat(a: Seq<u32>, b: Seq<u32>)
    ensures
        union_mask(a + b) == union_mask(a) | union_mask(b),
    decreases b.len(),
{
    if b.len() == 0 {
        assert(a + b =~= a);
        let u = union_mask(a);
        assert(u | 0u32 == u) by (bit_vector);
    } else {
        let bl = b.drop_last();
        lemma_union_concat(a, bl);
        assert((a + b).drop_last() =~= a + bl);
        let (x, y, z) = (union_mask(a), union_mask(bl), b.last());
        assert((x | y) | z == x | (y | z)) by (bit_vector);
    }
}

/// Inserting `w` anywhere into a sequence ORs `w` into its union.
pub proof fn lemma_union_insert(s: Seq<u32>, p: int, w: u32)
    requires
        0 <= p <= s.len(),
    ensures
        union_mask(s.take(p) + seq![w] + s.skip(p)) == union_mask(s) | w,
{
    let a = s.take(p);
    let b = s.skip(p);
    assert(s =~= a + b);
    lemma_union_concat(a, b);
    lemma_union_concat(a + seq![w], b);
    lemma_union_concat(a, seq![w]);
    assert(seq![w].drop_last() =~= Seq::<u32>::empty());
    assert(union_mask(Seq::<u32>::empty()) == 0);
    assert(union_mask(seq![w]) == 0u32 | w);
    assert(a + seq![w] + b =~= s.take(p) + seq![w] + s.skip(p));
    let (x, y) = (union_mask(a), union_mask(b));
    assert((x | (0u32 | w)) | y == (x | y) | w) by (bit_vector);
}

/// Every mask of a sequence lies within its union.
pub proof fn lemma_union_member(s: Seq<u32>, i: int)
    requires
        0 <= i < s.len(),
    ensures
        union_mask(s) | s[i] == union_mask(s),
    decreases s.len(),
{
    let u = union_mask(s.drop_last());
    let l = s.last();
    if i == s.len() - 1 {
        assert((u | l) | l == u | l) by (bit_vector);
    } else {
        lemma_union_member(s.drop_last(), i);
        let x = s[i];
        assert(u | x == u ==> (u | l) | x == u | l) by (bit_vector);
    }
}

/// Rank `k` is in the union of `s` exactly when some mask of `s` has it.
pub proof fn lemma_union_rank(s: Seq<u32>, k: u32)
    requires
        k < 32,
    ensures
        has_rank(union_mask(s), k) <==> exists|i: int| 0 <= i < s.len() && #[trigger] has_rank(s[i], k),
    decreases s.len(),
{
    if s.len() == 0 {
        assert(!has_rank(0u32, k)) by (bit_vector)
            requires
                k < 32,
        ;
    } else {
        let t = s.drop_last();
        lemma_union_rank(t, k);
        lemma_or_rank(union_mask(t), s.last(), k);
        if has_rank(union_mask(t), k) {
            let i = choose|i: int| 0 <= i < t.len() && #[trigger] has_rank(t[i], k);
            assert(s[i] == t[i]);
        }
        if exists|i: int| 0 <= i < s.len() && #[trigger] has_rank(s[i], k) {
            let i = choose|i: int| 0 <= i < s.len() && #[trigger] has_rank(s[i], k);
            if i < s.len() - 1 {
                assert(t[i] == s[i]);
            } else {
                assert(s[i] == s.last());
            }
        }
    }
}

/// A mask covers an alphabet of `n` letters exactly when it has each of its ranks.
pub proof fn lemma_covers_ranks(m: u32, n: u32)
    requires
        n <= 32,
    ensures
        covers_alphabet(m, n) <==> forall|k: u32| k < n ==> #[trigger] has_rank(m, k),
{
    lemma_leading_ones(m, n);
    if covers_alphabet(m, n) {
        assert forall|k: u32| k < n implies #[trigger] has_rank(m, k) by {
            assert(m & (!0u32 << ((32 - n) as u32)) == (!0u32 << ((32 - n) as u32)) && k < n && n <= 32
                ==> has_rank(m, k)) by (bit_vector);
        }
    }
}

/// Two masks with the same ranks are equal.
pub proof fn lemma_rank_ext(a: u32, b: u32)
    requires
        forall|k: u32| k < 32 ==> (#[trigger] has_rank(a, k) <==> has_rank(b, k)),
    ensures
        a == b,
{
    let c = a ^ b;
    vstd::std_specs::bits::axiom_u32_leading_zeros(c);
    let z = c.leading_zeros();
    if c != 0 {
        assert(z < 32 && (c >> ((31 - z) as u32)) & 1u32 != 0u32 && c == a ^ b ==> (has_rank(a, z)
            != has_rank(b, z))) by (bit_vector);
        assert(false);
    }
    assert(a ^ b == 0 ==> a == b) by (bit_vector);
}

} // verus!
