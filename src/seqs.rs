//! Facts on what a sequence holds after it grows by one element.
use vstd::prelude::*;

verus! {

/// A sequence with `x` pushed holds exactly what it held and `x`.
pub proof fn lemma_push_contains<A>(s: Seq<A>, x: A, y: A)
    ensures
        s.push(x).contains(y) <==> s.contains(y) || y == x,
{
    if s.push(x).contains(y) && y != x {
        let q = choose|q: int| 0 <= q < s.len() + 1 && s.push(x)[q] == y;
        assert(s[q] == y);
    }
    if s.contains(y) {
        let q = choose|q: int| 0 <= q < s.len() && s[q] == y;
        assert(s.push(x)[q] == y);
    }
    assert(s.push(x)[s.len() as int] == x);
}

/// One more element of a prefix adds exactly that element.
pub proof fn lemma_take_next_contains<A>(s: Seq<A>, i: int, y: A)
    requires
        0 <= i < s.len(),
    ensures
        s.take(i + 1).contains(y) <==> s.take(i).contains(y) || y == s[i],
{
    assert(s.take(i + 1) =~= s.take(i).push(s[i]));
    lemma_push_contains(s.take(i), s[i], y);
}

/// A sequence with `x` inserted holds exactly what it held and `x`.
pub proof fn lemma_insert_contains<A>(s: Seq<A>, i: int, x: A, y: A)
    requires
        0 <= i <= s.len(),
    ensures
        s.insert(i, x).contains(y) <==> s.contains(y) || y == x,
{
    let t = s.insert(i, x);
    if t.contains(y) && y != x {
        let q = choose|q: int| 0 <= q < t.len() && t[q] == y;
        if q < i {
            assert(s[q] == y);
        } else {
            assert(s[q - 1] == y);
        }
    }
    if s.contains(y) {
        let q = choose|q: int| 0 <= q < s.len() && s[q] == y;
        if q < i {
            assert(t[q] == y);
        } else {
            assert(t[q + 1] == y);
        }
    }
    assert(t[i] == x);
}

} // verus!
