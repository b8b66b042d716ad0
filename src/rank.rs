//! The letter rarity ranking: letters ordered by how many words hold them.
use vstd::prelude::*;
use vstd::string::StrSliceExecFns;
use crate::seqs::{lemma_insert_contains, lemma_push_contains};
use crate::text::{chars_ascending, SanitizedString};

verus! {

/// The words of a list of sanitized strings, as character sequences.
pub open spec fn word_views(words: Seq<SanitizedString>) -> Seq<Seq<char>> {
    words.map_values(|w: SanitizedString| w.0@)
}

/// How many words of `ws` hold the letter `c`.
pub open spec fn word_count(ws: Seq<Seq<char>>, c: char) -> nat
    decreases ws.len(),
{
    if ws.len() == 0 {
        0
    } else {
        word_count(ws.drop_last(), c) + if ws.last().contains(c) {
            1nat
        } else {
            0nat
        }
    }
}

/// Whether `a` is rarer than `b` in `ws`: held by fewer words, or by as many and smaller.
pub open spec fn rarer(ws: Seq<Seq<char>>, a: char, b: char) -> bool {
    word_count(ws, a) < word_count(ws, b) || (word_count(ws, a) == word_count(ws, b) && a < b)
}

proof fn lemma_word_count_bound(ws: Seq<Seq<char>>, c: char)
    ensures
        word_count(ws, c) <= ws.len(),
    decreases ws.len(),
{
    if ws.len() > 0 {
        lemma_word_count_bound(ws.drop_last(), c);
    }
}

/// The position of `c` in `v`, if it is there.
fn find_letter(v: &Vec<char>, c: char) -> (r: Option<usize>)
    ensures
        match r {
            Some(j) => j < v@.len() && v@[j as int] == c,
            None => !v@.contains(c),
        },
{
    let mut j: usize = 0;
    while j < v.len()
        invariant
            j <= v@.len(),
            forall|k: int| 0 <= k < j ==> v@[k] != c,
        decreases v@.len() - j,
    {
        if v[j] == c {
            return Some(j);
        }
        j = j + 1;
    }
    None
}

/// Every letter that some word holds, once, from the rarest to the most common;
/// letters held by as many words come in ascending order.
pub fn rank_letters(words: &Vec<SanitizedString>) -> (r: Vec<char>)
    ensures
        r@.no_duplicates(),
        forall|c: char| r@.contains(c) <==> word_count(word_views(words@), c) > 0,
        forall|i: int, j: int| 0 <= i < j < r@.len() ==> rarer(word_views(words@), r@[i], r@[j]),
{
    let ghost ws = word_views(words@);
    let mut letters: Vec<char> = Vec::new();
    let mut counts: Vec<usize> = Vec::new();
    let mut i: usize = 0;
    while i < words.len()
        invariant
            i <= words@.len(),
            ws == word_views(words@),
            letters@.len() == counts@.len(),
            letters@.no_duplicates(),
            forall|j: int| 0 <= j < counts@.len() ==> #[trigger] counts@[j] == word_count(ws.take(i as int), letters@[j]),
            forall|c: char| letters@.contains(c) <==> word_count(ws.take(i as int), c) > 0,
        decreases words@.len() - i,
    {
        let unique = words[i].get_unique_letters();
        let u = unique.as_str();
        let len = u.unicode_len();
        let ghost w = ws[i as int];
        let ghost t0 = ws.take(i as int);
        let ghost t1 = ws.take(i + 1);
        assert(w == words@[i as int].0@);
        assert(t1.drop_last() =~= t0);
        assert(t1.last() == w);
        let mut k: usize = 0;
        while k < len
            invariant
                len == u@.len(),
                k <= len,
                i < words@.len(),
                chars_ascending(u@),
                letters@.len() == counts@.len(),
                letters@.no_duplicates(),
                forall|j: int| 0 <= j < counts@.len() ==> #[trigger] counts@[j] == word_count(t0, letters@[j])
                    + if u@.take(k as int).contains(letters@[j]) { 1nat } else { 0nat },
                forall|c: char| letters@.contains(c) <==> (word_count(t0, c) > 0 || u@.take(k as int).contains(c)),
                t0.len() == i,
                i < words.len(),
            decreases len - k,
        {
            let c = u.get_char(k);
            let ghost p0 = u@.take(k as int);
            let ghost p1 = u@.take(k + 1);
            assert(p1 =~= p0.push(c));
            assert(!p0.contains(c)) by {
                if p0.contains(c) {
                    let j = choose|j: int| 0 <= j < p0.len() && p0[j] == c;
                    assert(u@[j] < u@[k as int]);
                }
            }
            assert forall|x: char| p1.contains(x) <==> p0.contains(x) || x == c by {
                lemma_push_contains(p0, c, x);
            }
            match find_letter(&letters, c) {
                Some(j) => {
                    proof {
                        lemma_word_count_bound(t0, c);
                        assert(counts@[j as int] == word_count(t0, c));
                        assert(counts@[j as int] <= i);
                    }
                    let ghost before = counts@;
                    let v = counts[j] + 1;
                    counts[j] = v;
                    assert forall|q: int| 0 <= q < counts@.len() implies #[trigger] counts@[q] == word_count(t0, letters@[q])
                        + if p1.contains(letters@[q]) { 1nat } else { 0nat } by {
                        if q != j {
                            assert(before[q] == counts@[q]);
                            assert(letters@[q] != c);
                        }
                    }
                    assert forall|x: char| letters@.contains(x) <==> (word_count(t0, x) > 0 || p1.contains(x)) by {
                        assert(letters@[j as int] == c);
                    }
                },
                None => {
                    let ghost before = letters@;
                    letters.push(c);
                    counts.push(1);
                    assert forall|a: int, b: int| 0 <= a < b < letters@.len() implies letters@[a] != letters@[b] by {
                        if b == letters@.len() - 1 {
                            assert(letters@[a] == before[a]);
                        }
                    }
                    assert(letters@ == before.push(c));
                    assert forall|x: char| #[trigger] letters@.contains(x) <==> (before.contains(x) || x == c) by {
                        lemma_push_contains(before, c, x);
                    }
                },
            }
            k = k + 1;
        }
        assert(u@.take(len as int) =~= u@);
        assert forall|x: char| #[trigger] word_count(t1, x) == word_count(t0, x) + if u@.contains(x) { 1nat } else { 0nat } by {
            assert(unique@.contains(x) <==> w.contains(x));
        }
        assert forall|q: int| 0 <= q < counts@.len() implies #[trigger] counts@[q] == word_count(t1, letters@[q]) by {
            assert(word_count(t1, letters@[q]) == word_count(t0, letters@[q]) + if u@.contains(letters@[q]) { 1nat } else { 0nat });
        }
        assert forall|x: char| letters@.contains(x) <==> word_count(t1, x) > 0 by {
            assert(word_count(t1, x) == word_count(t0, x) + if u@.contains(x) { 1nat } else { 0nat });
        }
        i = i + 1;
    }
    assert(ws.take(words@.len() as int) =~= ws);
    let mut out: Vec<char> = Vec::new();
    let mut out_counts: Vec<usize> = Vec::new();
    let mut j: usize = 0;
    while j < letters.len()
        invariant
            j <= letters@.len(),
            letters@.len() == counts@.len(),
            letters@.no_duplicates(),
            forall|q: int| 0 <= q < counts@.len() ==> #[trigger] counts@[q] == word_count(ws, letters@[q]),
            forall|c: char| letters@.contains(c) <==> word_count(ws, c) > 0,
            out@.len() == out_counts@.len(),
            forall|q: int| 0 <= q < out_counts@.len() ==> #[trigger] out_counts@[q] == word_count(ws, out@[q]),
            forall|c: char| out@.contains(c) <==> letters@.take(j as int).contains(c),
            forall|a: int, b: int| 0 <= a < b < out@.len() ==> rarer(ws, out@[a], out@[b]),
        decreases letters@.len() - j,
    {
        let c = letters[j];
        let n = counts[j];
        let mut p: usize = 0;
        while p < out.len() && (out_counts[p] < n || (out_counts[p] == n && out[p] < c))
            invariant
                p <= out@.len(),
                out@.len() == out_counts@.len(),
                n == word_count(ws, c),
                forall|q: int| 0 <= q < out_counts@.len() ==> #[trigger] out_counts@[q] == word_count(ws, out@[q]),
                forall|q: int| 0 <= q < p ==> rarer(ws, #[trigger] out@[q], c),
            decreases out@.len() - p,
        {
            p = p + 1;
        }
        let ghost before = out@;
        let ghost before_counts = out_counts@;
        let ghost lt = letters@.take(j as int);
        let ghost lt1 = letters@.take(j + 1);
        assert(lt1 =~= lt.push(c));
        assert(!before.contains(c)) by {
            if before.contains(c) {
                let q = choose|q: int| 0 <= q < lt.len() && lt[q] == c;
                assert(letters@[q] == letters@[j as int]);
            }
        }
        proof {
            if p < before.len() {
                assert(before[p as int] != c);
                assert(rarer(ws, c, before[p as int]));
            }
        }
        out.insert(p, c);
        out_counts.insert(p, n);
        assert forall|q: int| 0 <= q < out_counts@.len() implies #[trigger] out_counts@[q] == word_count(ws, out@[q]) by {
            if q > p {
                assert(out_counts@[q] == before_counts[q - 1]);
                assert(out@[q] == before[q - 1]);
            } else if q < p {
                assert(out_counts@[q] == before_counts[q]);
            }
        }
        assert forall|a: int, b: int| 0 <= a < b < out@.len() implies rarer(ws, out@[a], out@[b]) by {
            if a < p && b > p {
                assert(out@[b] == before[b - 1]);
                assert(rarer(ws, before[a], c));
                assert(rarer(ws, c, before[p as int]));
                if b - 1 > p {
                    assert(rarer(ws, before[p as int], before[b - 1]));
                }
            } else if a == p && b > p {
                assert(out@[b] == before[b - 1]);
                if b - 1 > p {
                    assert(rarer(ws, before[p as int], before[b - 1]));
                }
            } else if a > p {
                assert(out@[a] == before[a - 1]);
                assert(out@[b] == before[b - 1]);
            }
        }
        assert forall|x: char| out@.contains(x) <==> lt1.contains(x) by {
            lemma_insert_contains(before, p as int, c, x);
            lemma_push_contains(lt, c, x);
        }
        j = j + 1;
    }
    assert(letters@.take(letters@.len() as int) =~= letters@);
    assert forall|a: int, b: int| 0 <= a < b < out@.len() implies out@[a] != out@[b] by {
        assert(rarer(ws, out@[a], out@[b]));
    }
    out
}

} // verus!
