//! Anagram merging, subset pruning, and the multiplicity-expanded count of solutions.
use vstd::prelude::*;
use crate::search::{masks_of, Solution, Word};
use crate::seqs::{lemma_push_contains, lemma_take_next_contains};

verus! {

/// The names of the entries of `ws` whose mask is `m`, in order.
pub open spec fn names_with(ws: Seq<Word>, m: u32) -> Seq<String>
    decreases ws.len(),
{
    if ws.len() == 0 {
        seq![]
    } else if ws.last().letters_present == m {
        names_with(ws.drop_last(), m) + ws.last().names@
    } else {
        names_with(ws.drop_last(), m)
    }
}

/// How many words of `entries` have the letter set `m`.
pub open spec fn multiplicity(entries: Seq<Word>, m: u32) -> nat {
    names_with(entries, m).len()
}

/// How many concrete word combinations the solution `s` stands for.
pub open spec fn solution_count(entries: Seq<Word>, s: Seq<u32>) -> nat
    decreases s.len(),
{
    if s.len() == 0 {
        1
    } else {
        solution_count(entries, s.drop_last()) * multiplicity(entries, s.last())
    }
}

/// The multiplicity-expanded count of a list of solutions.
pub open spec fn total_count(entries: Seq<Word>, sols: Seq<Solution>) -> nat
    decreases sols.len(),
{
    if sols.len() == 0 {
        0
    } else {
        total_count(entries, sols.drop_last()) + solution_count(entries, sols.last().words@)
    }
}

/// Whether some mask of `all` holds every letter of `m` and more.
pub open spec fn dominated(all: Seq<u32>, m: u32) -> bool {
    exists|j: int| 0 <= j < all.len() && #[trigger] all[j] | m == all[j] && all[j] != m
}

/// The entries of `ws` that no mask of `all` dominates, in order.
pub open spec fn undominated(ws: Seq<Word>, all: Seq<u32>) -> Seq<Word>
    decreases ws.len(),
{
    if ws.len() == 0 {
        seq![]
    } else if dominated(all, ws[0].letters_present) {
        undominated(ws.skip(1), all)
    } else {
        seq![ws[0]] + undominated(ws.skip(1), all)
    }
}

/// Whether `m` is one of `v`.
fn holds_mask(v: &Vec<u32>, m: u32) -> (r: bool)
    ensures
        r == v@.contains(m),
{
    let mut i: usize = 0;
    while i < v.len()
        invariant
            i <= v@.len(),
            forall|j: int| 0 <= j < i ==> v@[j] != m,
        decreases v@.len() - i,
    {
        if v[i] == m {
            return true;
        }
        i = i + 1;
    }
    false
}

/// Merges the entries that share a letter set: one entry per distinct mask, in order of
/// first appearance, holding the names of every entry with that mask.
pub fn merge_anagrams(words: &Vec<Word>) -> (r: Vec<Word>)
    ensures
        forall|i: int, j: int| 0 <= i < j < r@.len() ==> r@[i].letters_present != r@[j].letters_present,
        forall|m: u32| masks_of(r@).contains(m) <==> masks_of(words@).contains(m),
        forall|i: int| 0 <= i < r@.len() ==> (#[trigger] r@[i]).names@ == names_with(words@, r@[i].letters_present),
{
    let ghost ms = masks_of(words@);
    let mut distinct: Vec<u32> = Vec::new();
    let mut i: usize = 0;
    while i < words.len()
        invariant
            i <= words@.len(),
            ms == masks_of(words@),
            distinct@.no_duplicates(),
            forall|m: u32| distinct@.contains(m) <==> ms.take(i as int).contains(m),
        decreases words@.len() - i,
    {
        let m = words[i].letters_present;
        assert(ms.take(i + 1) =~= ms.take(i as int).push(m));
        if !holds_mask(&distinct, m) {
            let ghost before = distinct@;
            distinct.push(m);
            assert(distinct@ == before.push(m));
            assert forall|x: u32| distinct@.contains(x) <==> ms.take(i + 1).contains(x) by {
                lemma_take_next_contains(ms, i as int, x);
                lemma_push_contains(before, m, x);
            }
        } else {
            assert forall|x: u32| distinct@.contains(x) <==> ms.take(i + 1).contains(x) by {
                lemma_take_next_contains(ms, i as int, x);
            }
        }
        i = i + 1;
    }
    assert(ms.take(words@.len() as int) =~= ms);
    let mut out: Vec<Word> = Vec::new();
    let mut d: usize = 0;
    while d < distinct.len()
        invariant
            d <= distinct@.len(),
            ms == masks_of(words@),
            distinct@.no_duplicates(),
            forall|m: u32| distinct@.contains(m) <==> ms.contains(m),
            masks_of(out@) == distinct@.take(d as int),
            forall|i: int| 0 <= i < out@.len() ==> (#[trigger] out@[i]).names@ == names_with(words@, out@[i].letters_present),
        decreases distinct@.len() - d,
    {
        let m = distinct[d];
        let mut names: Vec<String> = Vec::new();
        let mut i: usize = 0;
        while i < words.len()
            invariant
                i <= words@.len(),
                names@ == names_with(words@.take(i as int), m),
            decreases words@.len() - i,
        {
            assert(words@.take(i + 1).drop_last() =~= words@.take(i as int));
            if words[i].letters_present == m {
                let src = &words[i].names;
                let ghost base = names@;
                let mut k: usize = 0;
                while k < src.len()
                    invariant
                        k <= src@.len(),
                        names@ == base + src@.take(k as int),
                    decreases src@.len() - k,
                {
                    names.push(src[k].clone());
                    k = k + 1;
                    assert(names@ =~= base + src@.take(k as int));
                }
                assert(src@.take(src@.len() as int) =~= src@);
            }
            i = i + 1;
        }
        assert(words@.take(words@.len() as int) =~= words@);
        let ghost before_out = out@;
        out.push(Word { names, letters_present: m });
        assert(out@ == before_out.push(out@.last()));
        assert(masks_of(out@) =~= masks_of(before_out).push(m));
        assert(distinct@.take(d + 1) =~= distinct@.take(d as int).push(m));
        d = d + 1;
    }
    proof {
        assert(distinct@.take(distinct@.len() as int) =~= distinct@);
        assert forall|i: int, j: int| 0 <= i < j < out@.len() implies out@[i].letters_present != out@[j].letters_present by {
            assert(masks_of(out@)[i] == out@[i].letters_present);
            assert(masks_of(out@)[j] == out@[j].letters_present);
        }
    }
    out
}

/// Whether some mask of `all` dominates `m`.
fn is_dominated(all: &Vec<u32>, m: u32) -> (r: bool)
    ensures
        r == dominated(all@, m),
{
    let mut j: usize = 0;
    while j < all.len()
        invariant
            j <= all@.len(),
            forall|k: int| 0 <= k < j ==> !(#[trigger] all@[k] | m == all@[k] && all@[k] != m),
        decreases all@.len() - j,
    {
        let other = all[j];
        if other | m == other && other != m {
            return true;
        }
        j = j + 1;
    }
    false
}

/// Drops every entry whose letter set is a strict subset of another entry's letter set;
/// the others stay, in order.
pub fn prune_dominated(entries: Vec<Word>) -> (r: Vec<Word>)
    ensures
        r@ == undominated(entries@, masks_of(entries@)),
{
    let ghost all_entries = entries@;
    let mut all: Vec<u32> = Vec::new();
    let mut i: usize = 0;
    while i < entries.len()
        invariant
            i <= entries@.len(),
            all@ == masks_of(entries@).take(i as int),
        decreases entries@.len() - i,
    {
        all.push(entries[i].letters_present);
        i = i + 1;
        assert(all@ =~= masks_of(entries@).take(i as int));
    }
    assert(all@ =~= masks_of(entries@));
    let mut rest = entries;
    let mut out: Vec<Word> = Vec::new();
    while rest.len() > 0
        invariant
            all@ == masks_of(all_entries),
            rest@ == all_entries.take(rest@.len() as int),
            rest@.len() <= all_entries.len(),
            out@ == undominated(all_entries.skip(rest@.len() as int), all@),
        decreases rest@.len(),
    {
        let ghost k = rest@.len() as int;
        let w = rest.pop().unwrap();
        assert(all_entries.skip(k - 1).skip(1) =~= all_entries.skip(k));
        assert(all_entries.skip(k - 1)[0] == w);
        assert(rest@ =~= all_entries.take(k - 1));
        if !is_dominated(&all, w.letters_present) {
            out.insert(0, w);
            assert(out@ =~= seq![w] + undominated(all_entries.skip(k), all@));
        }
    }
    assert(all_entries.skip(0) =~= all_entries);
    out
}

/// The names of a prefix of `ws` are no more than those of `ws`.
proof fn lemma_names_grow(ws: Seq<Word>, k: int, m: u32)
    requires
        0 <= k <= ws.len(),
    ensures
        names_with(ws.take(k), m).len() <= names_with(ws, m).len(),
    decreases ws.len(),
{
    if k == ws.len() {
        assert(ws.take(k) =~= ws);
    } else {
        assert(ws.drop_last().take(k) =~= ws.take(k));
        lemma_names_grow(ws.drop_last(), k, m);
    }
}

/// A solution holding a letter set that no entry has stands for no combination.
proof fn lemma_count_zero(entries: Seq<Word>, s: Seq<u32>, i: int)
    requires
        0 <= i < s.len(),
        multiplicity(entries, s[i]) == 0,
    ensures
        solution_count(entries, s) == 0,
    decreases s.len(),
{
    let a = solution_count(entries, s.drop_last());
    let c = multiplicity(entries, s.last());
    if i < s.len() - 1 {
        assert(s.drop_last()[i] == s[i]);
        lemma_count_zero(entries, s.drop_last(), i);
        assert(a == 0);
    } else {
        assert(c == 0);
    }
    assert(a == 0 || c == 0 ==> a * c == 0) by (nonlinear_arith);
}

/// With every multiplicity at least one, the count of a solution is at least one and at
/// least that of each prefix.
proof fn lemma_count_grows(entries: Seq<Word>, s: Seq<u32>, k: int)
    requires
        0 <= k <= s.len(),
        forall|i: int| 0 <= i < s.len() ==> multiplicity(entries, #[trigger] s[i]) >= 1,
    ensures
        solution_count(entries, s) >= 1,
        solution_count(entries, s.take(k)) <= solution_count(entries, s),
    decreases s.len(),
{
    if s.len() > 0 {
        let t = s.drop_last();
        assert forall|i: int| 0 <= i < t.len() implies multiplicity(entries, #[trigger] t[i]) >= 1 by {
            assert(t[i] == s[i]);
        }
        assert(s[s.len() - 1] == s.last());
        if k == s.len() {
            lemma_count_grows(entries, t, 0);
            assert(s.take(k) =~= s);
        } else {
            lemma_count_grows(entries, t, k);
            assert(t.take(k) =~= s.take(k));
        }
        let a = solution_count(entries, t.take(if k == s.len() { 0 } else { k }));
        let b = solution_count(entries, t);
        let c = multiplicity(entries, s.last());
        assert(b >= 1 && c >= 1 ==> b * c >= 1 && b * c >= b) by (nonlinear_arith);
    } else {
        assert(s.take(k) =~= s);
    }
}

/// The total of a prefix of the solutions is no more than the total of all of them.
proof fn lemma_total_grows(entries: Seq<Word>, sols: Seq<Solution>, k: int)
    requires
        0 <= k <= sols.len(),
    ensures
        total_count(entries, sols.take(k)) <= total_count(entries, sols),
    decreases sols.len(),
{
    if k == sols.len() {
        assert(sols.take(k) =~= sols);
    } else {
        assert(sols.drop_last().take(k) =~= sols.take(k));
        lemma_total_grows(entries, sols.drop_last(), k);
    }
}

/// The number of words of `entries` with letter set `m`; `None` when it passes `u64::MAX`.
pub fn entry_multiplicity(entries: &Vec<Word>, m: u32) -> (r: Option<u64>)
    ensures
        match r {
            Some(c) => c == multiplicity(entries@, m),
            None => multiplicity(entries@, m) > u64::MAX,
        },
{
    let mut acc: u64 = 0;
    let mut i: usize = 0;
    while i < entries.len()
        invariant
            i <= entries@.len(),
            acc == names_with(entries@.take(i as int), m).len(),
        decreases entries@.len() - i,
    {
        assert(entries@.take(i + 1).drop_last() =~= entries@.take(i as int));
        if entries[i].letters_present == m {
            let n = entries[i].names.len() as u64;
            match acc.checked_add(n) {
                Some(v) => {
                    acc = v;
                },
                None => {
                    proof {
                        lemma_names_grow(entries@, i + 1, m);
                    }
                    return None;
                },
            }
        }
        i = i + 1;
    }
    assert(entries@.take(entries@.len() as int) =~= entries@);
    Some(acc)
}

/// How many concrete word combinations `words` stands for: the product of the
/// multiplicities of its letter sets; `None` when it passes `u64::MAX`.
pub fn solution_multiplicity(entries: &Vec<Word>, words: &Vec<u32>) -> (r: Option<u64>)
    ensures
        match r {
            Some(c) => c == solution_count(entries@, words@),
            None => solution_count(entries@, words@) > u64::MAX,
        },
{
    let mut k: usize = 0;
    while k < words.len()
        invariant
            k <= words@.len(),
            forall|i: int| 0 <= i < k ==> multiplicity(entries@, #[trigger] words@[i]) >= 1,
        decreases words@.len() - k,
    {
        if let Some(0) = entry_multiplicity(entries, words[k]) {
            proof {
                lemma_count_zero(entries@, words@, k as int);
            }
            return Some(0);
        }
        k = k + 1;
    }
    let mut acc: u64 = 1;
    k = 0;
    while k < words.len()
        invariant
            k <= words@.len(),
            forall|i: int| 0 <= i < words@.len() ==> multiplicity(entries@, #[trigger] words@[i]) >= 1,
            acc == solution_count(entries@, words@.take(k as int)),
        decreases words@.len() - k,
    {
        let ghost t = words@.take(k + 1);
        assert(t.drop_last() =~= words@.take(k as int));
        assert(t.last() == words@[k as int]);
        proof {
            lemma_count_grows(entries@, words@, k + 1);
            lemma_count_grows(entries@, words@.take(k as int), 0);
            assert forall|i: int| 0 <= i < words@.take(k as int).len() implies multiplicity(entries@, #[trigger] words@.take(k as int)[i]) >= 1 by {
                assert(words@.take(k as int)[i] == words@[i]);
            }
        }
        match entry_multiplicity(entries, words[k]) {
            Some(f) => {
                match acc.checked_mul(f) {
                    Some(v) => {
                        acc = v;
                    },
                    None => {
                        return None;
                    },
                }
            },
            None => {
                proof {
                    let a = solution_count(entries@, words@.take(k as int));
                    let c = multiplicity(entries@, words@[k as int]);
                    assert(a >= 1 ==> a * c >= c) by (nonlinear_arith);
                }
                return None;
            },
        }
        k = k + 1;
    }
    assert(words@.take(words@.len() as int) =~= words@);
    Some(acc)
}

/// The number of concrete word combinations that `solutions` stand for: the sum over the
/// solutions of the product of the multiplicities of their letter sets; `None` when it
/// passes `u64::MAX`.
pub fn count_combinations(entries: &Vec<Word>, solutions: &Vec<Solution>) -> (r: Option<u64>)
    ensures
        match r {
            Some(c) => c == total_count(entries@, solutions@),
            None => total_count(entries@, solutions@) > u64::MAX,
        },
{
    let mut acc: u64 = 0;
    let mut i: usize = 0;
    while i < solutions.len()
        invariant
            i <= solutions@.len(),
            acc == total_count(entries@, solutions@.take(i as int)),
        decreases solutions@.len() - i,
    {
        let ghost t = solutions@.take(i + 1);
        assert(t.drop_last() =~= solutions@.take(i as int));
        assert(t.last() == solutions@[i as int]);
        proof {
            lemma_total_grows(entries@, solutions@, i + 1);
        }
        match solution_multiplicity(entries, &solutions[i].words) {
            Some(c) => {
                match acc.checked_add(c) {
                    Some(v) => {
                        acc = v;
                    },
                    None => {
                        return None;
                    },
                }
            },
            None => {
                return None;
            },
        }
        i = i + 1;
    }
    assert(solutions@.take(solutions@.len() as int) =~= solutions@);
    Some(acc)
}

} // verus!
