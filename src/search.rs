//! The letter bucket index and the backtracking search over it.
use vstd::prelude::*;
use itertools::Itertools;
use crate::mask::full_mask;
use crate::seqs::lemma_take_next_contains;
use crate::mask::{
    alphabet_mask, covers_alphabet, has_rank, lemma_cover_within_eq, lemma_covers_ranks,
    lemma_leading_ones, lemma_or_rank, lemma_or_within, lemma_union_concat, lemma_union_insert, lemma_union_member,
    lemma_union_rank, union_mask, within_alphabet,
};

verus! {

/// A word entry: every word of the corpus with one letter set, and that set as a mask.
pub struct Word {
    pub names: Vec<String>,
    pub letters_present: u32,
}

/// The masks of a list of word entries.
pub open spec fn masks_of(words: Seq<Word>) -> Seq<u32> {
    words.map_values(|w: Word| w.letters_present)
}

/// The masks of `ms` that hold the letter of rank `r`, in order.
pub open spec fn with_rank(ms: Seq<u32>, r: u32) -> Seq<u32>
    decreases ms.len(),
{
    if ms.len() == 0 {
        seq![]
    } else if has_rank(ms.last(), r) {
        with_rank(ms.drop_last(), r).push(ms.last())
    } else {
        with_rank(ms.drop_last(), r)
    }
}

/// Each mask of a bucket is one of the masks it was built from.
pub proof fn lemma_with_rank_member(ms: Seq<u32>, r: u32, j: int)
    requires
        0 <= j < with_rank(ms, r).len(),
    ensures
        ms.contains(with_rank(ms, r)[j]),
    decreases ms.len(),
{
    let t = ms.drop_last();
    if j < with_rank(t, r).len() {
        lemma_with_rank_member(t, r, j);
        let q = choose|q: int| 0 <= q < t.len() && t[q] == with_rank(t, r)[j];
        assert(ms[q] == t[q]);
    } else {
        assert(ms[ms.len() - 1] == ms.last());
    }
}

/// Each mask with the letter of rank `r` is in the bucket of `r`.
pub proof fn lemma_with_rank_contains(ms: Seq<u32>, r: u32, x: u32)
    requires
        ms.contains(x),
        has_rank(x, r),
    ensures
        with_rank(ms, r).contains(x),
    decreases ms.len(),
{
    let t = ms.drop_last();
    if x == ms.last() {
        assert(with_rank(ms, r).last() == x);
    } else {
        let q = choose|q: int| 0 <= q < ms.len() && ms[q] == x;
        assert(t[q] == x);
        lemma_with_rank_contains(t, r, x);
        let j = choose|j: int| 0 <= j < with_rank(t, r).len() && with_rank(t, r)[j] == x;
        if has_rank(ms.last(), r) {
            assert(with_rank(ms, r)[j] == x);
        }
    }
}

/// Whether `s` is a cover of an alphabet of `n` letters, in ascending order, from which no
/// entry can be left out.
pub open spec fn minimal_cover(s: Seq<u32>, n: u32) -> bool {
    &&& sorted_strict(s)
    &&& covers_alphabet(union_mask(s), n)
    &&& forall|i: int| 0 <= i < s.len() ==> !covers_alphabet(#[trigger] union_mask(s.remove(i)), n)
}

/// A list of distinct masks that covers the alphabet and whose masks all belong to a minimal
/// cover holds every mask of that cover.
proof fn lemma_minimal_subset(s: Seq<u32>, t: Seq<u32>, n: u32)
    requires
        n <= 32,
        minimal_cover(s, n),
        forall|x: u32| t.contains(x) ==> s.contains(x),
        covers_alphabet(union_mask(t), n),
    ensures
        forall|x: u32| s.contains(x) ==> t.contains(x),
{
    assert forall|x: u32| s.contains(x) implies t.contains(x) by {
        if !t.contains(x) {
            let i = choose|i: int| 0 <= i < s.len() && s[i] == x;
            let r = s.remove(i);
            lemma_covers_ranks(union_mask(t), n);
            assert forall|k: u32| k < n implies #[trigger] has_rank(union_mask(r), k) by {
                assert(has_rank(union_mask(t), k));
                lemma_union_rank(t, k);
                let j = choose|j: int| 0 <= j < t.len() && #[trigger] has_rank(t[j], k);
                let y = t[j];
                assert(t.contains(y));
                let q = choose|q: int| 0 <= q < s.len() && s[q] == y;
                assert(q != i);
                if q < i {
                    assert(r[q] == y);
                    assert(has_rank(r[q], k));
                } else {
                    assert(r[q - 1] == y);
                    assert(has_rank(r[q - 1], k));
                }
                lemma_union_rank(r, k);
            }
            lemma_covers_ranks(union_mask(r), n);
            assert(!covers_alphabet(union_mask(s.remove(i)), n));
        }
    }
}

/// A list of distinct masks inside another has at most its length, and at that length holds
/// all of it.
proof fn lemma_subset_len(t: Seq<u32>, s: Seq<u32>)
    requires
        t.no_duplicates(),
        s.no_duplicates(),
        forall|x: u32| t.contains(x) ==> s.contains(x),
    ensures
        t.len() <= s.len(),
        t.len() == s.len() ==> forall|x: u32| s.contains(x) ==> t.contains(x),
{
    t.unique_seq_to_set();
    s.unique_seq_to_set();
    assert(t.to_set().subset_of(s.to_set()));
    vstd::set_lib::lemma_len_subset(t.to_set(), s.to_set());
    if t.len() == s.len() {
        vstd::set_lib::lemma_subset_equality(t.to_set(), s.to_set());
        assert forall|x: u32| s.contains(x) implies t.contains(x) by {
            assert(s.to_set().contains(x));
        }
    }
}

/// A list that holds every mask of a cover is a cover too.
proof fn lemma_cover_transfer(s: Seq<u32>, t: Seq<u32>, n: u32)
    requires
        n <= 32,
        covers_alphabet(union_mask(s), n),
        forall|x: u32| s.contains(x) ==> t.contains(x),
    ensures
        covers_alphabet(union_mask(t), n),
{
    lemma_covers_ranks(union_mask(s), n);
    assert forall|k: u32| k < n implies #[trigger] has_rank(union_mask(t), k) by {
        assert(has_rank(union_mask(s), k));
        lemma_union_rank(s, k);
        let i = choose|i: int| 0 <= i < s.len() && #[trigger] has_rank(s[i], k);
        assert(s.contains(s[i]));
        let j = choose|j: int| 0 <= j < t.len() && t[j] == s[i];
        assert(has_rank(t[j], k));
        lemma_union_rank(t, k);
    }
    lemma_covers_ranks(union_mask(t), n);
}

/// Whether `s` is in strictly ascending order.
pub open spec fn sorted_strict(s: Seq<u32>) -> bool {
    forall|i: int, j: int| 0 <= i < j < s.len() ==> s[i] < s[j]
}

/// The entries that hold one letter.
pub struct WordsWithLetter {
    pub words: Vec<u32>,
}

impl WordsWithLetter {
    pub fn new() -> (r: WordsWithLetter)
        ensures
            r.words@.len() == 0,
    {
        WordsWithLetter { words: Vec::new() }
    }
}

/// One bucket per rank: bucket `r` holds the masks of the entries with the letter of rank `r`.
pub struct SearchStructure {
    pub search_structure: Vec<WordsWithLetter>,
}

/// A partial solution: the masks chosen so far, ascending, and the letters they cover.
pub struct Pangram {
    pub selected_words: Vec<u32>,
    pub selected_letters: u32,
}

/// A set of entries that covers the alphabet, as its masks in ascending order.
pub struct Solution {
    pub words: Vec<u32>,
}

/// What choosing one more entry makes of a partial solution.
pub enum PangramState {
    PotentialPangram(Pangram),
    FailedPangram,
    CompletePangram(Solution),
}

/// Whether `s` is a solution for an alphabet of `n` letters and at most `max` words.
pub open spec fn valid_solution(s: Seq<u32>, n: u32, max: nat) -> bool {
    &&& union_mask(s) == alphabet_mask(n)
    &&& 1 <= s.len() <= max
    &&& sorted_strict(s)
}

/// Copies `v` with `w` inserted at its place in ascending order.
fn insert_sorted(v: &Vec<u32>, w: u32) -> (r: Vec<u32>)
    requires
        sorted_strict(v@),
        !v@.contains(w),
    ensures
        sorted_strict(r@),
        r@.len() == v@.len() + 1,
        union_mask(r@) == union_mask(v@) | w,
        forall|x: u32| r@.contains(x) <==> v@.contains(x) || x == w,
{
    let mut r: Vec<u32> = Vec::new();
    let mut i: usize = 0;
    while i < v.len() && v[i] < w
        invariant
            i <= v@.len(),
            r@ == v@.take(i as int),
            forall|j: int| 0 <= j < i ==> v@[j] < w,
        decreases v@.len() - i,
    {
        r.push(v[i]);
        i = i + 1;
        assert(r@ =~= v@.take(i as int));
    }
    let p = i;
    r.push(w);
    while i < v.len()
        invariant
            p <= i <= v@.len(),
            r@ == v@.take(p as int) + seq![w] + v@.subrange(p as int, i as int),
        decreases v@.len() - i,
    {
        r.push(v[i]);
        i = i + 1;
        assert(r@ =~= v@.take(p as int) + seq![w] + v@.subrange(p as int, i as int));
    }
    assert(v@.subrange(p as int, v@.len() as int) =~= v@.skip(p as int));
    proof {
        lemma_union_insert(v@, p as int, w);
        if p < v@.len() {
            assert(v@[p as int] != w);
        }
        assert forall|a: int, b: int| 0 <= a < b < r@.len() implies r@[a] < r@[b] by {
            if b < p {
            } else if b == p {
            } else if a < p {
                assert(r@[b] == v@[b - 1]);
                assert(v@[p as int] > w);
            } else if a == p {
                assert(v@[p as int] > w);
            } else {
            }
        }
        assert forall|x: u32| r@.contains(x) <==> v@.contains(x) || x == w by {
            if v@.contains(x) {
                let j = choose|j: int| 0 <= j < v@.len() && v@[j] == x;
                if j < p {
                    assert(r@[j] == x);
                } else {
                    assert(r@[j + 1] == x);
                }
            }
            if x == w {
                assert(r@[p as int] == w);
            }
            if r@.contains(x) {
                let j = choose|j: int| 0 <= j < r@.len() && r@[j] == x;
                if j < p {
                    assert(v@[j] == x);
                } else if j > p {
                    assert(v@[j - 1] == x);
                }
            }
        }
    }
    r
}

/// A copy of `v` with `w` in front.
fn prepend(w: u32, v: &Vec<u32>) -> (r: Vec<u32>)
    ensures
        r@ == seq![w] + v@,
{
    let mut r: Vec<u32> = Vec::new();
    r.push(w);
    let mut i: usize = 0;
    while i < v.len()
        invariant
            i <= v@.len(),
            r@ == seq![w] + v@.take(i as int),
        decreases v@.len() - i,
    {
        r.push(v[i]);
        i = i + 1;
        assert(r@ =~= seq![w] + v@.take(i as int));
    }
    assert(v@.take(v@.len() as int) =~= v@);
    r
}

/// Putting `w` in front ORs it into the union.
proof fn lemma_union_prepend(v: Seq<u32>, w: u32)
    ensures
        union_mask(seq![w] + v) == union_mask(v) | w,
{
    lemma_union_concat(seq![w], v);
    assert(seq![w].drop_last() =~= Seq::<u32>::empty());
    assert(union_mask(Seq::<u32>::empty()) == 0);
    assert(union_mask(seq![w]) == 0u32 | w);
    let u = union_mask(v);
    assert((0u32 | w) | u == u | w) by (bit_vector);
}

/// Putting a new mask in front keeps the masks distinct.
proof fn lemma_no_dup_prepend(v: Seq<u32>, w: u32)
    requires
        v.no_duplicates(),
        !v.contains(w),
    ensures
        (seq![w] + v).no_duplicates(),
{
    let t = seq![w] + v;
    assert forall|a: int, b: int| 0 <= a < t.len() && 0 <= b < t.len() && a != b implies t[a] != t[b] by {
        if a > 0 && b > 0 {
            assert(t[a] == v[a - 1] && t[b] == v[b - 1]);
        } else if a == 0 {
            assert(t[b] == v[b - 1]);
        } else {
            assert(t[a] == v[a - 1]);
        }
    }
}

/// The masks of `v` in strictly ascending order.
fn sort_masks(v: &Vec<u32>) -> (r: Vec<u32>)
    requires
        v@.no_duplicates(),
    ensures
        sorted_strict(r@),
        r@.len() == v@.len(),
        union_mask(r@) == union_mask(v@),
        forall|x: u32| r@.contains(x) <==> v@.contains(x),
{
    let mut r: Vec<u32> = Vec::new();
    let mut i: usize = 0;
    while i < v.len()
        invariant
            i <= v@.len(),
            v@.no_duplicates(),
            sorted_strict(r@),
            r@.len() == i,
            union_mask(r@) == union_mask(v@.take(i as int)),
            forall|x: u32| r@.contains(x) <==> v@.take(i as int).contains(x),
        decreases v@.len() - i,
    {
        let ghost t0 = v@.take(i as int);
        let ghost t1 = v@.take(i + 1);
        assert(t1.drop_last() =~= t0);
        assert(t1.last() == v@[i as int]);
        assert(!t0.contains(v@[i as int])) by {
            if t0.contains(v@[i as int]) {
                let q = choose|q: int| 0 <= q < t0.len() && t0[q] == v@[i as int];
                assert(v@[q] == v@[i as int]);
            }
        }
        r = insert_sorted(&r, v[i]);
        assert forall|x: u32| r@.contains(x) <==> t1.contains(x) by {
            lemma_take_next_contains(v@, i as int, x);
        }
        i = i + 1;
    }
    assert(v@.take(v@.len() as int) =~= v@);
    r
}

impl Pangram {
    /// The partial solution is well formed for an alphabet of `n` letters.
    pub open spec fn wf(&self, n: u32) -> bool {
        &&& self.selected_letters == union_mask(self.selected_words@)
        &&& self.selected_words@.no_duplicates()
        &&& within_alphabet(self.selected_letters, n)
    }

    /// The empty partial solution.
    pub fn new() -> (r: Pangram)
        ensures
            r.selected_words@.len() == 0,
            r.selected_letters == 0,
            forall|n: u32| n <= 32 ==> r.wf(n),
    {
        let r = Pangram { selected_words: Vec::new(), selected_letters: 0 };
        assert forall|n: u32| n <= 32 implies r.wf(n) by {
            assert(0u32 & !(!0u32 << ((32 - n) as u32)) == 0) by (bit_vector);
        }
        r
    }

    /// The lowest rank that no chosen entry holds (32 when every bit is set).
    pub fn next_missing_letter(&self) -> (r: usize)
        ensures
            r <= 32,
            r < 32 ==> !has_rank(self.selected_letters, r as u32),
            forall|k: u32| k < r ==> #[trigger] has_rank(self.selected_letters, k),
    {
        proof {
            lemma_leading_ones(self.selected_letters, 32);
        }
        self.selected_letters.leading_ones() as usize
    }

    /// Extends the partial solution by `new_word`, an entry holding its next missing letter:
    /// complete when the alphabet of `number_of_letters` letters is covered, failed when
    /// `max_solution_size` words are reached without that, else a longer partial solution.
    pub fn check_with(&self, new_word: u32, number_of_letters: usize, max_solution_size: usize) -> (r: PangramState)
        requires
            number_of_letters <= 32,
            self.wf(number_of_letters as u32),
            within_alphabet(new_word, number_of_letters as u32),
            has_rank(new_word, self.selected_letters.leading_ones()),
            self.selected_letters.leading_ones() < 32,
            self.selected_words@.len() < max_solution_size,
        ensures
            ({
                let n = number_of_letters as u32;
                let letters = self.selected_letters | new_word;
                match r {
                    PangramState::CompletePangram(s) => {
                        &&& covers_alphabet(letters, n)
                        &&& union_mask(s.words@) == letters
                        &&& sorted_strict(s.words@)
                        &&& s.words@.len() == self.selected_words@.len() + 1
                        &&& forall|x: u32| s.words@.contains(x) <==> self.selected_words@.contains(x) || x == new_word
                    },
                    PangramState::FailedPangram => {
                        &&& !covers_alphabet(letters, n)
                        &&& self.selected_words@.len() + 1 >= max_solution_size
                    },
                    PangramState::PotentialPangram(p) => {
                        &&& !covers_alphabet(letters, n)
                        &&& self.selected_words@.len() + 1 < max_solution_size
                        &&& p.wf(n)
                        &&& p.selected_letters == letters
                        &&& p.selected_words@ == seq![new_word] + self.selected_words@
                    },
                }
            }),
    {
        let ghost n = number_of_letters as u32;
        let new_selected_letters = self.selected_letters | new_word;
        proof {
            let lo = self.selected_letters.leading_ones();
            lemma_leading_ones(self.selected_letters, 32);
            lemma_leading_ones(new_selected_letters, n);
            lemma_or_within(self.selected_letters, new_word, alphabet_mask(n));
            if self.selected_words@.contains(new_word) {
                let j = choose|j: int| 0 <= j < self.selected_words@.len() && self.selected_words@[j] == new_word;
                lemma_union_member(self.selected_words@, j);
                lemma_or_rank(self.selected_letters, new_word, lo);
            }
            lemma_union_prepend(self.selected_words@, new_word);
            lemma_no_dup_prepend(self.selected_words@, new_word);
        }
        let ghost sel = self.selected_words@;
        if new_selected_letters.leading_ones() as usize >= number_of_letters {
            let words = prepend(new_word, &self.selected_words);
            let words = sort_masks(&words);
            assert forall|x: u32| words@.contains(x) <==> sel.contains(x) || x == new_word by {
                let t = seq![new_word] + sel;
                if t.contains(x) && x != new_word {
                    let q = choose|q: int| 0 <= q < t.len() && t[q] == x;
                    assert(sel[q - 1] == x);
                }
                if sel.contains(x) {
                    let q = choose|q: int| 0 <= q < sel.len() && sel[q] == x;
                    assert(t[q + 1] == x);
                }
                assert(t[0] == new_word);
            }
            PangramState::CompletePangram(Solution { words })
        } else if self.selected_words.len() + 1 >= max_solution_size {
            PangramState::FailedPangram
        } else {
            let words = prepend(new_word, &self.selected_words);
            PangramState::PotentialPangram(Pangram { selected_words: words, selected_letters: new_selected_letters })
        }
    }
}

/// Two strictly ascending mask lists with the same masks are the same list, so solutions
/// that differ as lists also differ as sets of entries.
pub proof fn solutions_equal_as_sets(a: Seq<u32>, b: Seq<u32>)
    requires
        sorted_strict(a),
        sorted_strict(b),
        forall|x: u32| a.contains(x) <==> b.contains(x),
    ensures
        a == b,
    decreases a.len() + b.len(),
{
    if a.len() == 0 || b.len() == 0 {
        if a.len() > 0 {
            assert(b.contains(a[0]));
        }
        if b.len() > 0 {
            assert(a.contains(b[0]));
        }
        assert(a =~= b);
    } else {
        assert(a.contains(b[0]));
        assert(b.contains(a[0]));
        let i = choose|i: int| 0 <= i < a.len() && a[i] == b[0];
        let j = choose|j: int| 0 <= j < b.len() && b[j] == a[0];
        assert(a[0] == b[0]) by {
            if i > 0 {
                assert(a[0] < a[i]);
                if j > 0 {
                    assert(b[0] < b[j]);
                }
            }
        }
        let (ta, tb) = (a.skip(1), b.skip(1));
        assert forall|x: u32| ta.contains(x) <==> tb.contains(x) by {
            if ta.contains(x) {
                let k = choose|k: int| 0 <= k < ta.len() && ta[k] == x;
                assert(a[k + 1] == x);
                assert(b.contains(x));
                let q = choose|q: int| 0 <= q < b.len() && b[q] == x;
                if q == 0 {
                    assert(a[0] < a[k + 1]);
                }
                assert(tb[q - 1] == x);
            }
            if tb.contains(x) {
                let k = choose|k: int| 0 <= k < tb.len() && tb[k] == x;
                assert(b[k + 1] == x);
                assert(a.contains(x));
                let q = choose|q: int| 0 <= q < a.len() && a[q] == x;
                if q == 0 {
                    assert(b[0] < b[k + 1]);
                }
                assert(ta[q - 1] == x);
            }
        }
        solutions_equal_as_sets(ta, tb);
        assert(a =~= seq![a[0]] + ta);
        assert(b =~= seq![b[0]] + tb);
    }
}

/// The mask lists of a list of solutions.
pub open spec fn solution_views(s: Seq<Solution>) -> Seq<Seq<u32>> {
    s.map_values(|x: Solution| x.words@)
}

/// The elements of `s` at their first occurrence, in order.
pub open spec fn first_occurrences(s: Seq<Seq<u32>>) -> Seq<Seq<u32>>
    decreases s.len(),
{
    if s.len() == 0 {
        seq![]
    } else {
        let p = first_occurrences(s.drop_last());
        if p.contains(s.last()) {
            p
        } else {
            p.push(s.last())
        }
    }
}

/// The first occurrences hold no element twice, and hold exactly the elements of `s`.
pub proof fn lemma_first_occurrences(s: Seq<Seq<u32>>)
    ensures
        first_occurrences(s).no_duplicates(),
        forall|x: Seq<u32>| #[trigger] first_occurrences(s).contains(x) <==> s.contains(x),
    decreases s.len(),
{
    if s.len() > 0 {
        let t = s.drop_last();
        let l = s.last();
        let p = first_occurrences(t);
        lemma_first_occurrences(t);
        assert(s =~= t.push(l));
        assert forall|x: Seq<u32>| #[trigger] first_occurrences(s).contains(x) <==> s.contains(x) by {
            assert(s.contains(x) <==> t.contains(x) || x == l) by {
                if s.contains(x) && x != l {
                    let j = choose|j: int| 0 <= j < s.len() && s[j] == x;
                    assert(t[j] == x);
                }
                if t.contains(x) {
                    let j = choose|j: int| 0 <= j < t.len() && t[j] == x;
                    assert(s[j] == x);
                }
                assert(s[s.len() - 1] == l);
            }
            if !p.contains(l) {
                assert(p.push(l).contains(x) <==> p.contains(x) || x == l) by {
                    if p.push(l).contains(x) && x != l {
                        let j = choose|j: int| 0 <= j < p.len() + 1 && p.push(l)[j] == x;
                        assert(p[j] == x);
                    }
                    if p.contains(x) {
                        let j = choose|j: int| 0 <= j < p.len() && p[j] == x;
                        assert(p.push(l)[j] == x);
                    }
                    assert(p.push(l)[p.len() as int] == l);
                }
            }
        }
    }
}

/// Solutions already found stay found when more are appended.
proof fn lemma_views_prefix(a: Seq<Solution>, b: Seq<Solution>, s: Seq<u32>)
    requires
        a.len() <= b.len(),
        b.take(a.len() as int) == a,
        solution_views(a).contains(s),
    ensures
        solution_views(b).contains(s),
{
    let q = choose|q: int| 0 <= q < solution_views(a).len() && solution_views(a)[q] == s;
    assert(b[q] == b.take(a.len() as int)[q]);
    assert(solution_views(b)[q] == s);
}

/// Relies on itertools' `Itertools::unique_by`, keyed by the mask list: it keeps each
/// solution at the first occurrence of its mask list, in order.
#[verifier::external_body]
fn unique_solutions(v: Vec<Solution>) -> (r: Vec<Solution>)
    ensures
        solution_views(r@) == first_occurrences(solution_views(v@)),
{
    v.into_iter().unique_by(|s| s.words.clone()).collect()
}

/// The bitwise OR of the masks of `v`.
fn union_of(v: &Vec<u32>) -> (r: u32)
    ensures
        r == union_mask(v@),
{
    let mut acc: u32 = 0;
    let mut i: usize = 0;
    while i < v.len()
        invariant
            i <= v@.len(),
            acc == union_mask(v@.take(i as int)),
        decreases v@.len() - i,
    {
        assert(v@.take(i + 1).drop_last() =~= v@.take(i as int));
        acc = acc | v[i];
        i = i + 1;
    }
    assert(v@.take(v@.len() as int) =~= v@);
    acc
}

/// A copy of `v` without its mask at position `i`.
fn without(v: &Vec<u32>, i: usize) -> (r: Vec<u32>)
    requires
        i < v@.len(),
    ensures
        r@ == v@.remove(i as int),
{
    let mut r: Vec<u32> = Vec::new();
    let mut j: usize = 0;
    while j < v.len()
        invariant
            i < v@.len(),
            j <= v@.len(),
            r@ == (if j <= i { v@.take(j as int) } else { v@.take(j as int).remove(i as int) }),
        decreases v@.len() - j,
    {
        if j != i {
            r.push(v[j]);
        }
        j = j + 1;
        assert(r@ =~= (if j <= i { v@.take(j as int) } else { v@.take(j as int).remove(i as int) }));
    }
    assert(v@.take(v@.len() as int) =~= v@);
    r
}

/// Whether no mask can be left out of the ascending cover `words` of an alphabet of
/// `number_of_letters` letters.
pub fn is_minimal_cover(words: &Vec<u32>, number_of_letters: usize) -> (r: bool)
    requires
        number_of_letters <= 32,
        sorted_strict(words@),
        covers_alphabet(union_mask(words@), number_of_letters as u32),
    ensures
        r == minimal_cover(words@, number_of_letters as u32),
{
    let full = full_mask(number_of_letters);
    let mut i: usize = 0;
    while i < words.len()
        invariant
            i <= words@.len(),
            number_of_letters <= 32,
            full == alphabet_mask(number_of_letters as u32),
            forall|j: int| 0 <= j < i ==> !covers_alphabet(#[trigger] union_mask(words@.remove(j)), number_of_letters as u32),
        decreases words@.len() - i,
    {
        let rest = without(words, i);
        let u = union_of(&rest);
        if u & full == full {
            return false;
        }
        i = i + 1;
    }
    true
}

/// Whether two mask lists are equal.
fn same_masks(a: &Vec<u32>, b: &Vec<u32>) -> (r: bool)
    ensures
        r == (a@ == b@),
{
    if a.len() != b.len() {
        return false;
    }
    let mut i: usize = 0;
    while i < a.len()
        invariant
            a@.len() == b@.len(),
            i <= a@.len(),
            forall|j: int| 0 <= j < i ==> a@[j] == b@[j],
        decreases a@.len() - i,
    {
        if a[i] != b[i] {
            return false;
        }
        i = i + 1;
    }
    assert(a@ =~= b@);
    true
}

/// Whether some solution of `pangrams` has exactly the masks `words`.
fn holds_solution(pangrams: &Vec<Solution>, words: &Vec<u32>) -> (r: bool)
    ensures
        r == solution_views(pangrams@).contains(words@),
{
    let mut i: usize = 0;
    while i < pangrams.len()
        invariant
            i <= pangrams@.len(),
            forall|j: int| 0 <= j < i ==> solution_views(pangrams@)[j] != words@,
        decreases pangrams@.len() - i,
    {
        if same_masks(&pangrams[i].words, words) {
            assert(solution_views(pangrams@)[i as int] == words@);
            return true;
        }
        i = i + 1;
    }
    false
}

impl SearchStructure {
    /// The number of letters of the alphabet: one bucket each.
    pub open spec fn letters(&self) -> u32 {
        self.search_structure@.len() as u32
    }

    /// Whether `m` is in some bucket of the index.
    pub open spec fn holds(&self, m: u32) -> bool {
        exists|r: int, j: int|
            0 <= r < self.search_structure@.len() && 0 <= j < self.search_structure@[r].words@.len()
                && #[trigger] self.search_structure@[r].words@[j] == m
    }

    /// Whether every mask of `s` is in some bucket of the index.
    pub open spec fn from_index(&self, s: Seq<u32>) -> bool {
        forall|x: u32| s.contains(x) ==> self.holds(x)
    }

    /// Every entry of the index is in the bucket of each of its letters.
    pub open spec fn complete(&self) -> bool {
        forall|r: int, x: u32|
            0 <= r < self.search_structure@.len() && self.holds(x) && has_rank(x, r as u32)
                ==> #[trigger] self.search_structure@[r].words@.contains(x)
    }

    /// Whether the search owes the solution `s` to a partial solution that chose `sel`:
    /// `s` is a minimal cover of entries of the index, within the bound, holding `sel`.
    pub open spec fn owed(&self, s: Seq<u32>, sel: Seq<u32>, max: nat) -> bool {
        &&& minimal_cover(s, self.letters())
        &&& 1 <= s.len() <= max
        &&& self.from_index(s)
        &&& forall|x: u32| sel.contains(x) ==> s.contains(x)
    }

    /// No bucket holds an entry.
    pub open spec fn is_empty(&self) -> bool {
        forall|r: int| 0 <= r < self.search_structure@.len() ==> (#[trigger] self.search_structure@[r]).words@.len() == 0
    }

    /// Every bucket holds only entries within the alphabet that have the bucket's letter.
    pub open spec fn wf(&self) -> bool {
        &&& self.search_structure@.len() <= 32
        &&& forall|r: int, j: int|
            0 <= r < self.search_structure@.len() && 0 <= j < self.search_structure@[r].words@.len()
                ==> {
                let m = #[trigger] self.search_structure@[r].words@[j];
                has_rank(m, r as u32) && within_alphabet(m, self.letters())
            }
    }

    /// Builds one bucket per rank below `number_of_letters`; bucket `r` holds the masks of
    /// the entries that have the letter of rank `r`, in the order of `words`.
    pub fn build(number_of_letters: usize, words: &Vec<Word>) -> (r: SearchStructure)
        requires
            number_of_letters <= 32,
            forall|i: int| 0 <= i < words@.len() ==> within_alphabet(#[trigger] words@[i].letters_present, number_of_letters as u32),
        ensures
            r.wf(),
            r.complete(),
            r.search_structure@.len() == number_of_letters,
            forall|k: int| 0 <= k < number_of_letters ==> #[trigger] r.search_structure@[k].words@
                == with_rank(masks_of(words@), k as u32),
    {
        let ghost ms = masks_of(words@);
        let mut output: Vec<WordsWithLetter> = Vec::new();
        let mut letter: usize = 0;
        while letter < number_of_letters
            invariant
                letter <= number_of_letters <= 32,
                output@.len() == letter,
                ms == masks_of(words@),
                forall|i: int| 0 <= i < words@.len() ==> within_alphabet(#[trigger] words@[i].letters_present, number_of_letters as u32),
                forall|k: int| 0 <= k < letter ==> #[trigger] output@[k].words@ == with_rank(ms, k as u32),
                forall|k: int, j: int| 0 <= k < letter && 0 <= j < output@[k].words@.len() ==> {
                    let m = #[trigger] output@[k].words@[j];
                    has_rank(m, k as u32) && within_alphabet(m, number_of_letters as u32)
                },
            decreases number_of_letters - letter,
        {
            let mut bucket = WordsWithLetter::new();
            let mut i: usize = 0;
            while i < words.len()
                invariant
                    i <= words@.len(),
                    letter < 32,
                    ms == masks_of(words@),
                    forall|i: int| 0 <= i < words@.len() ==> within_alphabet(#[trigger] words@[i].letters_present, number_of_letters as u32),
                    bucket.words@ == with_rank(ms.take(i as int), letter as u32),
                    forall|j: int| 0 <= j < bucket.words@.len() ==> {
                        let m = #[trigger] bucket.words@[j];
                        has_rank(m, letter as u32) && within_alphabet(m, number_of_letters as u32)
                    },
                decreases words@.len() - i,
            {
                let m = words[i].letters_present;
                let shift = (31 - letter) as u32;
                assert(ms.take(i + 1).drop_last() =~= ms.take(i as int));
                if (m >> shift) & 1 == 1 {
                    bucket.words.push(m);
                }
                i = i + 1;
            }
            assert(ms.take(words@.len() as int) =~= ms);
            output.push(bucket);
            letter = letter + 1;
        }
        let r = SearchStructure { search_structure: output };
        assert forall|k: int, x: u32|
            0 <= k < r.search_structure@.len() && r.holds(x) && has_rank(x, k as u32)
                implies #[trigger] r.search_structure@[k].words@.contains(x) by {
            let (q, j) = choose|q: int, j: int| 0 <= q < r.search_structure@.len() && 0 <= j < r.search_structure@[q].words@.len()
                && #[trigger] r.search_structure@[q].words@[j] == x;
            lemma_with_rank_member(ms, q as u32, j);
            lemma_with_rank_contains(ms, k as u32, x);
        }
        r
    }

    /// Extends `current_pangram` in every way the search allows, appending each solution
    /// found to `pangrams`.
    pub fn find_pangrams(&self, current_pangram: Pangram, pangrams: Vec<Solution>, max_solution_size: usize) -> (r: Vec<Solution>)
        requires
            self.wf(),
            current_pangram.wf(self.letters()),
            !covers_alphabet(current_pangram.selected_letters, self.letters()),
            current_pangram.selected_words@.len() < max_solution_size,
            self.from_index(current_pangram.selected_words@),
            self.complete(),
            solution_views(pangrams@).no_duplicates(),
        ensures
            r@.len() >= pangrams@.len(),
            solution_views(r@).no_duplicates(),
            forall|i: int| pangrams@.len() <= i < r@.len() ==> minimal_cover(#[trigger] r@[i].words@, self.letters()),
            r@.take(pangrams@.len() as int) == pangrams@,
            forall|i: int| pangrams@.len() <= i < r@.len() ==> valid_solution(#[trigger] r@[i].words@, self.letters(), max_solution_size as nat),
            self.is_empty() ==> r@ == pangrams@,
            forall|i: int| pangrams@.len() <= i < r@.len() ==> self.from_index(#[trigger] r@[i].words@),
            forall|s: Seq<u32>| self.owed(s, current_pangram.selected_words@, max_solution_size as nat)
                ==> #[trigger] solution_views(r@).contains(s),
        decreases max_solution_size - current_pangram.selected_words@.len(),
    {
        let ghost n = self.letters();
        let number_of_letters = self.search_structure.len();
        let mut pangrams = pangrams;
        let ghost start = pangrams@;
        let ghost sel = current_pangram.selected_words@;
        let letter = current_pangram.next_missing_letter();
        proof {
            lemma_leading_ones(current_pangram.selected_letters, n);
        }
        let bucket = &self.search_structure[letter].words;
        let mut k: usize = 0;
        while k < bucket.len()
            invariant
                self.wf(),
                n == self.letters(),
                number_of_letters == n,
                letter < n,
                letter == current_pangram.selected_letters.leading_ones(),
                *bucket == self.search_structure@[letter as int].words,
                current_pangram.wf(n),
                current_pangram.selected_words@.len() < max_solution_size,
                k <= bucket@.len(),
                pangrams@.len() >= start.len(),
                pangrams@.take(start.len() as int) == start,
                forall|i: int| start.len() <= i < pangrams@.len() ==> valid_solution(#[trigger] pangrams@[i].words@, n, max_solution_size as nat),
                self.is_empty() ==> pangrams@ == start,
                self.from_index(current_pangram.selected_words@),
                forall|i: int| start.len() <= i < pangrams@.len() ==> self.from_index(#[trigger] pangrams@[i].words@),
                self.complete(),
                sel == current_pangram.selected_words@,
                solution_views(pangrams@).no_duplicates(),
                forall|i: int| start.len() <= i < pangrams@.len() ==> minimal_cover(#[trigger] pangrams@[i].words@, n),
                forall|s: Seq<u32>| self.owed(s, sel, max_solution_size as nat) && (exists|j: int| 0 <= j < k
                    && s.contains(#[trigger] bucket@[j])) ==> #[trigger] solution_views(pangrams@).contains(s),
            decreases bucket@.len() - k,
        {
            let new_word = bucket[k];
            let ghost before_all = pangrams@;
            let ghost max = max_solution_size as nat;
            proof {
                assert(has_rank(new_word, letter as u32));
                if sel.contains(new_word) {
                    let j = choose|j: int| 0 <= j < sel.len() && sel[j] == new_word;
                    lemma_union_member(sel, j);
                    lemma_or_rank(current_pangram.selected_letters, new_word, letter as u32);
                }
            }
            assert(self.is_empty() ==> self.search_structure@[letter as int].words@.len() == 0);
            assert(self.search_structure@[letter as int].words@[k as int] == new_word);
            assert(self.holds(new_word));
            match current_pangram.check_with(new_word, number_of_letters, max_solution_size) {
                PangramState::CompletePangram(solution) => {
                    proof {
                        lemma_or_within(current_pangram.selected_letters, new_word, alphabet_mask(n));
                        lemma_cover_within_eq(current_pangram.selected_letters | new_word, alphabet_mask(n));
                    }
                    let ghost before = pangrams@;
                    let ghost sol = solution.words@;
                    if is_minimal_cover(&solution.words, number_of_letters) && !holds_solution(&pangrams, &solution.words) {
                        pangrams.push(solution);
                        assert(pangrams@.take(start.len() as int) =~= before.take(start.len() as int));
                        assert(pangrams@.take(before.len() as int) =~= before);
                        assert(solution_views(pangrams@) =~= solution_views(before).push(sol));
                        assert forall|i: int| start.len() <= i < pangrams@.len() implies minimal_cover(#[trigger] pangrams@[i].words@, n) by {
                            if i < before.len() {
                                assert(pangrams@[i] == before[i]);
                            }
                        }
                        assert forall|s: Seq<u32>| self.owed(s, sel, max) && (exists|j: int| 0 <= j < k + 1
                            && s.contains(#[trigger] bucket@[j])) implies #[trigger] solution_views(pangrams@).contains(s) by {
                            if s.contains(new_word) {
                                lemma_minimal_subset(s, sol, n);
                                solutions_equal_as_sets(sol, s);
                                assert(solution_views(pangrams@)[before.len() as int] == s);
                            } else {
                                let j = choose|j: int| 0 <= j < k + 1 && s.contains(#[trigger] bucket@[j]);
                                assert(j < k);
                                lemma_views_prefix(before, pangrams@, s);
                            }
                        }
                    } else {
                        assert forall|s: Seq<u32>| self.owed(s, sel, max) && (exists|j: int| 0 <= j < k + 1
                            && s.contains(#[trigger] bucket@[j])) implies #[trigger] solution_views(pangrams@).contains(s) by {
                            if s.contains(new_word) {
                                lemma_minimal_subset(s, sol, n);
                                solutions_equal_as_sets(sol, s);
                            } else {
                                let j = choose|j: int| 0 <= j < k + 1 && s.contains(#[trigger] bucket@[j]);
                                assert(j < k);
                            }
                        }
                    }
                },
                PangramState::FailedPangram => {
                    assert forall|s: Seq<u32>| self.owed(s, sel, max) && (exists|j: int| 0 <= j < k + 1
                        && s.contains(#[trigger] bucket@[j])) implies #[trigger] solution_views(pangrams@).contains(s) by {
                        if s.contains(new_word) {
                            let t = sel.push(new_word);
                            assert(t.drop_last() =~= sel);
                            assert forall|x: u32| t.contains(x) implies s.contains(x) by {
                                let q = choose|q: int| 0 <= q < t.len() && t[q] == x;
                                if q < sel.len() {
                                    assert(sel[q] == x);
                                }
                            }
                            assert(t.no_duplicates()) by {
                                assert forall|a: int, b: int| 0 <= a < t.len() && 0 <= b < t.len() && a != b implies t[a] != t[b] by {
                                    if a < sel.len() && b < sel.len() {
                                        assert(sel[a] != sel[b]);
                                    } else if a < sel.len() {
                                        assert(sel.contains(t[a]));
                                    } else {
                                        assert(sel.contains(t[b]));
                                    }
                                }
                            }
                            assert(s.no_duplicates());
                            lemma_subset_len(t, s);
                            lemma_cover_transfer(s, t, n);
                        } else {
                            let j = choose|j: int| 0 <= j < k + 1 && s.contains(#[trigger] bucket@[j]);
                            assert(j < k);
                        }
                    }
                },
                PangramState::PotentialPangram(potential_solution) => {
                    let ghost before = pangrams@;
                    pangrams = self.find_pangrams(potential_solution, pangrams, max_solution_size);
                    assert(pangrams@.take(start.len() as int) =~= before.take(start.len() as int));
                    assert forall|i: int| start.len() <= i < pangrams@.len() implies valid_solution(#[trigger] pangrams@[i].words@, n, max_solution_size as nat) && self.from_index(pangrams@[i].words@) && minimal_cover(pangrams@[i].words@, n) by {
                        if i < before.len() {
                            assert(pangrams@[i] == pangrams@.take(before.len() as int)[i]);
                        }
                    }
                    assert forall|s: Seq<u32>| self.owed(s, sel, max) && (exists|j: int| 0 <= j < k + 1
                        && s.contains(#[trigger] bucket@[j])) implies #[trigger] solution_views(pangrams@).contains(s) by {
                        if s.contains(new_word) {
                            assert(self.owed(s, potential_solution.selected_words@, max));
                        } else {
                            let j = choose|j: int| 0 <= j < k + 1 && s.contains(#[trigger] bucket@[j]);
                            assert(j < k);
                            lemma_views_prefix(before, pangrams@, s);
                        }
                    }
                },
            }
            k = k + 1;
        }
        assert forall|s: Seq<u32>| self.owed(s, sel, max_solution_size as nat) implies #[trigger] solution_views(pangrams@).contains(s) by {
            lemma_covers_ranks(union_mask(s), n);
            assert(has_rank(union_mask(s), letter as u32));
            lemma_union_rank(s, letter as u32);
            let i = choose|i: int| 0 <= i < s.len() && #[trigger] has_rank(s[i], letter as u32);
            assert(s.contains(s[i]));
            assert(self.holds(s[i]));
            assert(self.search_structure@[letter as int].words@.contains(s[i]));
            let j = choose|j: int| 0 <= j < bucket@.len() && bucket@[j] == s[i];
            assert(s.contains(bucket@[j]));
        }
        pangrams
    }

    /// Every distinct solution of at most `max_solution_size` words that the search finds,
    /// each once; among them every minimal cover of at most that many entries.
    pub fn find_all_pangrams(&self, max_solution_size: usize) -> (r: Vec<Solution>)
        requires
            self.wf(),
            self.complete(),
            max_solution_size >= 1,
        ensures
            forall|i: int| 0 <= i < r@.len() ==> valid_solution(#[trigger] r@[i].words@, self.letters(), max_solution_size as nat),
            forall|i: int, j: int| 0 <= i < j < r@.len() ==> r@[i].words@ != r@[j].words@,
            self.letters() == 0 ==> r@.len() == 0,
            self.is_empty() ==> r@.len() == 0,
            forall|i: int| 0 <= i < r@.len() ==> self.from_index(#[trigger] r@[i].words@),
            forall|s: Seq<u32>| #[trigger] solution_views(r@).contains(s) <==> self.owed(s, seq![], max_solution_size as nat),
    {
        if self.search_structure.len() == 0 {
            proof {
                assert forall|s: Seq<u32>| self.owed(s, seq![], max_solution_size as nat) implies #[trigger] solution_views(Seq::<Solution>::empty()).contains(s) by {
                    let x = union_mask(s.remove(0));
                    assert(covers_alphabet(x, 0)) by (bit_vector);
                    assert(self.letters() == 0);
                }
            }
            return Vec::new();
        }
        let ghost n = self.letters();
        let start = Pangram::new();
        assert(!covers_alphabet(0u32, n)) by {
            assert(1 <= n <= 32 ==> 0u32 & (!0u32 << ((32 - n) as u32)) != (!0u32 << ((32 - n) as u32))) by (bit_vector);
        }
        let all = self.find_pangrams(start, Vec::new(), max_solution_size);
        let ghost all_views = solution_views(all@);
        let r = unique_solutions(all);
        proof {
            lemma_first_occurrences(all_views);
            assert(start.selected_words@ =~= seq![]);
            assert forall|s: Seq<u32>| #[trigger] solution_views(r@).contains(s) <==> self.owed(s, seq![], max_solution_size as nat) by {
                if self.owed(s, seq![], max_solution_size as nat) {
                    assert(self.owed(s, start.selected_words@, max_solution_size as nat));
                    assert(all_views.contains(s));
                }
                if solution_views(r@).contains(s) {
                    assert(first_occurrences(all_views).contains(s));
                    let i = choose|i: int| 0 <= i < all_views.len() && all_views[i] == s;
                    assert(all@.take(0) =~= seq![]);
                    assert(all_views[i] == all@[i].words@);
                    assert(valid_solution(all@[i].words@, n, max_solution_size as nat));
                    assert(self.from_index(all@[i].words@));
                    assert(minimal_cover(all@[i].words@, n));
                }
            }
            if self.is_empty() {
                assert(all_views =~= Seq::<Seq<u32>>::empty());
                assert(solution_views(r@).len() == 0);
            }
            assert forall|i: int| 0 <= i < r@.len() implies valid_solution(#[trigger] r@[i].words@, n, max_solution_size as nat) && self.from_index(r@[i].words@) by {
                let x = r@[i].words@;
                assert(solution_views(r@)[i] == x);
                assert(first_occurrences(all_views).contains(x));
                let j = choose|j: int| 0 <= j < all_views.len() && all_views[j] == x;
                assert(all@.take(0) =~= seq![]);
                assert(valid_solution(all@[j].words@, n, max_solution_size as nat));
                assert(self.from_index(all@[j].words@));
            }
            assert forall|i: int, j: int| 0 <= i < j < r@.len() implies r@[i].words@ != r@[j].words@ by {
                assert(solution_views(r@)[i] == r@[i].words@);
                assert(solution_views(r@)[j] == r@[j].words@);
            }
        }
        r
    }
}

} // verus!
