//! From a word list to the number of word combinations that cover its alphabet.
use vstd::prelude::*;
use crate::mask::{
    covers_alphabet, has_rank, lemma_covers_ranks, lemma_rank_ext, lemma_union_rank, union_mask,
    within_alphabet,
};
use crate::search::{
    lemma_with_rank_contains, lemma_with_rank_member, masks_of, minimal_cover, solution_views,
    valid_solution, with_rank, SearchStructure, Solution, Word,
};
use crate::tally::{
    count_combinations, dominated, merge_anagrams, names_with, prune_dominated, total_count,
    undominated,
};
use crate::seqs::lemma_push_contains;
use crate::text::{encodes, letters_only, trim_of, upper_of, SanitizedString};

verus! {

/// Why a configuration is refused.
#[derive(Debug, PartialEq, Eq, Structural)]
pub enum ConfigError {
    /// A solution must be allowed at least one word.
    ZeroSolutionSize,
}

/// How a search runs: the most words a solution may have, and whether every entry is
/// kept (`true`) or entries dominated by another entry are dropped first (`false`).
pub struct Config {
    pub max_solution_size: usize,
    pub exhaustive_search: bool,
}

impl Config {
    /// A configuration; refused when `max_solution_size` is zero.
    pub fn new(max_solution_size: usize, exhaustive_search: bool) -> (r: Result<Config, ConfigError>)
        ensures
            match r {
                Ok(c) => max_solution_size >= 1 && c.max_solution_size == max_solution_size
                    && c.exhaustive_search == exhaustive_search,
                Err(e) => max_solution_size == 0 && e == ConfigError::ZeroSolutionSize,
            },
    {
        if max_solution_size == 0 {
            Err(ConfigError::ZeroSolutionSize)
        } else {
            Ok(Config { max_solution_size, exhaustive_search })
        }
    }
}

/// What a line of the corpus becomes once normalised.
pub open spec fn normalized(line: Seq<char>) -> Seq<char> {
    letters_only(upper_of(trim_of(line)))
}

/// The words of a list of sanitized strings, as character sequences.
pub open spec fn sanitized_views(words: Seq<SanitizedString>) -> Seq<Seq<char>> {
    words.map_values(|w: SanitizedString| w.0@)
}

/// Normalises every line, drops those left empty, and keeps each word once.
pub fn normalize_corpus(lines: &Vec<String>) -> (r: Vec<SanitizedString>)
    ensures
        sanitized_views(r@).no_duplicates(),
        forall|w: Seq<char>| sanitized_views(r@).contains(w) <==> (w.len() > 0 && exists|i: int|
            0 <= i < lines@.len() && #[trigger] normalized(lines@[i]@) == w),
{
    let mut out: Vec<SanitizedString> = Vec::new();
    let mut i: usize = 0;
    while i < lines.len()
        invariant
            i <= lines@.len(),
            sanitized_views(out@).no_duplicates(),
            forall|w: Seq<char>| sanitized_views(out@).contains(w) <==> (w.len() > 0 && exists|k: int|
                0 <= k < i && #[trigger] normalized(lines@[k]@) == w),
        decreases lines@.len() - i,
    {
        let s = SanitizedString::sanitize(lines[i].as_str());
        let ghost before = sanitized_views(out@);
        let mut seen = false;
        let mut j: usize = 0;
        while j < out.len()
            invariant
                j <= out@.len(),
                before == sanitized_views(out@),
                seen <==> exists|q: int| 0 <= q < j && before[q] == s.0@,
            decreases out@.len() - j,
        {
            if out[j].0 == s.0 {
                seen = true;
            }
            assert(before[j as int] == out@[j as int].0@);
            j = j + 1;
        }
        let ghost w0 = s.0@;
        assert(normalized(lines@[i as int]@) == w0);
        if !seen && !s.0.as_str().is_empty() {
            out.push(s);
            assert(sanitized_views(out@) =~= before.push(w0));
            assert forall|w: Seq<char>| sanitized_views(out@).contains(w) <==> (w.len() > 0 && exists|k: int|
                0 <= k < i + 1 && #[trigger] normalized(lines@[k]@) == w) by {
                lemma_push_contains(before, w0, w);
            }
        } else {
            assert forall|w: Seq<char>| sanitized_views(out@).contains(w) <==> (w.len() > 0 && exists|k: int|
                0 <= k < i + 1 && #[trigger] normalized(lines@[k]@) == w) by {
                if w == w0 && seen {
                    let q = choose|q: int| 0 <= q < j && before[q] == s.0@;
                }
            }
        }
        i = i + 1;
    }
    out
}

/// The outcome of a search over a word list.
pub struct Tally {
    /// One entry per distinct letter set, after anagram merging (and pruning, if asked).
    pub entries: Vec<Word>,
    /// The letter bucket index the search ran on.
    pub index: SearchStructure,
    /// The distinct solutions found.
    pub solutions: Vec<Solution>,
    /// The number of concrete word combinations the solutions stand for; `None` when it
    /// passes `u64::MAX`.
    pub count: Option<u64>,
}

/// Each entry of the pruned list is an entry of the list it came from.
proof fn lemma_undominated_member(ws: Seq<Word>, all: Seq<u32>, i: int)
    requires
        0 <= i < undominated(ws, all).len(),
    ensures
        ws.contains(undominated(ws, all)[i]),
    decreases ws.len(),
{
    if ws.len() > 0 {
        let rest = undominated(ws.skip(1), all);
        if crate::tally::dominated(all, ws[0].letters_present) {
            lemma_undominated_member(ws.skip(1), all, i);
            let j = choose|j: int| 0 <= j < ws.skip(1).len() && ws.skip(1)[j] == rest[i];
            assert(ws[j + 1] == rest[i]);
        } else if i > 0 {
            assert((seq![ws[0]] + rest)[i] == rest[i - 1]);
            lemma_undominated_member(ws.skip(1), all, i - 1);
            let j = choose|j: int| 0 <= j < ws.skip(1).len() && ws.skip(1)[j] == rest[i - 1];
            assert(ws[j + 1] == rest[i - 1]);
        } else {
            assert(ws[0] == undominated(ws, all)[0]);
        }
    }
}

/// Each entry of a minimal cover holds a letter of the alphabet that no other entry of it
/// holds.
proof fn lemma_cover_member_ranked(s: Seq<u32>, i: int, n: u32) -> (k: u32)
    requires
        n <= 32,
        minimal_cover(s, n),
        0 <= i < s.len(),
    ensures
        k < n,
        has_rank(s[i], k),
{
    let r = s.remove(i);
    assert(!covers_alphabet(union_mask(r), n));
    lemma_covers_ranks(union_mask(r), n);
    lemma_covers_ranks(union_mask(s), n);
    let k = choose|k: u32| k < n && !#[trigger] has_rank(union_mask(r), k);
    assert(has_rank(union_mask(s), k));
    lemma_union_rank(s, k);
    lemma_union_rank(r, k);
    let j = choose|j: int| 0 <= j < s.len() && #[trigger] has_rank(s[j], k);
    if j < i {
        assert(r[j] == s[j]);
        assert(has_rank(r[j], k));
    } else if j > i {
        assert(r[j - 1] == s[j]);
        assert(has_rank(r[j - 1], k));
    }
    k
}

/// Pruning keeps the masks of the entries distinct.
proof fn lemma_undominated_distinct(ws: Seq<Word>, all: Seq<u32>)
    requires
        forall|i: int, j: int| 0 <= i < j < ws.len() ==> ws[i].letters_present != ws[j].letters_present,
    ensures
        forall|i: int, j: int| 0 <= i < j < undominated(ws, all).len() ==> undominated(ws, all)[i].letters_present
            != undominated(ws, all)[j].letters_present,
    decreases ws.len(),
{
    if ws.len() > 0 {
        let t = ws.skip(1);
        assert forall|i: int, j: int| 0 <= i < j < t.len() implies t[i].letters_present != t[j].letters_present by {
            assert(t[i] == ws[i + 1] && t[j] == ws[j + 1]);
        }
        lemma_undominated_distinct(t, all);
        let rest = undominated(t, all);
        if !crate::tally::dominated(all, ws[0].letters_present) {
            let u = undominated(ws, all);
            assert(u =~= seq![ws[0]] + rest);
            assert forall|i: int, j: int| 0 <= i < j < u.len() implies u[i].letters_present != u[j].letters_present by {
                if i == 0 {
                    assert(u[j] == rest[j - 1]);
                    lemma_undominated_member(t, all, j - 1);
                    let q = choose|q: int| 0 <= q < t.len() && t[q] == rest[j - 1];
                    assert(t[q] == ws[q + 1]);
                } else {
                    assert(u[i] == rest[i - 1] && u[j] == rest[j - 1]);
                }
            }
        }
    }
}

/// Whether `m` is the mask of some word of `words` under `order`.
pub open spec fn is_word_mask(m: u32, words: Seq<SanitizedString>, order: Seq<char>) -> bool {
    exists|i: int| 0 <= i < words.len() && encodes(m, #[trigger] words[i].0@, order)
}

/// Whether the mask of some word of `words` holds every letter of `m` and more.
pub open spec fn dominated_by_word(m: u32, words: Seq<SanitizedString>, order: Seq<char>) -> bool {
    exists|d: u32| #[trigger] is_word_mask(d, words, order) && d | m == d && d != m
}

/// The words of `words` whose mask under `order` is `m`, in order.
pub open spec fn words_with_mask(words: Seq<SanitizedString>, order: Seq<char>, m: u32) -> Seq<String>
    decreases words.len(),
{
    if words.len() == 0 {
        seq![]
    } else if encodes(m, words.last().0@, order) {
        words_with_mask(words.drop_last(), order, m).push(words.last().0)
    } else {
        words_with_mask(words.drop_last(), order, m)
    }
}

/// The names gathered per mask from the encoded words are the words with that mask.
proof fn lemma_names_are_words(parsed: Seq<Word>, words: Seq<SanitizedString>, order: Seq<char>, m: u32)
    requires
        parsed.len() == words.len(),
        forall|k: int| 0 <= k < parsed.len() ==> (#[trigger] parsed[k]).names@ == seq![words[k].0],
        forall|k: int| 0 <= k < parsed.len() ==> encodes(#[trigger] parsed[k].letters_present, words[k].0@, order),
    ensures
        names_with(parsed, m) == words_with_mask(words, order, m),
    decreases parsed.len(),
{
    if parsed.len() > 0 {
        let (pt, wt) = (parsed.drop_last(), words.drop_last());
        assert forall|k: int| 0 <= k < pt.len() implies (#[trigger] pt[k]).names@ == seq![wt[k].0] by {
            assert(pt[k] == parsed[k] && wt[k] == words[k]);
        }
        assert forall|k: int| 0 <= k < pt.len() implies encodes(#[trigger] pt[k].letters_present, wt[k].0@, order) by {
            assert(pt[k] == parsed[k] && wt[k] == words[k]);
        }
        lemma_names_are_words(pt, wt, order, m);
        let l = parsed.len() - 1;
        assert(parsed.last() == parsed[l] && words.last() == words[l]);
        let p = parsed[l].letters_present;
        assert(encodes(p, words[l].0@, order));
        if encodes(m, words[l].0@, order) {
            assert forall|k: u32| k < 32 implies (#[trigger] has_rank(m, k) <==> has_rank(p, k)) by {}
            lemma_rank_ext(m, p);
        }
        assert(names_with(pt, m) + seq![words[l].0] =~= names_with(pt, m).push(words[l].0));
    }
}

/// An entry is kept by pruning exactly when it is an entry and no mask of `all` dominates it.
proof fn lemma_undominated_contains(ws: Seq<Word>, all: Seq<u32>, w: Word)
    ensures
        undominated(ws, all).contains(w) <==> ws.contains(w) && !dominated(all, w.letters_present),
    decreases ws.len(),
{
    if ws.len() > 0 {
        let t = ws.skip(1);
        lemma_undominated_contains(t, all, w);
        let rest = undominated(t, all);
        assert(ws.contains(w) <==> ws[0] == w || t.contains(w)) by {
            if ws.contains(w) && ws[0] != w {
                let q = choose|q: int| 0 <= q < ws.len() && ws[q] == w;
                assert(t[q - 1] == w);
            }
            if t.contains(w) {
                let q = choose|q: int| 0 <= q < t.len() && t[q] == w;
                assert(ws[q + 1] == w);
            }
        }
        if !dominated(all, ws[0].letters_present) {
            let u = seq![ws[0]] + rest;
            assert(u.contains(w) <==> ws[0] == w || rest.contains(w)) by {
                if u.contains(w) && ws[0] != w {
                    let q = choose|q: int| 0 <= q < u.len() && u[q] == w;
                    assert(rest[q - 1] == w);
                }
                if rest.contains(w) {
                    let q = choose|q: int| 0 <= q < rest.len() && rest[q] == w;
                    assert(u[q + 1] == w);
                }
                assert(u[0] == ws[0]);
            }
        }
    }
}

/// Encodes every word by `order_of_letters` (rarest letter first), merges anagrams, drops
/// dominated entries unless the search is exhaustive, searches for every set of at most
/// `max_solution_size` entries that covers all of `order_of_letters`, and counts the word
/// combinations they stand for.
pub fn tally_pangrams(words: &Vec<SanitizedString>, order_of_letters: &Vec<char>, config: &Config) -> (r: Tally)
    requires
        order_of_letters@.len() <= 32,
        config.max_solution_size >= 1,
    ensures
        forall|i: int, j: int| 0 <= i < j < r.entries@.len() ==> r.entries@[i].letters_present != r.entries@[j].letters_present,
        forall|i: int| 0 <= i < r.solutions@.len() ==> valid_solution(#[trigger] r.solutions@[i].words@,
            order_of_letters@.len() as u32, config.max_solution_size as nat),
        forall|i: int, j: int| 0 <= i < j < r.solutions@.len() ==> r.solutions@[i].words@ != r.solutions@[j].words@,
        match r.count {
            Some(c) => c == total_count(r.entries@, r.solutions@),
            None => total_count(r.entries@, r.solutions@) > u64::MAX,
        },
        forall|i: int, x: u32| 0 <= i < r.solutions@.len() && #[trigger] r.solutions@[i].words@.contains(x)
            ==> masks_of(r.entries@).contains(x),
        forall|s: Seq<u32>| #[trigger] solution_views(r.solutions@).contains(s) <==> minimal_cover(s, order_of_letters@.len() as u32)
            && 1 <= s.len() <= config.max_solution_size && (forall|x: u32| s.contains(x) ==> masks_of(r.entries@).contains(x)),
        forall|m: u32| #[trigger] masks_of(r.entries@).contains(m) <==> is_word_mask(m, words@, order_of_letters@)
            && (config.exhaustive_search || !dominated_by_word(m, words@, order_of_letters@)),
        forall|i: int| 0 <= i < r.entries@.len() ==> (#[trigger] r.entries@[i]).names@
            == words_with_mask(words@, order_of_letters@, r.entries@[i].letters_present),
        r.index.search_structure@.len() == order_of_letters@.len(),
        forall|k: int| 0 <= k < order_of_letters@.len() ==> #[trigger] r.index.search_structure@[k].words@
            == with_rank(masks_of(r.entries@), k as u32),
        words@.len() == 0 ==> r.solutions@.len() == 0 && r.count == Some(0u64),
{
    let n = order_of_letters.len();
    let ghost nn = n as u32;
    let mut parsed: Vec<Word> = Vec::new();
    let mut i: usize = 0;
    while i < words.len()
        invariant
            i <= words@.len(),
            n == order_of_letters@.len() <= 32,
            nn == n as u32,
            parsed@.len() == i,
            forall|k: int| 0 <= k < parsed@.len() ==> within_alphabet(#[trigger] parsed@[k].letters_present, nn),
            forall|k: int| 0 <= k < parsed@.len() ==> encodes(#[trigger] parsed@[k].letters_present, words@[k].0@, order_of_letters@),
            forall|k: int| 0 <= k < parsed@.len() ==> (#[trigger] parsed@[k]).names@ == seq![words@[k].0],
        decreases words@.len() - i,
    {
        let w = Word::parse_string(&words[i], order_of_letters);
        assert(w.names@ =~= seq![words@[i as int].0]);
        parsed.push(w);
        i = i + 1;
    }
    let merged = merge_anagrams(&parsed);
    proof {
        assert forall|m: u32| #[trigger] masks_of(merged@).contains(m) <==> is_word_mask(m, words@, order_of_letters@) by {
            if masks_of(parsed@).contains(m) {
                let q = choose|q: int| 0 <= q < masks_of(parsed@).len() && masks_of(parsed@)[q] == m;
                assert(parsed@[q].letters_present == m);
            }
            if is_word_mask(m, words@, order_of_letters@) {
                let i = choose|i: int| 0 <= i < words@.len() && encodes(m, #[trigger] words@[i].0@, order_of_letters@);
                let p = parsed@[i].letters_present;
                assert(encodes(p, words@[i].0@, order_of_letters@));
                assert forall|k: u32| k < 32 implies (#[trigger] has_rank(m, k) <==> has_rank(p, k)) by {}
                lemma_rank_ext(m, p);
                assert(masks_of(parsed@)[i] == p);
            }
        }
        assert forall|k: int| 0 <= k < merged@.len() implies within_alphabet(#[trigger] merged@[k].letters_present, nn) by {
            let m = merged@[k].letters_present;
            assert(masks_of(merged@)[k] == m);
            assert(masks_of(parsed@).contains(m));
            let q = choose|q: int| 0 <= q < masks_of(parsed@).len() && masks_of(parsed@)[q] == m;
            assert(parsed@[q].letters_present == m);
        }
        if words@.len() == 0 && merged@.len() > 0 {
            assert(masks_of(merged@)[0] == merged@[0].letters_present);
            assert(masks_of(merged@).contains(merged@[0].letters_present));
        }
    }
    let ghost merged_view = merged@;
    proof {
        assert forall|i: int| 0 <= i < merged_view.len() implies (#[trigger] merged_view[i]).names@
            == words_with_mask(words@, order_of_letters@, merged_view[i].letters_present) by {
            lemma_names_are_words(parsed@, words@, order_of_letters@, merged_view[i].letters_present);
        }
    }
    let entries = if config.exhaustive_search {
        merged
    } else {
        prune_dominated(merged)
    };
    proof {
        assert forall|a: int, b: int| 0 <= a < b < entries@.len() implies entries@[a].letters_present != entries@[b].letters_present by {
            if !config.exhaustive_search {
                lemma_undominated_distinct(merged_view, masks_of(merged_view));
            }
        }
        assert forall|k: int| 0 <= k < entries@.len() implies within_alphabet(#[trigger] entries@[k].letters_present, nn) by {
            if !config.exhaustive_search {
                lemma_undominated_member(merged_view, masks_of(merged_view), k);
                let q = choose|q: int| 0 <= q < merged_view.len() && merged_view[q] == entries@[k];
            }
        }
        assert forall|i: int| 0 <= i < entries@.len() implies (#[trigger] entries@[i]).names@
            == words_with_mask(words@, order_of_letters@, entries@[i].letters_present) by {
            if !config.exhaustive_search {
                lemma_undominated_member(merged_view, masks_of(merged_view), i);
                let q = choose|q: int| 0 <= q < merged_view.len() && merged_view[q] == entries@[i];
            }
        }
        assert forall|m: u32| #[trigger] masks_of(entries@).contains(m) <==> is_word_mask(m, words@, order_of_letters@)
            && (config.exhaustive_search || !dominated_by_word(m, words@, order_of_letters@)) by {
            if !config.exhaustive_search {
                let all = masks_of(merged_view);
                assert(dominated(all, m) <==> dominated_by_word(m, words@, order_of_letters@)) by {
                    if dominated(all, m) {
                        let j = choose|j: int| 0 <= j < all.len() && #[trigger] all[j] | m == all[j] && all[j] != m;
                        assert(all.contains(all[j]));
                        assert(is_word_mask(all[j], words@, order_of_letters@));
                    }
                    if dominated_by_word(m, words@, order_of_letters@) {
                        let d = choose|d: u32| #[trigger] is_word_mask(d, words@, order_of_letters@) && d | m == d && d != m;
                        assert(all.contains(d));
                        let j = choose|j: int| 0 <= j < all.len() && all[j] == d;
                        assert(all[j] | m == all[j] && all[j] != m);
                    }
                }
                if masks_of(entries@).contains(m) {
                    let q = choose|q: int| 0 <= q < entries@.len() && masks_of(entries@)[q] == m;
                    let e = entries@[q];
                    assert(entries@.contains(e));
                    lemma_undominated_contains(merged_view, all, e);
                    let p = choose|p: int| 0 <= p < merged_view.len() && merged_view[p] == e;
                    assert(all[p] == m);
                }
                if all.contains(m) && !dominated(all, m) {
                    let p = choose|p: int| 0 <= p < all.len() && all[p] == m;
                    let e = merged_view[p];
                    assert(merged_view.contains(e));
                    lemma_undominated_contains(merged_view, all, e);
                    let q = choose|q: int| 0 <= q < entries@.len() && entries@[q] == e;
                    assert(masks_of(entries@)[q] == m);
                }
            }
        }
        if words@.len() == 0 && !config.exhaustive_search {
            assert(merged_view.len() == 0);
            assert(entries@ == undominated(merged_view, masks_of(merged_view)));
        }
    }
    let index = SearchStructure::build(n, &entries);
    proof {
        if words@.len() == 0 {
            assert(entries@.len() == 0);
            assert forall|k: int| 0 <= k < index.search_structure@.len() implies (#[trigger] index.search_structure@[k]).words@.len() == 0 by {
                assert(masks_of(entries@) =~= Seq::<u32>::empty());
                assert(with_rank(masks_of(entries@), k as u32) == Seq::<u32>::empty());
            }
        }
    }
    let solutions = index.find_all_pangrams(config.max_solution_size);
    proof {
        assert forall|i: int, x: u32| 0 <= i < solutions@.len() && #[trigger] solutions@[i].words@.contains(x)
            implies masks_of(entries@).contains(x) by {
            assert(index.from_index(solutions@[i].words@));
            assert(index.holds(x));
            let (q, j) = choose|q: int, j: int| 0 <= q < index.search_structure@.len() && 0 <= j < index.search_structure@[q].words@.len()
                && #[trigger] index.search_structure@[q].words@[j] == x;
            lemma_with_rank_member(masks_of(entries@), q as u32, j);
        }
    }
    proof {
        assert forall|s: Seq<u32>| #[trigger] solution_views(solutions@).contains(s) <==> minimal_cover(s, nn)
            && 1 <= s.len() <= config.max_solution_size && (forall|x: u32| s.contains(x) ==> masks_of(entries@).contains(x)) by {
            if minimal_cover(s, nn) && 1 <= s.len() <= config.max_solution_size
                && (forall|x: u32| s.contains(x) ==> masks_of(entries@).contains(x)) {

                assert forall|x: u32| s.contains(x) implies index.holds(x) by {
                    let i = choose|i: int| 0 <= i < s.len() && s[i] == x;
                    let k = lemma_cover_member_ranked(s, i, nn);
                    lemma_with_rank_contains(masks_of(entries@), k, x);
                    let b = index.search_structure@[k as int].words@;
                    let j = choose|j: int| 0 <= j < b.len() && b[j] == x;
                    assert(index.search_structure@[k as int].words@[j] == x);
                }
                assert(index.owed(s, seq![], config.max_solution_size as nat));
            }
            if solution_views(solutions@).contains(s) {
                let i = choose|i: int| 0 <= i < solution_views(solutions@).len() && solution_views(solutions@)[i] == s;
                assert(solutions@[i].words@ == s);
                assert forall|x: u32| s.contains(x) implies masks_of(entries@).contains(x) by {
                    assert(solutions@[i].words@.contains(x));
                }
            }
        }
    }
    let count = count_combinations(&entries, &solutions);
    Tally { entries, index, solutions, count }
}

} // verus!
