use pangrams::corpus::{normalize_corpus, tally_pangrams, Config, ConfigError, Tally};
use pangrams::mask::full_mask;
use pangrams::rank::rank_letters;
use pangrams::search::{is_minimal_cover, Pangram, PangramState, SearchStructure, Word};
use pangrams::tally::{count_combinations, entry_multiplicity, merge_anagrams, prune_dominated};
use pangrams::text::{contains_char, keep_letters, SanitizedString};

fn corpus(lines: &[&str]) -> Vec<SanitizedString> {
    let owned: Vec<String> = lines.iter().map(|s| s.to_string()).collect();
    normalize_corpus(&owned)
}

fn run(lines: &[&str], max_solution_size: usize, exhaustive_search: bool) -> (Vec<char>, Tally) {
    let words = corpus(lines);
    let order = rank_letters(&words);
    let config = Config::new(max_solution_size, exhaustive_search).unwrap();
    let tally = tally_pangrams(&words, &order, &config);
    (order, tally)
}

fn mask_of(word: &str, order: &[char]) -> u32 {
    let mut m: u32 = 0;
    for (r, c) in order.iter().enumerate() {
        if word.contains(*c) {
            m |= 1u32 << (31 - r);
        }
    }
    m
}

fn solution_sets(tally: &Tally) -> Vec<Vec<u32>> {
    let mut sets: Vec<Vec<u32>> = tally.solutions.iter().map(|s| s.words.clone()).collect();
    sets.sort();
    sets
}

fn sorted(mut v: Vec<u32>) -> Vec<u32> {
    v.sort();
    v
}

#[test]
fn sanitize_trims_uppercases_and_keeps_letters() {
    let s = SanitizedString::sanitize("  ab-c1'd \t");
    assert_eq!(s.0, "ABCD");
    assert_eq!(SanitizedString::sanitize("  ").0, "");
}

#[test]
fn keep_letters_drops_everything_but_ascii_letters() {
    assert_eq!(keep_letters("a1-B c'D\u{e9}"), "aBcD");
    assert_eq!(keep_letters("123"), "");
}

#[test]
fn partial_solutions_keep_pick_order_and_solutions_are_sorted() {
    let p = Pangram { selected_words: vec![0x4000_0000], selected_letters: 0x4000_0000 };
    match p.check_with(0x8000_0000, 3, 3) {
        PangramState::PotentialPangram(q) => assert_eq!(q.selected_words, vec![0x8000_0000, 0x4000_0000]),
        _ => panic!("expected a potential pangram"),
    }
    match p.check_with(0xA000_0000, 3, 3) {
        PangramState::CompletePangram(s) => assert_eq!(s.words, vec![0x4000_0000, 0xA000_0000]),
        _ => panic!("expected a complete pangram"),
    }
}

#[test]
fn unique_letters_are_sorted_and_distinct() {
    let s = SanitizedString::sanitize("banana");
    assert_eq!(s.get_unique_letters(), "ABN");
    assert_eq!(SanitizedString::sanitize("").get_unique_letters(), "");
}

#[test]
fn contains_char_finds_letters() {
    assert!(contains_char("HELLO", 'L'));
    assert!(!contains_char("HELLO", 'Z'));
    assert!(!contains_char("", 'A'));
}

#[test]
fn full_mask_holds_the_top_bits() {
    assert_eq!(full_mask(0), 0);
    assert_eq!(full_mask(1), 0x8000_0000);
    assert_eq!(full_mask(6), 0xFC00_0000);
    assert_eq!(full_mask(26), 0xFFFF_FFC0);
    assert_eq!(full_mask(32), 0xFFFF_FFFF);
}

#[test]
fn parse_string_sets_the_bit_of_each_rank() {
    let order = vec!['Q', 'Z', 'A', 'E'];
    let w = Word::parse_string(&SanitizedString::sanitize("zeal"), &order);
    assert_eq!(w.names, vec!["ZEAL".to_string()]);
    assert_eq!(w.letters_present, 0b0111u32 << 28);
    let none = Word::parse_string(&SanitizedString::sanitize("xyz"), &vec![]);
    assert_eq!(none.letters_present, 0);
}

#[test]
fn encoding_round_trip_on_every_letter() {
    let order: Vec<char> = "QJXZKVBPGWYFMCUHLDSNTROIAE".chars().collect();
    let word = SanitizedString::sanitize("pangram");
    let w = Word::parse_string(&word, &order);
    for (r, c) in order.iter().enumerate() {
        let bit = (w.letters_present >> (31 - r)) & 1 == 1;
        assert_eq!(bit, "PANGRAM".contains(*c));
    }
    assert_eq!(w.letters_present & !full_mask(26), 0);
}

#[test]
fn rank_letters_orders_by_word_count_then_letter() {
    let words = corpus(&["AB", "BC", "BD", "ADD"]);
    // A: 2 words, B: 3, C: 1, D: 2
    assert_eq!(rank_letters(&words), vec!['C', 'A', 'D', 'B']);
    assert_eq!(rank_letters(&corpus(&[])), Vec::<char>::new());
}

#[test]
fn normalize_corpus_drops_empty_lines_and_repeats() {
    let words = corpus(&["ab", "  AB ", "12", "", "cd"]);
    let names: Vec<String> = words.iter().map(|w| w.0.clone()).collect();
    assert_eq!(names, vec!["AB".to_string(), "CD".to_string()]);
}

#[test]
fn config_rejects_zero_solution_size() {
    assert!(matches!(Config::new(0, true), Err(ConfigError::ZeroSolutionSize)));
    let c = Config::new(4, false).unwrap();
    assert_eq!(c.max_solution_size, 4);
    assert!(!c.exhaustive_search);
}

#[test]
fn merge_anagrams_collects_names_per_mask() {
    let order = vec!['A', 'B', 'C'];
    let words: Vec<Word> = ["AB", "BA", "C", "ABB"]
        .iter()
        .map(|s| Word::parse_string(&SanitizedString::sanitize(s), &order))
        .collect();
    let merged = merge_anagrams(&words);
    assert_eq!(merged.len(), 2);
    assert_eq!(merged[0].names, vec!["AB".to_string(), "BA".to_string(), "ABB".to_string()]);
    assert_eq!(merged[1].names, vec!["C".to_string()]);
    assert_eq!(entry_multiplicity(&merged, merged[0].letters_present), Some(3));
    assert_eq!(entry_multiplicity(&merged, 1), Some(0));
}

#[test]
fn prune_dominated_drops_strict_subsets_only() {
    let order = vec!['A', 'B', 'C', 'D'];
    let words: Vec<Word> = ["AB", "ABC", "CD", "D"]
        .iter()
        .map(|s| Word::parse_string(&SanitizedString::sanitize(s), &order))
        .collect();
    let kept = prune_dominated(merge_anagrams(&words));
    let names: Vec<String> = kept.iter().map(|w| w.names[0].clone()).collect();
    assert_eq!(names, vec!["ABC".to_string(), "CD".to_string()]);
}

#[test]
fn next_missing_letter_is_the_first_clear_rank() {
    let p = Pangram::new();
    assert_eq!(p.next_missing_letter(), 0);
    let q = Pangram { selected_words: vec![0xE000_0000], selected_letters: 0xE000_0000 };
    assert_eq!(q.next_missing_letter(), 3);
    let full = Pangram { selected_words: vec![0xFFFF_FFFF], selected_letters: 0xFFFF_FFFF };
    assert_eq!(full.next_missing_letter(), 32);
}

#[test]
fn check_with_classifies_extensions() {
    // alphabet of four letters: masks use the top four bits
    let p = Pangram { selected_words: vec![0x3000_0000], selected_letters: 0x3000_0000 };
    match p.check_with(0xC000_0000, 4, 3) {
        PangramState::CompletePangram(s) => assert_eq!(s.words, vec![0x3000_0000, 0xC000_0000]),
        _ => panic!("expected a complete pangram"),
    }
    match p.check_with(0x8000_0000, 4, 3) {
        PangramState::PotentialPangram(q) => {
            assert_eq!(q.selected_words, vec![0x8000_0000, 0x3000_0000]);
            assert_eq!(q.selected_letters, 0xB000_0000);
        }
        _ => panic!("expected a potential pangram"),
    }
    assert!(matches!(p.check_with(0x8000_0000, 4, 2), PangramState::FailedPangram));
}

#[test]
fn build_puts_each_entry_in_the_bucket_of_each_letter() {
    let order = vec!['A', 'B', 'C'];
    let words: Vec<Word> = ["AB", "BC", "C"]
        .iter()
        .map(|s| Word::parse_string(&SanitizedString::sanitize(s), &order))
        .collect();
    let index = SearchStructure::build(3, &words);
    assert_eq!(index.search_structure.len(), 3);
    assert_eq!(index.search_structure[0].words, vec![0xC000_0000]);
    assert_eq!(index.search_structure[1].words, vec![0xC000_0000, 0x6000_0000]);
    assert_eq!(index.search_structure[2].words, vec![0x6000_0000, 0x2000_0000]);
}

#[test]
fn six_letter_corpus_gives_its_two_minimal_covers() {
    let (order, tally) = run(&["AB", "CD", "EF", "ABCDEF"], 3, true);
    assert_eq!(order, vec!['A', 'B', 'C', 'D', 'E', 'F']);
    let m = |w: &str| mask_of(w, &order);
    let mut expected = vec![sorted(vec![m("ABCDEF")]), sorted(vec![m("AB"), m("CD"), m("EF")])];
    expected.sort();
    assert_eq!(solution_sets(&tally), expected);
    assert_eq!(tally.count, Some(2));
}

#[test]
fn minimal_cover_check_rejects_removable_words() {
    // alphabet of four letters: AB = 0xC, CD = 0x3, ABC = 0xE (top four bits)
    assert!(is_minimal_cover(&vec![0x3000_0000, 0xC000_0000], 4));
    assert!(!is_minimal_cover(&vec![0x3000_0000, 0xC000_0000, 0xE000_0000], 4));
    assert!(is_minimal_cover(&vec![0xF000_0000], 4));
}

#[test]
fn anagrams_multiply_the_count() {
    let (order, tally) = run(&["AB", "BA", "CDEF"], 2, true);
    assert_eq!(order, vec!['C', 'D', 'E', 'F', 'A', 'B']);
    assert_eq!(tally.entries.len(), 2);
    assert_eq!(tally.solutions.len(), 1);
    assert_eq!(
        solution_sets(&tally),
        vec![sorted(vec![mask_of("AB", &order), mask_of("CDEF", &order)])]
    );
    assert_eq!(tally.count, Some(2));
    let ab = tally.entries.iter().find(|e| e.letters_present == mask_of("AB", &order)).unwrap();
    assert_eq!(ab.names, vec!["AB".to_string(), "BA".to_string()]);
}

#[test]
fn empty_corpus_gives_nothing() {
    let (order, tally) = run(&[], 4, true);
    assert!(order.is_empty());
    assert!(tally.solutions.is_empty());
    assert_eq!(tally.count, Some(0));
    let (_, pruned) = run(&[], 4, false);
    assert_eq!(pruned.count, Some(0));
}

#[test]
fn pruning_can_lose_a_solution() {
    let (order, full) = run(&["AB", "ABC", "CD"], 2, true);
    let m = |w: &str| mask_of(w, &order);
    let mut expected = vec![sorted(vec![m("AB"), m("CD")]), sorted(vec![m("ABC"), m("CD")])];
    expected.sort();
    assert_eq!(solution_sets(&full), expected);
    assert_eq!(full.count, Some(2));
    let (_, pruned) = run(&["AB", "ABC", "CD"], 2, false);
    assert_eq!(solution_sets(&pruned), vec![sorted(vec![m("ABC"), m("CD")])]);
    assert_eq!(pruned.count, Some(1));
    let kept: Vec<u32> = pruned.entries.iter().map(|e| e.letters_present).collect();
    assert_eq!(sorted(kept), sorted(vec![m("ABC"), m("CD")]));
}

#[test]
fn solutions_found_twice_are_kept_once() {
    // {AB, AC} is reached from AC and from AB
    let (order, tally) = run(&["AC", "AB", "BC"], 2, true);
    assert_eq!(order, vec!['A', 'B', 'C']);
    let m = |w: &str| mask_of(w, &order);
    let mut expected = vec![
        sorted(vec![m("AB"), m("AC")]),
        sorted(vec![m("AC"), m("BC")]),
        sorted(vec![m("AB"), m("BC")]),
    ];
    expected.sort();
    assert_eq!(solution_sets(&tally), expected);
    assert_eq!(tally.count, Some(3));
}

#[test]
fn every_solution_covers_and_respects_the_bound() {
    let lines = ["THE", "QUICK", "BROWN", "FOX", "JUMPS", "OVER", "LAZY", "DOG", "GLYPH", "VEX", "WALTZ", "NYMPH", "FJORD", "BUCKS", "GIBS"];
    let (order, tally) = run(&lines, 6, true);
    let full = full_mask(order.len());
    assert!(!tally.solutions.is_empty());
    for s in &tally.solutions {
        assert!(s.words.len() <= 6);
        assert_eq!(s.words.iter().fold(0u32, |a, w| a | w), full);
        assert!(s.words.windows(2).all(|p| p[0] < p[1]));
    }
    let sets = solution_sets(&tally);
    for p in sets.windows(2) {
        assert_ne!(p[0], p[1]);
    }
    let mut total: u64 = 0;
    for s in &tally.solutions {
        let mut prod: u64 = 1;
        for w in &s.words {
            prod *= entry_multiplicity(&tally.entries, *w).unwrap();
        }
        total += prod;
    }
    assert_eq!(tally.count, Some(total));
    assert_eq!(count_combinations(&tally.entries, &tally.solutions), Some(total));
}
