//! Words of the corpus: normalising a line and encoding a word as a letter mask.
use vstd::prelude::*;
use vstd::string::StrSliceExecFns;
use crate::mask::{has_rank, lemma_set_rank, lemma_set_rank_within, within_alphabet};
use crate::search::Word;
use crate::seqs::{lemma_insert_contains, lemma_take_next_contains};

verus! {

/// What `str::trim` leaves of a string.
pub uninterp spec fn trim_of(s: Seq<char>) -> Seq<char>;

/// What `str::to_uppercase` makes of a string.
pub uninterp spec fn upper_of(s: Seq<char>) -> Seq<char>;

/// Relies on `str::trim`: the string without leading and trailing whitespace.
#[verifier::external_body]
fn trim_str(s: &str) -> (r: &str)
    ensures
        r@ == trim_of(s@),
{
    s.trim()
}

/// Relies on `str::to_uppercase`: the uppercase form of the string.
#[verifier::external_body]
fn uppercase(s: &str) -> (r: String)
    ensures
        r@ == upper_of(s@),
{
    s.to_uppercase()
}

/// Relies on collecting chars into a `String` (`FromIterator<&char>`): the same chars.
#[verifier::external_body]
fn string_of(v: &Vec<char>) -> (r: String)
    ensures
        r@ == v@,
{
    v.iter().collect()
}

/// Whether `m` is the mask of the word `w` under `order`: rank `k` is set exactly when
/// the word holds `order[k]`.
pub open spec fn encodes(m: u32, w: Seq<char>, order: Seq<char>) -> bool {
    forall|k: u32| k < 32 ==> (#[trigger] has_rank(m, k) <==> (k < order.len() && w.contains(order[k as int])))
}

/// Whether `c` is an ASCII letter.
pub open spec fn is_letter(c: char) -> bool {
    ('A' <= c && c <= 'Z') || ('a' <= c && c <= 'z')
}

/// The ASCII letters of `s`, in order.
pub open spec fn letters_only(s: Seq<char>) -> Seq<char>
    decreases s.len(),
{
    if s.len() == 0 {
        seq![]
    } else if is_letter(s.last()) {
        letters_only(s.drop_last()).push(s.last())
    } else {
        letters_only(s.drop_last())
    }
}

/// Whether `s` is in strictly ascending order.
pub open spec fn chars_ascending(s: Seq<char>) -> bool {
    forall|i: int, j: int| 0 <= i < j < s.len() ==> s[i] < s[j]
}

/// Whether `c` occurs in `s`.
pub fn contains_char(s: &str, c: char) -> (r: bool)
    ensures
        r == s@.contains(c),
{
    let len = s.unicode_len();
    let mut i: usize = 0;
    while i < len
        invariant
            len == s@.len(),
            i <= len,
            forall|j: int| 0 <= j < i ==> s@[j] != c,
        decreases len - i,
    {
        if s.get_char(i) == c {
            return true;
        }
        i = i + 1;
    }
    false
}

/// The ASCII letters of `s`, in order.
pub fn keep_letters(s: &str) -> (r: String)
    ensures
        r@ == letters_only(s@),
{
    let len = s.unicode_len();
    let mut kept: Vec<char> = Vec::new();
    let mut i: usize = 0;
    while i < len
        invariant
            len == s@.len(),
            i <= len,
            kept@ == letters_only(s@.take(i as int)),
        decreases len - i,
    {
        let c = s.get_char(i);
        assert(s@.take(i + 1).drop_last() =~= s@.take(i as int));
        if ('A' <= c && c <= 'Z') || ('a' <= c && c <= 'z') {
            kept.push(c);
        }
        i = i + 1;
    }
    assert(s@.take(len as int) =~= s@);
    string_of(&kept)
}

/// A corpus line reduced to its uppercase ASCII letters.
pub struct SanitizedString(pub String);

impl SanitizedString {
    /// Trims the line, uppercases it and keeps its ASCII letters.
    pub fn sanitize(string: &str) -> (r: SanitizedString)
        ensures
            r.0@ == letters_only(upper_of(trim_of(string@))),
    {
        let trimmed = trim_str(string);
        let upper = uppercase(trimmed);
        SanitizedString(keep_letters(upper.as_str()))
    }

    /// The distinct letters of the string, in ascending order.
    pub fn get_unique_letters(&self) -> (r: String)
        ensures
            chars_ascending(r@),
            forall|c: char| r@.contains(c) <==> self.0@.contains(c),
    {
        let s = self.0.as_str();
        let len = s.unicode_len();
        let mut out: Vec<char> = Vec::new();
        let mut i: usize = 0;
        while i < len
            invariant
                s@ == self.0@,
                len == s@.len(),
                i <= len,
                chars_ascending(out@),
                forall|c: char| out@.contains(c) <==> s@.take(i as int).contains(c),
            decreases len - i,
        {
            let c = s.get_char(i);
            let mut p: usize = 0;
            while p < out.len() && out[p] < c
                invariant
                    p <= out@.len(),
                    forall|j: int| 0 <= j < p ==> out@[j] < c,
                decreases out@.len() - p,
            {
                p = p + 1;
            }
            let ghost before = out@;
            if p == out.len() || out[p] != c {
                out.insert(p, c);
                assert forall|a: int, b: int| 0 <= a < b < out@.len() implies out@[a] < out@[b] by {
                    if p < before.len() {
                        assert(before[p as int] > c);
                    }
                    if a < p && b > p {
                        assert(out@[b] == before[b - 1]);
                    }
                }
            }
            assert forall|x: char| out@.contains(x) <==> s@.take(i + 1).contains(x) by {
                lemma_take_next_contains(s@, i as int, x);
                if before.len() < out@.len() {
                    lemma_insert_contains(before, p as int, c, x);
                } else {
                    assert(before[p as int] == c);
                }
            }
            i = i + 1;
        }
        assert(s@.take(len as int) =~= s@);
        string_of(&out)
    }
}

impl Word {
    /// Encodes a word: bit `31 - k` of the mask is set exactly when the word holds
    /// `order_of_letters[k]`, rank 0 being the rarest letter.
    pub fn parse_string(s: &SanitizedString, order_of_letters: &Vec<char>) -> (r: Word)
        requires
            order_of_letters@.len() <= 32,
        ensures
            r.names@.len() == 1,
            r.names@[0] == s.0,
            within_alphabet(r.letters_present, order_of_letters@.len() as u32),
            encodes(r.letters_present, s.0@, order_of_letters@),
    {
        let n = order_of_letters.len();
        let ghost nn = n as u32;
        let mut letters_in_word: u32 = 0;
        let mut i: usize = 0;
        assert(0u32 & !(!0u32 << ((32 - nn) as u32)) == 0) by (bit_vector);
        assert forall|k: u32| k < 32 implies !#[trigger] has_rank(0u32, k) by {
            assert(k < 32 ==> (0u32 >> ((31 - k) as u32)) & 1u32 != 1u32) by (bit_vector);
        }
        while i < n
            invariant
                n == order_of_letters@.len() <= 32,
                nn == n as u32,
                i <= n,
                within_alphabet(letters_in_word, nn),
                forall|k: u32| k < 32 ==> (#[trigger] has_rank(letters_in_word, k) <==> (k < i
                    && s.0@.contains(order_of_letters@[k as int]))),
            decreases n - i,
        {
            if contains_char(s.0.as_str(), order_of_letters[i]) {
                let ghost before = letters_in_word;
                let bit: u32 = 1u32 << ((31 - i) as u32);
                letters_in_word = letters_in_word | bit;
                proof {
                    lemma_set_rank_within(before, i as u32, nn);
                    assert forall|k: u32| k < 32 implies (#[trigger] has_rank(letters_in_word, k)
                        <==> (k < i + 1 && s.0@.contains(order_of_letters@[k as int]))) by {
                        lemma_set_rank(before, i as u32, k);
                    }
                }
            }
            i = i + 1;
        }
        let mut names: Vec<String> = Vec::new();
        names.push(s.0.clone());
        Word { names, letters_present: letters_in_word }
    }
}

} // verus!
