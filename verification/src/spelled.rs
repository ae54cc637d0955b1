//! The spelled-number normalizer: rewrite every occurrence of the words
//! "zero" through "nine" into the corresponding digit character. A word is
//! recognized at every character position independently, so words that
//! overlap (as in "oneight") are each rewritten; the characters of a
//! recognized word are suppressed, except where a later word starts inside
//! them.

use vstd::prelude::*;
use crate::digits::{calibration_sum, line_value};
use crate::text::{digit_char, push_char, str_eq};

verus! {

/// The spelled-out word for the digit `d`, 0 through 9.
pub open spec fn word_seq(d: int) -> Seq<char> {
    if d == 0 {
        seq!['z', 'e', 'r', 'o']
    } else if d == 1 {
        seq!['o', 'n', 'e']
    } else if d == 2 {
        seq!['t', 'w', 'o']
    } else if d == 3 {
        seq!['t', 'h', 'r', 'e', 'e']
    } else if d == 4 {
        seq!['f', 'o', 'u', 'r']
    } else if d == 5 {
        seq!['f', 'i', 'v', 'e']
    } else if d == 6 {
        seq!['s', 'i', 'x']
    } else if d == 7 {
        seq!['s', 'e', 'v', 'e', 'n']
    } else if d == 8 {
        seq!['e', 'i', 'g', 'h', 't']
    } else {
        seq!['n', 'i', 'n', 'e']
    }
}

/// The word for digit `d` occurs in `s` starting at position `i`.
pub open spec fn word_matches_at(s: Seq<char>, i: int, d: int) -> bool {
    0 <= i && i + word_seq(d).len() <= s.len() && s.subrange(i, i + word_seq(d).len()) == word_seq(
        d,
    )
}

/// The first digit at or above `d` whose word occurs in `s` at position `i`.
pub open spec fn match_from(s: Seq<char>, i: int, d: int) -> Option<int>
    decreases 10 - d,
{
    if d < 0 || d >= 10 {
        None
    } else if word_matches_at(s, i, d) {
        Some(d)
    } else {
        match_from(s, i, d + 1)
    }
}

/// The digit whose word occurs in `s` at position `i`, if any.
pub open spec fn match_at(s: Seq<char>, i: int) -> Option<int> {
    match_from(s, i, 0)
}

/// The normalized text produced from position `i` on, with `skip`
/// characters of an earlier word still to suppress: a position where a word
/// starts emits its digit and suppresses the rest of the word; any other
/// position passes its character through unless suppressed.
pub open spec fn normalize_from(s: Seq<char>, i: int, skip: int) -> Seq<char>
    decreases s.len() - i,
{
    if i < 0 || i >= s.len() {
        Seq::empty()
    } else {
        match match_at(s, i) {
            Some(d) => seq![digit_char(d)] + normalize_from(s, i + 1, word_seq(d).len() - 1),
            None => {
                if skip <= 0 {
                    seq![s[i]] + normalize_from(s, i + 1, 0)
                } else {
                    normalize_from(s, i + 1, skip - 1)
                }
            },
        }
    }
}

/// The line with every spelled-out number word rewritten to its digit.
pub open spec fn normalize(s: Seq<char>) -> Seq<char> {
    normalize_from(s, 0, 0)
}

/// The calibration value of a line after normalization.
pub open spec fn spelled_line_value(s: Seq<char>) -> int {
    line_value(normalize(s))
}

/// The calibration sum of all lines after normalization.
pub open spec fn spelled_calibration_sum(lines: Seq<Seq<char>>) -> int
    decreases lines.len(),
{
    if lines.len() == 0 {
        0
    } else {
        spelled_calibration_sum(lines.drop_last()) + spelled_line_value(lines.last())
    }
}

/// Different digits have different words.
pub proof fn lemma_word_seq_distinct(d1: int, d2: int)
    requires
        0 <= d1 < 10,
        0 <= d2 < 10,
        d1 != d2,
    ensures
        word_seq(d1) != word_seq(d2),
{
    if word_seq(d1) == word_seq(d2) {
        assert(word_seq(d1).len() == word_seq(d2).len());
        assert(word_seq(d1)[0] == word_seq(d2)[0]);
        assert(word_seq(d1)[1] == word_seq(d2)[1]);
        assert(false);
    }
}

/// Every spelled-out word is three to five characters long.
pub proof fn lemma_word_seq_len(d: int)
    requires
        0 <= d < 10,
    ensures
        3 <= word_seq(d).len() <= 5,
{
}

/// Searching from 0 equals searching from `d` when no word below `d`
/// matches.
proof fn lemma_match_from_unfound(s: Seq<char>, i: int, d: int)
    requires
        0 <= d <= 10,
        forall|dd: int| 0 <= dd < d ==> !word_matches_at(s, i, dd),
    ensures
        match_from(s, i, 0) == match_from(s, i, d),
    decreases d,
{
    if d > 0 {
        lemma_match_from_unfound(s, i, d - 1);
    }
}

/// A found match lies between `d` and 9 and its word occurs at `i`.
proof fn lemma_match_from_props(s: Seq<char>, i: int, d: int)
    requires
        0 <= d <= 10,
        match_from(s, i, d) is Some,
    ensures
        d <= match_from(s, i, d).unwrap() < 10,
        word_matches_at(s, i, match_from(s, i, d).unwrap()),
    decreases 10 - d,
{
    if d < 10 && !word_matches_at(s, i, d) {
        lemma_match_from_props(s, i, d + 1);
    }
}

/// The spelled-out word for the digit `d`.
fn word_for(d: usize) -> (r: &'static str)
    requires
        d < 10,
    ensures
        r@ == word_seq(d as int),
{
    proof {
        reveal_strlit("zero");
        reveal_strlit("one");
        reveal_strlit("two");
        reveal_strlit("three");
        reveal_strlit("four");
        reveal_strlit("five");
        reveal_strlit("six");
        reveal_strlit("seven");
        reveal_strlit("eight");
        reveal_strlit("nine");
        assert("zero"@ =~= word_seq(0));
        assert("one"@ =~= word_seq(1));
        assert("two"@ =~= word_seq(2));
        assert("three"@ =~= word_seq(3));
        assert("four"@ =~= word_seq(4));
        assert("five"@ =~= word_seq(5));
        assert("six"@ =~= word_seq(6));
        assert("seven"@ =~= word_seq(7));
        assert("eight"@ =~= word_seq(8));
        assert("nine"@ =~= word_seq(9));
    }
    match d {
        0 => "zero",
        1 => "one",
        2 => "two",
        3 => "three",
        4 => "four",
        5 => "five",
        6 => "six",
        7 => "seven",
        8 => "eight",
        _ => "nine",
    }
}

/// The one-character string holding the digit `d`.
fn digit_str_for(d: usize) -> (r: &'static str)
    requires
        d < 10,
    ensures
        r@ == seq![digit_char(d as int)],
{
    proof {
        reveal_strlit("0");
        reveal_strlit("1");
        reveal_strlit("2");
        reveal_strlit("3");
        reveal_strlit("4");
        reveal_strlit("5");
        reveal_strlit("6");
        reveal_strlit("7");
        reveal_strlit("8");
        reveal_strlit("9");
        assert("0"@ =~= seq![digit_char(0)]);
        assert("1"@ =~= seq![digit_char(1)]);
        assert("2"@ =~= seq![digit_char(2)]);
        assert("3"@ =~= seq![digit_char(3)]);
        assert("4"@ =~= seq![digit_char(4)]);
        assert("5"@ =~= seq![digit_char(5)]);
        assert("6"@ =~= seq![digit_char(6)]);
        assert("7"@ =~= seq![digit_char(7)]);
        assert("8"@ =~= seq![digit_char(8)]);
        assert("9"@ =~= seq![digit_char(9)]);
    }
    match d {
        0 => "0",
        1 => "1",
        2 => "2",
        3 => "3",
        4 => "4",
        5 => "5",
        6 => "6",
        7 => "7",
        8 => "8",
        _ => "9",
    }
}

/// Whether `w` occurs in `s` starting at character position `i`.
fn starts_with_at(s: &str, i: usize, w: &str) -> (r: bool)
    requires
        i as int <= s@.len(),
    ensures
        r == (i as int + w@.len() <= s@.len() && s@.subrange(i as int, i as int + w@.len())
            == w@),
{
    let n = s.unicode_len();
    let m = w.unicode_len();
    if m > n - i {
        return false;
    }
    let mut j: usize = 0;
    while j < m
        invariant
            j <= m,
            m == w@.len(),
            n == s@.len(),
            i + m <= n,
            forall|k: int| 0 <= k < j ==> s@[i + k] == w@[k],
        decreases m - j,
    {
        if s.get_char(i + j) != w.get_char(j) {
            proof {
                assert(s@.subrange(i as int, i as int + m as int)[j as int] == s@[i + j]);
            }
            return false;
        }
        j += 1;
    }
    proof {
        assert(s@.subrange(i as int, i as int + m as int) =~= w@);
    }
    true
}

/// The spelled-out number word that occurs in `input` at character position
/// `index`, if any; the word list is searched from "zero" to "nine".
pub fn get_spelled_out_number(input: &str, index: usize) -> (r: Option<&'static str>)
    requires
        index as int <= input@.len(),
    ensures
        match match_at(input@, index as int) {
            Some(d) => r is Some && r.unwrap()@ == word_seq(d),
            None => r is None,
        },
{
    let mut d: usize = 0;
    while d < 10
        invariant
            d <= 10,
            index as int <= input@.len(),
            forall|dd: int| 0 <= dd < d ==> !word_matches_at(input@, index as int, dd),
        decreases 10 - d,
    {
        let w = word_for(d);
        if starts_with_at(input, index, w) {
            proof {
                assert(word_matches_at(input@, index as int, d as int));
                lemma_match_from_unfound(input@, index as int, d as int);
            }
            return Some(w);
        }
        d += 1;
    }
    proof {
        lemma_match_from_unfound(input@, index as int, 10);
    }
    None
}

/// The digit string for a spelled-out number word, or `None` when the input
/// is not one of the ten words.
pub fn get_digit_for_spelled_out_number(spelled_out: &str) -> (r: Option<&'static str>)
    ensures
        match r {
            Some(ds) => (exists|d: int| #![auto] 0 <= d < 10 && spelled_out@ == word_seq(d)) && (
            forall|d: int| 0 <= d < 10 && spelled_out@ == word_seq(d) ==> ds@ == seq![
                digit_char(d),
            ]),
            None => forall|d: int| 0 <= d < 10 ==> spelled_out@ != word_seq(d),
        },
{
    let mut d: usize = 0;
    while d < 10
        invariant
            d <= 10,
            forall|dd: int| 0 <= dd < d ==> spelled_out@ != word_seq(dd),
        decreases 10 - d,
    {
        let w = word_for(d);
        if str_eq(spelled_out, w) {
            let ds = digit_str_for(d);
            proof {
                assert forall|d2: int|
                    0 <= d2 < 10 && spelled_out@ == word_seq(d2) implies ds@ == seq![
                    digit_char(d2),
                ] by {
                    if d2 != d as int {
                        lemma_word_seq_distinct(d as int, d2);
                    }
                }
            }
            return Some(ds);
        }
        d += 1;
    }
    None
}

/// The character positions of `input` where a spelled-out number word
/// starts, in increasing order.
pub fn get_spelled_out_number_indexes(input: &str) -> (r: Vec<usize>)
    ensures
        forall|k: int|
            0 <= k < r@.len() ==> (r@[k] as int) < input@.len() && match_at(
                input@,
                r@[k] as int,
            ) is Some,
        forall|i: int|
            0 <= i < input@.len() && match_at(input@, i) is Some ==> r@.contains(i as usize),
        forall|k1: int, k2: int| 0 <= k1 < k2 < r@.len() ==> r@[k1] < r@[k2],
{
    let n = input.unicode_len();
    let mut r: Vec<usize> = Vec::new();
    let mut i: usize = 0;
    while i < n
        invariant
            i <= n,
            n == input@.len(),
            forall|k: int|
                0 <= k < r@.len() ==> (r@[k] as int) < i && match_at(input@, r@[k] as int) is Some,
            forall|j: int|
                0 <= j < i && match_at(input@, j) is Some ==> r@.contains(j as usize),
            forall|k1: int, k2: int| 0 <= k1 < k2 < r@.len() ==> r@[k1] < r@[k2],
        decreases n - i,
    {
        let ghost old_r = r@;
        match get_spelled_out_number(input, i) {
            Some(_) => {
                r.push(i);
                proof {
                    assert forall|j: int|
                        0 <= j < i + 1 && match_at(input@, j) is Some implies r@.contains(
                        j as usize,
                    ) by {
                        if j < i {
                            let k = choose|k: int| 0 <= k < old_r.len() && old_r[k] == j as usize;
                            assert(r@[k] == j as usize);
                        } else {
                            assert(r@[old_r.len() as int] == i);
                        }
                    }
                }
            },
            None => {},
        }
        i += 1;
    }
    r
}

/// Rewrites every spelled-out number word of `input` to its digit, keeping
/// all other characters except those suppressed by a recognized word.
pub fn replace_spelled_out(input: &str) -> (r: String)
    ensures
        r@ == normalize(input@),
{
    let n = input.unicode_len();
    let mut result = String::new();
    let mut total_chars_to_skip: usize = 0;
    let mut index: usize = 0;
    proof {
        assert(result@ + normalize_from(input@, 0, 0) =~= normalize(input@));
    }
    while index < n
        invariant
            index <= n,
            n == input@.len(),
            result@ + normalize_from(input@, index as int, total_chars_to_skip as int)
                == normalize(input@),
        decreases n - index,
    {
        let ghost tail = normalize_from(input@, index as int, total_chars_to_skip as int);
        match get_spelled_out_number(input, index) {
            Some(spelled_out) => {
                proof {
                    lemma_match_from_props(input@, index as int, 0);
                }
                let ghost d = match_at(input@, index as int).unwrap();
                let digit = match get_digit_for_spelled_out_number(spelled_out) {
                    Some(ds) => ds,
                    None => {
                        proof {
                            assert(spelled_out@ == word_seq(d));
                            assert(false);
                        }
                        ""
                    },
                };
                proof {
                    assert(digit@ == seq![digit_char(d)]);
                    assert(tail == seq![digit_char(d)] + normalize_from(
                        input@,
                        index + 1,
                        word_seq(d).len() - 1,
                    ));
                }
                result.append(digit);
                let wlen = spelled_out.unicode_len();
                proof {
                    lemma_word_seq_len(d);
                    assert((result@ + normalize_from(input@, index + 1, word_seq(d).len() - 1))
                        =~= normalize(input@));
                }
                total_chars_to_skip = wlen - 1;
            },
            None => {
                if total_chars_to_skip == 0 {
                    let c = input.get_char(index);
                    proof {
                        assert(tail == seq![input@[index as int]] + normalize_from(
                            input@,
                            index + 1,
                            0,
                        ));
                    }
                    push_char(&mut result, c);
                    proof {
                        assert((result@ + normalize_from(input@, index + 1, 0)) =~= normalize(
                            input@,
                        ));
                    }
                } else {
                    proof {
                        assert(tail == normalize_from(
                            input@,
                            index + 1,
                            total_chars_to_skip - 1,
                        ));
                    }
                    total_chars_to_skip -= 1;
                }
            },
        }
        index += 1;
    }
    proof {
        assert(normalize_from(input@, n as int, total_chars_to_skip as int)
            =~= Seq::<char>::empty());
        assert(result@ + Seq::<char>::empty() =~= result@);
    }
    result
}

/// Applies `replace_spelled_out` to each string of a collection.
pub fn replace_spelled_out_strings(input: &Vec<String>) -> (r: Vec<String>)
    ensures
        r@.len() == input@.len(),
        forall|i: int| 0 <= i < input@.len() ==> r@[i]@ == normalize(input@[i]@),
{
    let mut r: Vec<String> = Vec::new();
    let mut i: usize = 0;
    while i < input.len()
        invariant
            i <= input@.len(),
            r@.len() == i,
            forall|j: int| 0 <= j < i ==> r@[j]@ == normalize(input@[j]@),
        decreases input@.len() - i,
    {
        r.push(replace_spelled_out(input[i].as_str()));
        i += 1;
    }
    r
}

/// From a position on, a line in which no word occurs is passed through
/// unchanged.
proof fn lemma_normalize_from_no_match(s: Seq<char>, i: int)
    requires
        0 <= i <= s.len(),
        forall|j: int| 0 <= j < s.len() ==> match_at(s, j) is None,
    ensures
        normalize_from(s, i, 0) == s.subrange(i, s.len() as int),
    decreases s.len() - i,
{
    if i < s.len() {
        lemma_normalize_from_no_match(s, i + 1);
        assert(s.subrange(i, s.len() as int) =~= seq![s[i]] + s.subrange(i + 1, s.len() as int));
    } else {
        assert(s.subrange(i, s.len() as int) =~= Seq::<char>::empty());
    }
}

/// Normalizing a line in which no spelled-out number word occurs leaves the
/// line unchanged, so the digit filter gives the same calibration value on
/// the normalized line as on the original.
pub proof fn lemma_normalize_no_spelled_words(s: Seq<char>)
    requires
        forall|i: int| 0 <= i < s.len() ==> match_at(s, i) is None,
    ensures
        normalize(s) == s,
        spelled_line_value(s) == line_value(s),
{
    lemma_normalize_from_no_match(s, 0);
    assert(s.subrange(0, s.len() as int) =~= s);
}

/// The calibration sum of the normalized lines is the spelled calibration
/// sum of the original lines.
pub proof fn lemma_calibration_sum_of_normalized(orig: Seq<Seq<char>>, norm: Seq<Seq<char>>)
    requires
        norm.len() == orig.len(),
        forall|i: int| 0 <= i < orig.len() ==> norm[i] == normalize(#[trigger] orig[i]),
    ensures
        calibration_sum(norm) == spelled_calibration_sum(orig),
    decreases orig.len(),
{
    if orig.len() > 0 {
        lemma_calibration_sum_of_normalized(orig.drop_last(), norm.drop_last());
        assert(norm.last() == normalize(orig.last()));
    }
}

} // verus!
