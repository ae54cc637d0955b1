//! The digit filter: keep only the ASCII digits of a line, keep the first
//! and the last of them, read the pair as a two-digit number, and sum those
//! numbers over all lines.

use vstd::prelude::*;
use vstd::seq_lib::{commutative_foldr, lemma_fold_right_permutation};
use crate::numbers::{all_digit_chars, digits_value, int_body, parse_i32, parsed_i32};
use crate::text::{digit_val, is_ascii_digit_char, is_digit_char, line_views, push_char};

verus! {

/// The ASCII digits of `s`, in order.
pub open spec fn digits_of(s: Seq<char>) -> Seq<char>
    decreases s.len(),
{
    if s.len() == 0 {
        Seq::empty()
    } else if is_digit_char(s[0]) {
        seq![s[0]] + digits_of(s.drop_first())
    } else {
        digits_of(s.drop_first())
    }
}

/// Whether `s` holds at least one ASCII digit.
pub open spec fn has_digit(s: Seq<char>) -> bool {
    exists|i: int| 0 <= i < s.len() && is_digit_char(s[i])
}

/// The first and the last character of `s`; a single character serves as
/// both; an empty `s` gives an empty result.
pub open spec fn first_and_last(s: Seq<char>) -> Seq<char> {
    if s.len() == 0 {
        Seq::empty()
    } else {
        seq![s[0], s[s.len() - 1]]
    }
}

/// The calibration value of one line: the two-digit number formed from the
/// first and the last digit of the line, or 0 when the line has no digit.
pub open spec fn line_value(s: Seq<char>) -> int {
    let ds = digits_of(s);
    if ds.len() == 0 {
        0
    } else {
        10 * digit_val(ds[0]) + digit_val(ds[ds.len() - 1])
    }
}

/// The calibration sum: the sum of the calibration values of all lines.
pub open spec fn calibration_sum(lines: Seq<Seq<char>>) -> int
    decreases lines.len(),
{
    if lines.len() == 0 {
        0
    } else {
        calibration_sum(lines.drop_last()) + line_value(lines.last())
    }
}

/// What one string contributes to a sum of parsed values: its value as an
/// `i32`, or 0 when it does not parse.
pub open spec fn parsed_or_zero(s: Seq<char>) -> int {
    match parsed_i32(s) {
        Some(v) => v as int,
        None => 0,
    }
}

/// The sum of the parsed values of all lines, unparsable lines counting 0.
pub open spec fn parsed_sum(lines: Seq<Seq<char>>) -> int
    decreases lines.len(),
{
    if lines.len() == 0 {
        0
    } else {
        parsed_sum(lines.drop_last()) + parsed_or_zero(lines.last())
    }
}

/// Keeps only the ASCII digits of `input`, preserving their order.
pub fn filter_digits(input: &str) -> (r: String)
    ensures
        r@ == digits_of(input@),
{
    let n = input.unicode_len();
    let mut r = String::new();
    let mut i: usize = 0;
    proof {
        assert(input@.subrange(0, n as int) =~= input@);
        assert(r@ + digits_of(input@) =~= digits_of(input@));
    }
    while i < n
        invariant
            i <= n,
            n == input@.len(),
            r@ + digits_of(input@.subrange(i as int, n as int)) == digits_of(input@),
        decreases n - i,
    {
        let c = input.get_char(i);
        let ghost rest = input@.subrange(i as int, n as int);
        proof {
            assert(rest.drop_first() =~= input@.subrange(i + 1, n as int));
            assert(rest[0] == input@[i as int]);
        }
        if is_ascii_digit_char(c) {
            push_char(&mut r, c);
        }
        proof {
            assert(r@ + digits_of(input@.subrange(i + 1, n as int)) =~= digits_of(input@));
        }
        i += 1;
    }
    proof {
        assert(digits_of(input@.subrange(n as int, n as int)) =~= Seq::<char>::empty());
        assert(r@ + Seq::<char>::empty() =~= r@);
    }
    r
}

/// Applies `filter_digits` to each string of a collection.
pub fn filter_digits_in_strings(input: &Vec<String>) -> (r: Vec<String>)
    ensures
        r@.len() == input@.len(),
        forall|i: int| 0 <= i < input@.len() ==> r@[i]@ == digits_of(input@[i]@),
{
    let mut r: Vec<String> = Vec::new();
    let mut i: usize = 0;
    while i < input.len()
        invariant
            i <= input@.len(),
            r@.len() == i,
            forall|j: int| 0 <= j < i ==> r@[j]@ == digits_of(input@[j]@),
        decreases input@.len() - i,
    {
        r.push(filter_digits(input[i].as_str()));
        i += 1;
    }
    r
}

/// Keeps only the first and the last character of `input`; a single
/// character is used for both positions, and an empty input gives an empty
/// result.
pub fn filter_first_and_last(input: &str) -> (r: String)
    ensures
        r@ == first_and_last(input@),
{
    let n = input.unicode_len();
    let mut r = String::new();
    if n > 0 {
        let f = input.get_char(0);
        let l = input.get_char(n - 1);
        push_char(&mut r, f);
        push_char(&mut r, l);
        proof {
            assert(r@ =~= first_and_last(input@));
        }
    } else {
        proof {
            assert(r@ =~= first_and_last(input@));
        }
    }
    r
}

/// Applies `filter_first_and_last` to each string of a collection.
pub fn filter_first_and_last_strings(input: &Vec<String>) -> (r: Vec<String>)
    ensures
        r@.len() == input@.len(),
        forall|i: int| 0 <= i < input@.len() ==> r@[i]@ == first_and_last(input@[i]@),
{
    let mut r: Vec<String> = Vec::new();
    let mut i: usize = 0;
    while i < input.len()
        invariant
            i <= input@.len(),
            r@.len() == i,
            forall|j: int| 0 <= j < i ==> r@[j]@ == first_and_last(input@[j]@),
        decreases input@.len() - i,
    {
        r.push(filter_first_and_last(input[i].as_str()));
        i += 1;
    }
    r
}

/// Sums the numeric values of the strings of a collection; a string that
/// does not parse as an `i32` contributes 0.
pub fn sum_digits_in_strings(input: &Vec<String>) -> (r: i32)
    requires
        forall|k: int| 0 <= k <= input@.len() ==> i32::MIN <= #[trigger] parsed_sum(
            line_views(input@).subrange(0, k),
        ) <= i32::MAX,
    ensures
        r as int == parsed_sum(line_views(input@)),
{
    let ghost lv = line_views(input@);
    let mut acc: i32 = 0;
    let mut i: usize = 0;
    while i < input.len()
        invariant
            i <= input@.len(),
            lv == line_views(input@),
            lv.len() == input@.len(),
            acc as int == parsed_sum(lv.subrange(0, i as int)),
            forall|k: int| 0 <= k <= input@.len() ==> i32::MIN <= #[trigger] parsed_sum(
                lv.subrange(0, k),
            ) <= i32::MAX,
        decreases input@.len() - i,
    {
        let ghost pref1 = lv.subrange(0, i + 1);
        proof {
            assert(pref1.drop_last() =~= lv.subrange(0, i as int));
            assert(pref1.last() == input@[i as int]@);
            assert(parsed_sum(pref1) == parsed_sum(lv.subrange(0, i as int)) + parsed_or_zero(
                input@[i as int]@,
            ));
        }
        match parse_i32(input[i].as_str()) {
            Some(v) => {
                acc = acc + v;
            },
            None => {},
        }
        i += 1;
    }
    proof {
        assert(lv.subrange(0, lv.len() as int) =~= lv);
    }
    acc
}

/// Every character that the digit filter keeps is an ASCII digit.
pub proof fn lemma_digits_of_all_digits(s: Seq<char>)
    ensures
        all_digit_chars(digits_of(s)),
    decreases s.len(),
{
    if s.len() > 0 {
        lemma_digits_of_all_digits(s.drop_first());
    }
}

/// The digit filter keeps nothing exactly when the line has no digit.
pub proof fn lemma_digits_of_empty_iff(s: Seq<char>)
    ensures
        digits_of(s).len() == 0 <==> !has_digit(s),
    decreases s.len(),
{
    if s.len() > 0 {
        let rest = s.drop_first();
        lemma_digits_of_empty_iff(rest);
        if is_digit_char(s[0]) {
            assert(has_digit(s));
        } else {
            assert(has_digit(s) <==> has_digit(rest)) by {
                if has_digit(s) {
                    let i = choose|i: int| 0 <= i < s.len() && is_digit_char(s[i]);
                    assert(rest[i - 1] == s[i]);
                    assert(has_digit(rest));
                }
                if has_digit(rest) {
                    let i = choose|i: int| 0 <= i < rest.len() && is_digit_char(rest[i]);
                    assert(s[i + 1] == rest[i]);
                    assert(has_digit(s));
                }
            }
        }
    }
}

/// The digit filter reads off the first and the last digit of the line:
/// for a line with at least one digit, the first kept character is the
/// earliest digit of the line, the last kept character is the latest digit,
/// and the line's calibration value is the two-digit number they form.
pub proof fn lemma_digit_filter_first_last(s: Seq<char>)
    requires
        has_digit(s),
    ensures
        digits_of(s).len() > 0,
        line_value(s) == 10 * digit_val(digits_of(s)[0]) + digit_val(digits_of(s).last()),
        exists|i: int|
            #![auto]
            0 <= i < s.len() && is_digit_char(s[i]) && digits_of(s)[0] == s[i] && (forall|j: int|
                0 <= j < i ==> !is_digit_char(s[j])),
        exists|i: int|
            #![auto]
            0 <= i < s.len() && is_digit_char(s[i]) && digits_of(s).last() == s[i] && (forall|
                j: int,
            |
                i < j < s.len() ==> !is_digit_char(s[j])),
    decreases s.len(),
{
    lemma_digits_of_empty_iff(s);
    let ds = digits_of(s);
    let rest = s.drop_first();
    if is_digit_char(s[0]) {
        assert(ds == seq![s[0]] + digits_of(rest));
        assert(ds[0] == s[0]);
        assert(0 <= 0 < s.len() && is_digit_char(s[0]) && ds[0] == s[0] && (forall|j: int|
            0 <= j < 0 ==> !is_digit_char(s[j])));
        lemma_digits_of_empty_iff(rest);
        if has_digit(rest) {
            lemma_digit_filter_first_last(rest);
            let i = choose|i: int|
                #![auto]
                0 <= i < rest.len() && is_digit_char(rest[i]) && digits_of(rest).last() == rest[i]
                    && (forall|j: int| i < j < rest.len() ==> !is_digit_char(rest[j]));
            assert(ds.last() == digits_of(rest).last());
            assert(s[i + 1] == rest[i]);
            assert forall|j: int| i + 1 < j < s.len() implies !is_digit_char(s[j]) by {
                assert(rest[j - 1] == s[j]);
            }
            assert(0 <= i + 1 < s.len() && is_digit_char(s[i + 1]) && ds.last() == s[i + 1] && (
            forall|j: int| i + 1 < j < s.len() ==> !is_digit_char(s[j])));
        } else {
            assert(digits_of(rest) =~= Seq::<char>::empty());
            assert(ds =~= seq![s[0]]);
            assert(ds.last() == s[0]);
            assert forall|j: int| 0 < j < s.len() implies !is_digit_char(s[j]) by {
                assert(rest[j - 1] == s[j]);
            }
            assert(0 <= 0 < s.len() && is_digit_char(s[0]) && ds.last() == s[0] && (forall|j: int|
                0 < j < s.len() ==> !is_digit_char(s[j])));
        }
    } else {
        assert(has_digit(rest)) by {
            let i = choose|i: int| 0 <= i < s.len() && is_digit_char(s[i]);
            assert(rest[i - 1] == s[i]);
        }
        lemma_digit_filter_first_last(rest);
        assert(ds == digits_of(rest));
        let i0 = choose|i: int|
            #![auto]
            0 <= i < rest.len() && is_digit_char(rest[i]) && digits_of(rest)[0] == rest[i] && (
            forall|j: int| 0 <= j < i ==> !is_digit_char(rest[j]));
        assert(s[i0 + 1] == rest[i0]);
        assert forall|j: int| 0 <= j < i0 + 1 implies !is_digit_char(s[j]) by {
            if j > 0 {
                assert(rest[j - 1] == s[j]);
            }
        }
        assert(0 <= i0 + 1 < s.len() && is_digit_char(s[i0 + 1]) && ds[0] == s[i0 + 1] && (forall|
            j: int,
        |
            0 <= j < i0 + 1 ==> !is_digit_char(s[j])));
        let i1 = choose|i: int|
            #![auto]
            0 <= i < rest.len() && is_digit_char(rest[i]) && digits_of(rest).last() == rest[i] && (
            forall|j: int| i < j < rest.len() ==> !is_digit_char(rest[j]));
        assert(s[i1 + 1] == rest[i1]);
        assert forall|j: int| i1 + 1 < j < s.len() implies !is_digit_char(s[j]) by {
            assert(rest[j - 1] == s[j]);
        }
        assert(0 <= i1 + 1 < s.len() && is_digit_char(s[i1 + 1]) && ds.last() == s[i1 + 1] && (
        forall|j: int| i1 + 1 < j < s.len() ==> !is_digit_char(s[j])));
    }
}

/// A line with no digit contributes nothing to the calibration sum.
pub proof fn lemma_line_value_no_digits(s: Seq<char>)
    requires
        !has_digit(s),
    ensures
        line_value(s) == 0,
{
    lemma_digits_of_empty_iff(s);
}

/// A line with exactly one digit uses that digit in both positions of its
/// calibration value.
pub proof fn lemma_line_value_single_digit(s: Seq<char>)
    requires
        digits_of(s).len() == 1,
    ensures
        line_value(s) == 11 * digit_val(digits_of(s)[0]),
{
}

/// Keeping the first and the last digit of a line and parsing the pair
/// yields the line's calibration value, which lies between 0 and 99.
pub proof fn lemma_parse_first_last_digits(l: Seq<char>)
    ensures
        0 <= line_value(l) <= 99,
        parsed_or_zero(first_and_last(digits_of(l))) == line_value(l),
{
    lemma_digits_of_all_digits(l);
    let ds = digits_of(l);
    if ds.len() == 0 {
        assert(first_and_last(ds) =~= Seq::<char>::empty());
    } else {
        let fl = first_and_last(ds);
        assert(is_digit_char(ds[0]));
        assert(is_digit_char(ds[ds.len() - 1]));
        assert(fl[0] != '-' && fl[0] != '+');
        assert(int_body(fl) == fl);
        assert(all_digit_chars(fl));
        assert(fl.drop_last() =~= seq![ds[0]]);
        assert(seq![ds[0]].drop_last() =~= Seq::<char>::empty());
        assert(digits_value(Seq::<char>::empty()) == 0);
        assert(digits_value(seq![ds[0]]) == digit_val(ds[0]));
        assert(fl.last() == ds[ds.len() - 1]);
        assert(digits_value(fl) == 10 * digit_val(ds[0]) + digit_val(ds[ds.len() - 1]));
        assert(0 <= digit_val(ds[0]) <= 9);
        assert(0 <= digit_val(ds[ds.len() - 1]) <= 9);
    }
}

/// Parsing the two-character lines built by the first-and-last step sums to
/// the calibration sum of the original lines.
pub proof fn lemma_parsed_sum_of_line_values(orig: Seq<Seq<char>>, two: Seq<Seq<char>>)
    requires
        two.len() == orig.len(),
        forall|i: int| 0 <= i < orig.len() ==> two[i] == first_and_last(digits_of(#[trigger] orig[i])),
    ensures
        parsed_sum(two) == calibration_sum(orig),
    decreases orig.len(),
{
    if orig.len() > 0 {
        lemma_parsed_sum_of_line_values(orig.drop_last(), two.drop_last());
        lemma_parse_first_last_digits(orig.last());
        assert(two.last() == first_and_last(digits_of(orig.last())));
    }
}

/// The calibration sum of `n` lines lies between 0 and `99 * n`.
pub proof fn lemma_calibration_sum_bounds(lines: Seq<Seq<char>>)
    ensures
        0 <= calibration_sum(lines) <= 99 * lines.len(),
    decreases lines.len(),
{
    if lines.len() > 0 {
        lemma_calibration_sum_bounds(lines.drop_last());
        lemma_parse_first_last_digits(lines.last());
    }
}

/// Folding line values over a sequence of lines computes the calibration
/// sum, whatever the fold starts from.
proof fn lemma_calibration_sum_foldr(
    lines: Seq<Seq<char>>,
    f: spec_fn(Seq<char>, int) -> int,
    v: int,
)
    requires
        forall|l: Seq<char>, acc: int| #[trigger] f(l, acc) == line_value(l) + acc,
    ensures
        lines.fold_right(f, v) == calibration_sum(lines) + v,
    decreases lines.len(),
{
    if lines.len() > 0 {
        lemma_calibration_sum_foldr(lines.drop_last(), f, f(lines.last(), v));
    }
}

/// The calibration sum does not depend on the order of the lines.
pub proof fn lemma_calibration_sum_reorder(a: Seq<Seq<char>>, b: Seq<Seq<char>>)
    requires
        a.to_multiset() == b.to_multiset(),
    ensures
        calibration_sum(a) == calibration_sum(b),
{
    let f = |l: Seq<char>, acc: int| line_value(l) + acc;
    lemma_calibration_sum_foldr(a, f, 0);
    lemma_calibration_sum_foldr(b, f, 0);
    assert forall|x: Seq<char>, y: Seq<char>, v0: int| #[trigger] f(x, f(y, v0)) == f(
        y,
        f(x, v0),
    ) by {}
    assert(commutative_foldr(f));
    lemma_fold_right_permutation(a, b, f, 0);
}

/// Splitting the lines anywhere and adding the two partial calibration sums
/// gives the calibration sum of the whole.
pub proof fn lemma_calibration_sum_concat(a: Seq<Seq<char>>, b: Seq<Seq<char>>)
    ensures
        calibration_sum(a + b) == calibration_sum(a) + calibration_sum(b),
    decreases b.len(),
{
    if b.len() == 0 {
        assert(a + b =~= a);
    } else {
        lemma_calibration_sum_concat(a, b.drop_last());
        assert((a + b).drop_last() =~= a + b.drop_last());
        assert((a + b).last() == b.last());
    }
}

} // verus!
