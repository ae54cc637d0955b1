//! The two calibration pipelines over a whole input: the plain digit filter,
//! and the spelled-number normalizer followed by the digit filter.

use vstd::prelude::*;
use crate::digits::{
    calibration_sum, digits_of, filter_digits_in_strings, filter_first_and_last_strings,
    first_and_last, lemma_calibration_sum_bounds, lemma_parsed_sum_of_line_values, parsed_sum,
    sum_digits_in_strings,
};
use crate::input::Input;
use crate::spelled::{
    lemma_calibration_sum_of_normalized, normalize, replace_spelled_out_strings,
    spelled_calibration_sum,
};
use crate::text::line_views;

verus! {

/// Sums the calibration values of all lines: in each line, only the digits
/// are kept, the first and the last of them form a two-digit number, and a
/// line with no digit counts 0.
pub fn get_calibration_sum(input: &Input) -> (r: i32)
    requires
        99 * input@.len() <= i32::MAX,
    ensures
        r as int == calibration_sum(input@),
{
    let lines = input.lines();
    let digits_only = filter_digits_in_strings(lines);
    let pairs = filter_first_and_last_strings(&digits_only);
    proof {
        let lv = line_views(pairs@);
        assert forall|i: int| 0 <= i < input@.len() implies lv[i] == first_and_last(
            digits_of(#[trigger] input@[i]),
        ) by {
            assert(lines@[i]@ == input@[i]);
            assert(digits_only@[i]@ == digits_of(lines@[i]@));
            assert(pairs@[i]@ == first_and_last(digits_only@[i]@));
        }
        assert forall|k: int| 0 <= k <= pairs@.len() implies i32::MIN <= #[trigger] parsed_sum(
            line_views(pairs@).subrange(0, k),
        ) <= i32::MAX by {
            let origk = input@.subrange(0, k);
            let lvk = lv.subrange(0, k);
            assert forall|i: int| 0 <= i < origk.len() implies lvk[i] == first_and_last(
                digits_of(#[trigger] origk[i]),
            ) by {
                assert(origk[i] == input@[i]);
                assert(lvk[i] == lv[i]);
            }
            lemma_parsed_sum_of_line_values(origk, lvk);
            lemma_calibration_sum_bounds(origk);
        }
        lemma_parsed_sum_of_line_values(input@, lv);
    }
    sum_digits_in_strings(&pairs)
}

/// The digit-filter pipeline over the whole input.
pub fn part1(input: &Input) -> (r: i32)
    requires
        99 * input@.len() <= i32::MAX,
    ensures
        r as int == calibration_sum(input@),
{
    get_calibration_sum(input)
}

/// The normalizer pipeline over the whole input: every spelled-out number
/// word is rewritten to its digit (recognizing overlapping words), and the
/// digit filter then sums the calibration values of the rewritten lines.
pub fn part2(input: &Input) -> (r: i32)
    requires
        99 * input@.len() <= i32::MAX,
    ensures
        r as int == spelled_calibration_sum(input@),
{
    let lines = input.lines();
    let no_spelled = replace_spelled_out_strings(lines);
    let digits_only = filter_digits_in_strings(&no_spelled);
    let pairs = filter_first_and_last_strings(&digits_only);
    proof {
        let norm = line_views(no_spelled@);
        let lv = line_views(pairs@);
        assert forall|i: int| 0 <= i < input@.len() implies norm[i] == normalize(
            #[trigger] input@[i],
        ) by {
            assert(lines@[i]@ == input@[i]);
            assert(no_spelled@[i]@ == normalize(lines@[i]@));
        }
        assert forall|i: int| 0 <= i < norm.len() implies lv[i] == first_and_last(
            digits_of(#[trigger] norm[i]),
        ) by {
            assert(digits_only@[i]@ == digits_of(no_spelled@[i]@));
            assert(pairs@[i]@ == first_and_last(digits_only@[i]@));
        }
        assert forall|k: int| 0 <= k <= pairs@.len() implies i32::MIN <= #[trigger] parsed_sum(
            line_views(pairs@).subrange(0, k),
        ) <= i32::MAX by {
            let normk = norm.subrange(0, k);
            let lvk = lv.subrange(0, k);
            assert forall|i: int| 0 <= i < normk.len() implies lvk[i] == first_and_last(
                digits_of(#[trigger] normk[i]),
            ) by {
                assert(normk[i] == norm[i]);
                assert(lvk[i] == lv[i]);
            }
            lemma_parsed_sum_of_line_values(normk, lvk);
            lemma_calibration_sum_bounds(normk);
        }
        lemma_parsed_sum_of_line_values(norm, lv);
        lemma_calibration_sum_of_normalized(input@, norm);
    }
    sum_digits_in_strings(&pairs)
}

} // verus!
