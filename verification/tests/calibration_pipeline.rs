use calibration::input::Input;
use calibration::puzzle::{get_calibration_sum, part1, part2};

#[test]
fn test_part1() {
    // Given an input of strings
    let input = Input::from_lines(&["1abc2", "pqr3stu8vwx", "a1b2c3d4e5f", "treb7uchet"]);

    // Then it should return their calibration sum
    assert_eq!(part1(&input), 142);
}

#[test]
fn test_part2() {
    // Given an input of strings containing spelled out numbers
    let input = Input::from_lines(&[
        "two1nine",
        "eightwothree",
        "abcone2threexyz",
        "xtwone3four",
        "4nineeightseven2",
        "zoneight234",
        "7pqrstsixteen",
    ]);

    // Then it should return their calibration sum
    assert_eq!(part2(&input), 281);
}

#[test]
fn main_test_part1() {
    let input = Input::from_lines(&[]);
    assert_eq!(part1(&input), 0);
}

#[test]
fn main_test_part2() {
    let input = Input::from_lines(&[]);
    assert_eq!(part2(&input), 0);
}

#[test]
fn test_get_calibration_sum() {
    // Given an input of lines that consist of alphabetical and numerical characters
    let input = Input::from_lines(&["1abc2", "pqr3stu8vwx", "a1b2c3d4e5f", "treb7uchet"]);

    // When get_calibration_sum is called
    let actual = get_calibration_sum(&input);

    // Then it should return the sum of each line's numerical value
    // which consists of the first and last digit of said line
    assert_eq!(
        actual, 142,
        "get_calibration_sum should return 142 for the provided input"
    );
}

#[test]
fn test_from_lines() {
    // Given an array of lines
    let lines = ["Line 1", "Line 2", "Line 3"];

    // When Input is created from these lines
    let input = Input::from_lines(&lines);

    // Then it should contain the lines
    assert_eq!(
        input.lines(),
        &vec!["Line 1", "Line 2", "Line 3"],
        "Input.lines() should return [\"Line 1\", \"Line 2\", \"Line 3\"]"
    );
}

#[test]
fn single_digit_line_counts_twice() {
    // A line whose only digit is 7 has calibration value 77
    let input = Input::from_lines(&["treb7uchet"]);
    assert_eq!(part1(&input), 77);
    let bare = Input::from_lines(&["7"]);
    assert_eq!(part1(&bare), 77);
}

#[test]
fn line_without_digits_counts_zero() {
    let input = Input::from_lines(&["trebuchet", "1abc2"]);
    assert_eq!(part1(&input), 12);
}

#[test]
fn overlap_lines_end_to_end() {
    // "eightwothree" normalizes to "823": first digit 8, last digit 3
    let input = Input::from_lines(&["eightwothree"]);
    assert_eq!(part2(&input), 83);
    // "zoneight234" normalizes to "z18234": first digit 1, last digit 4
    let zo = Input::from_lines(&["zoneight234"]);
    assert_eq!(part2(&zo), 14);
}

#[test]
fn sum_is_order_independent() {
    let forward = Input::from_lines(&["1abc2", "pqr3stu8vwx", "a1b2c3d4e5f", "treb7uchet"]);
    let backward = Input::from_lines(&["treb7uchet", "a1b2c3d4e5f", "pqr3stu8vwx", "1abc2"]);
    assert_eq!(part1(&forward), part1(&backward));
}

#[test]
fn sum_splits_into_partial_sums() {
    let whole = Input::from_lines(&["1abc2", "pqr3stu8vwx", "a1b2c3d4e5f", "treb7uchet"]);
    let front = Input::from_lines(&["1abc2", "pqr3stu8vwx"]);
    let back = Input::from_lines(&["a1b2c3d4e5f", "treb7uchet"]);
    assert_eq!(part1(&whole), part1(&front) + part1(&back));
}

#[test]
fn normalizing_without_spelled_words_changes_nothing() {
    // With no spelled-out words, both pipelines agree
    let input = Input::from_lines(&["1abc2", "pqr3stu8vwx", "a1b2c3d4e5f", "treb7uchet"]);
    assert_eq!(part2(&input), part1(&input));
}
