use calibration::digits::{
    filter_digits, filter_digits_in_strings, filter_first_and_last, filter_first_and_last_strings,
    sum_digits_in_strings,
};

#[test]
fn test_filter_digits() {
    // Given a string input with letters and digits
    let input: &str = "1abc2";

    // When filter_digits is called
    let actual: String = filter_digits(input);

    // Then it should return only digits
    assert_eq!(
        actual, "12",
        "filter_digits should return '12' for an input of '1abc2'"
    )
}

#[test]
fn test_filter_digits_in_strings() {
    // Given an array of strings containing letters and digits
    let input: Vec<String> = vec!["1abc2", "pqr3stu8vwx", "a1b2c3d4e5f", "treb7uchet"]
        .into_iter()
        .map(|s| s.to_string())
        .collect();
    let expected: Vec<&str> = vec!["12", "38", "12345", "7"];

    // When filter_digits_in_strings is called
    let actual: Vec<String> = filter_digits_in_strings(&input);

    // Then it should return an array of strings containing only the digits
    assert_eq!(
        actual, expected,
        "filter_digits_in_strings should return a vector of strings \
               containing only digits"
    )
}

#[test]
fn several_characters() {
    // Then it should return a string containing the first and last characters
    // when the input string contains several characters
    assert_eq!(
        filter_first_and_last("12345"),
        "15",
        "filter_first_and_last should return '15' for an input of '12345'"
    )
}

#[test]
fn single_character() {
    // Then it should return a string containing the character twice
    // when the input string consists of a single character
    assert_eq!(
        filter_first_and_last("1"),
        "11",
        "filter_first_and_last should return '11' for an input of '1'"
    )
}

#[test]
fn empty_string() {
    // Then it should return an empty string when the input is an empty string
    assert_eq!(
        filter_first_and_last(""),
        "",
        "filter_first_and_last should return an empty string \
               when the input is an empty string"
    )
}

#[test]
fn test_filter_first_last_strings() {
    // Given a vector of strings that consists of numerical values
    let input: Vec<String> = vec!["1542", "308", "115", "7"]
        .into_iter()
        .map(|s| s.to_string())
        .collect();

    let expected: Vec<&str> = vec!["12", "38", "15", "77"];

    // When filter_first_last_strings is called
    let actual = filter_first_and_last_strings(&input);

    // Then it should return an array of strings,
    // each of which consists of the first and last digits in the numerical values
    assert_eq!(
        actual, expected,
        "filter_first_and_last_strings should return \
               [\"12\", \"38\", \"15\", \"77\"] when  the input is \
               [\"1542\", \"308\", \"115\", \"7\"]"
    )
}

#[test]
fn positive_numbers() {
    // Given a vector of strings that consist of positive numerical values
    let input: Vec<String> = vec!["12", "38", "15", "77"]
        .into_iter()
        .map(|s| s.to_string())
        .collect();

    // When sum_digits_in_strings is called
    let actual: i32 = sum_digits_in_strings(&input);

    // Then it should return the sum of the digits in all the strings
    assert_eq!(
        actual, 142,
        "sum_digits_in_strings should return 142 \
               for an input of [\"12\", \"38\", \"15\", \"77\"]"
    )
}

#[test]
fn negative_numbers() {
    // Given a vector of strings that consist of negative numerical values
    let input: Vec<String> = vec!["-12", "-38", "-15", "-77"]
        .into_iter()
        .map(|s| s.to_string())
        .collect();

    // When sum_digits_in_strings is called
    let actual: i32 = sum_digits_in_strings(&input);

    // Then it should return the sum of the digits in all the strings
    assert_eq!(
        actual, -142,
        "sum_digits_in_strings should return -142 \
               for an input of [\"-12\", \"-38\", \"-15\", \"-77\"]"
    )
}

#[test]
fn mixed_numbers() {
    // Given a vector of strings that consist of positive and negative numerical values
    let input: Vec<String> = vec!["12", "-38", "15", "77"]
        .into_iter()
        .map(|s| s.to_string())
        .collect();

    // When sum_digits_in_strings is called
    let actual: i32 = sum_digits_in_strings(&input);

    // Then it should return the sum of the digits in all the strings
    assert_eq!(
        actual, 66,
        "sum_digits_in_strings should return 66 \
               for an input of [\"12\", \"-38\", \"15\", \"77\"]"
    )
}

#[test]
fn unparsable_strings_contribute_zero() {
    // Given strings that do not parse as numbers: empty, non-numeric,
    // an embedded sign, and a value out of the i32 range
    let input: Vec<String> = vec!["", "abc", "1+2", "2147483648"]
        .into_iter()
        .map(|s| s.to_string())
        .collect();

    // Then each contributes 0 to the sum
    assert_eq!(sum_digits_in_strings(&input), 0);
}

#[test]
fn plus_sign_and_extremes_parse() {
    // Given values with an explicit plus sign and at both ends of the range
    let input: Vec<String> = vec!["+5", "2147483647", "-2147483648", "1"]
        .into_iter()
        .map(|s| s.to_string())
        .collect();

    // Then they sum as parsed: 5 + 2147483647 - 2147483648 + 1
    assert_eq!(sum_digits_in_strings(&input), 5);
}

#[test]
fn filter_digits_no_digits() {
    // A line without digits filters to the empty string
    assert_eq!(filter_digits("trebuchet"), "");
}
