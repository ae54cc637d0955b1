use calibration::spelled::{
    get_digit_for_spelled_out_number, get_spelled_out_number, get_spelled_out_number_indexes,
    replace_spelled_out, replace_spelled_out_strings,
};

#[test]
fn test_get_digit_for_spelled_out_number() {
    // Given a single spelled out number as a string
    let input = "eight";

    // When convert_to_digits is called
    let actual = get_digit_for_spelled_out_number(&input).unwrap();

    // Then it should return the spelled out number in digits
    assert_eq!(
        actual, "8",
        "convert_to_digits should return \"8\" for an input of \"eight\""
    )
}

#[test]
fn test_spelled_out_number_with_index_at_start() {
    // Give a string that consists of a spelled-out number and an index at the start
    let input = "eight";
    let index = 0;

    // When get_spelled_out_number is called
    let actual = get_spelled_out_number(input, index).unwrap();

    // Then it should return the spelled-out number
    assert_eq!(
        actual, input,
        "get_spelled_out_number should return \
        \"eight\" for an input of \"eight\" and an index of 0"
    )
}

#[test]
fn test_spelled_out_number_with_index_after_start() {
    // Give a string that consists of a spelled-out number and an index past the start
    let input = "eight";
    let index = 1;

    // When get_spelled_out_number is called
    let actual = get_spelled_out_number(input, index);

    // Then it should return None
    assert_eq!(
        actual, None,
        "get_spelled_out_number should return \
        None for an input of \"eight\" and an index of 1"
    )
}

#[test]
fn test_spelled_out_number_with_index_before_start() {
    // Give a string that contains a spelled-out number and an index before its start
    let input = "abceight";
    let index = 1;

    // When get_spelled_out_number is called
    let actual = get_spelled_out_number(input, index);

    // Then it should return None
    assert_eq!(
        actual, None,
        "get_spelled_out_number should return \
        None for an input of \"abceight\" and an index of 1"
    )
}

#[test]
fn test_get_spelled_out_number_indexes() {
    // Given a string containing overlapping spelled-out numbers
    let input = "eightwo";

    // When get_spelled_out_number_indexes is called
    let actual = get_spelled_out_number_indexes(input);

    // Then it should return a vector containing the spelled-out number starting indexes
    assert_eq!(
        actual,
        vec![0, 4],
        "get_spelled_out_number_indexes should return a vector \
        containing 0 and 4 for an input string of \"eightwo\""
    )
}

#[test]
fn test_replace_spelled_out() {
    // Given a string of spelled out numbers and numbers in their digital representation
    let input = "eightjzqzhrllg1oneightfck";

    // When replace_spelled_out is called
    let actual = replace_spelled_out(input);

    // Then it should replace all the spelled out numbers with their digital representations
    assert_eq!(
        actual, "8jzqzhrllg118fck",
        "replace_spelled_out should return \
                   \"8jzqzhrllg118fck\" for an input string of \"eightjzqzhrllg1oneightfck\""
    )
}

#[test]
fn test_replace_spelled_out_strings() {
    // Given a vector of strings that contains spelled out and digital numerical values
    let input: Vec<String> = vec![
        "two1nine",
        "eightwothree",
        "abcone2threexyz",
        "xtwone3four",
        "4nineeightseven2",
        "zoneight234",
        "7pqrstsixteen",
    ]
    .into_iter()
    .map(|s| s.to_string())
    .collect();
    let expected: Vec<&str> = vec![
        "219",
        "823",
        "abc123xyz",
        "x2134",
        "49872",
        "z18234",
        "7pqrst6teen",
    ];

    // When replace_spelled_out_strings is called
    let actual = replace_spelled_out_strings(&input);

    // Then it should replace all the spelled out numbers with their digital representations
    assert_eq!(
        actual, expected,
        "replace_spelled_out_strings should return a vector with all \
               the spelled out numbers converted to their digital representation."
    )
}

#[test]
fn overlapping_words_each_count() {
    // "eightwothree" holds "eight", "two" and "three", with "eight" and
    // "two" sharing the letter 't'
    assert_eq!(replace_spelled_out("eightwothree"), "823");
    // "zoneight234" holds "one" and "eight" sharing an 'e'
    assert_eq!(replace_spelled_out("zoneight234"), "z18234");
    // "oneight" yields both digits
    assert_eq!(replace_spelled_out("oneight"), "18");
}

#[test]
fn words_inside_other_text_match() {
    // Matches are purely substring-based, with no regard for word
    // boundaries: "woneder" holds "one"
    assert_eq!(replace_spelled_out("woneder"), "w1der");
}

#[test]
fn zero_is_recognized() {
    // The word list includes "zero", mapping to the digit 0
    assert_eq!(replace_spelled_out("azerob"), "a0b");
}

#[test]
fn no_spelled_words_passes_through() {
    // A line without any spelled-out number word is left unchanged
    assert_eq!(replace_spelled_out("abc123xyz"), "abc123xyz");
}

#[test]
fn non_word_is_not_converted() {
    // A string that is not one of the ten words gives no digit
    assert_eq!(get_digit_for_spelled_out_number("ten"), None);
    assert_eq!(get_digit_for_spelled_out_number("eigh"), None);
}
