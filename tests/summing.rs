use line_sum::{as_number, sum, sum_from, sum_strings, ApplicationError, ParseErrorKind, ParsingError};
use std::io;

fn bad_input_char() -> &'static str {
    "$"
}

fn create_io_error() -> io::Error {
    io::Error::new(io::ErrorKind::Other, "Mock Error")
}

fn lines(texts: &[&str]) -> Vec<Result<String, io::Error>> {
    texts.iter().map(|t| Ok(t.to_string())).collect()
}

#[test]
fn parses_a_number() {
    assert_eq!(as_number("42").unwrap(), 42);
}

#[test]
fn parses_a_number_with_whitespace() {
    assert_eq!(as_number("\t 42\n").unwrap(), 42);
}

#[test]
fn fails_on_invalid_character() {
    let result = as_number(bad_input_char());
    let msg = result.unwrap_err().to_string();
    assert!(
        msg.contains(bad_input_char()),
        "Offending character not part of error message \"{}\"",
        msg
    );
}

#[test]
fn fails_on_empty_input() {
    let msg = as_number("").unwrap_err().to_string();
    assert!(
        !msg.contains(bad_input_char()),
        "Unexpected (hardcoded?) text in error message \"{}\"",
        msg
    );
}

#[test]
fn empty_stream_returns_zero() {
    let stream = std::iter::empty::<Result<String, io::Error>>();
    assert_eq!(sum(stream).unwrap(), 0);
}

#[test]
fn single_element_is_equal_to_sum() {
    let stream = vec!["42"].into_iter();
    assert_eq!(sum_strings(stream).unwrap(), 42);
}

#[test]
fn sums_two_elements() {
    let stream = vec!["39", "30"].into_iter();
    assert_eq!(sum_strings(stream).unwrap(), 69);
}

#[test]
fn propagates_internal_errors() {
    let stream = vec![""].into_iter();
    sum_strings(stream).unwrap_err();
}

#[test]
fn propagates_external_errors() {
    let stream = vec![Err(create_io_error())].into_iter();
    sum(stream).unwrap_err();
}

#[test]
fn reads_signed_and_padded_numbers() {
    assert_eq!(as_number("-17").unwrap(), -17);
    assert_eq!(as_number("+5").unwrap(), 5);
    assert_eq!(as_number("007").unwrap(), 7);
    assert_eq!(as_number("-0").unwrap(), 0);
    assert_eq!(as_number(" \u{3000}12\u{a0}\r\n").unwrap(), 12);
    assert_eq!(as_number("\u{2028}-3\u{85}").unwrap(), -3);
}

#[test]
fn reads_the_bounds_of_isize() {
    assert_eq!(as_number(&isize::MAX.to_string()).unwrap(), isize::MAX);
    assert_eq!(as_number(&isize::MIN.to_string()).unwrap(), isize::MIN);
}

#[test]
fn reports_overflow_in_both_directions() {
    let above = format!("{}0", isize::MAX);
    let below = format!("{}0", isize::MIN);
    assert_eq!(as_number(&above).unwrap_err().kind(), ParseErrorKind::PosOverflow);
    assert_eq!(as_number(&below).unwrap_err().kind(), ParseErrorKind::NegOverflow);
    let just_above = (isize::MAX as i128 + 1).to_string();
    assert_eq!(as_number(&just_above).unwrap_err().kind(), ParseErrorKind::PosOverflow);
    let just_below = (isize::MIN as i128 - 1).to_string();
    assert_eq!(as_number(&just_below).unwrap_err().kind(), ParseErrorKind::NegOverflow);
}

#[test]
fn reports_each_kind_of_malformed_text() {
    assert_eq!(as_number("").unwrap_err().kind(), ParseErrorKind::Empty);
    assert_eq!(as_number(" \t ").unwrap_err().kind(), ParseErrorKind::Empty);
    assert_eq!(as_number("+").unwrap_err().kind(), ParseErrorKind::InvalidDigit);
    assert_eq!(as_number("-").unwrap_err().kind(), ParseErrorKind::InvalidDigit);
    assert_eq!(as_number("+-1").unwrap_err().kind(), ParseErrorKind::InvalidDigit);
    assert_eq!(as_number("1 2").unwrap_err().kind(), ParseErrorKind::InvalidDigit);
    assert_eq!(as_number("1.5").unwrap_err().kind(), ParseErrorKind::InvalidDigit);
    assert_eq!(as_number("1e3").unwrap_err().kind(), ParseErrorKind::InvalidDigit);
    assert_eq!(as_number("1_000").unwrap_err().kind(), ParseErrorKind::InvalidDigit);
}

#[test]
fn reports_whichever_fault_comes_first() {
    let long = "99999999999999999999x";
    assert_eq!(as_number(long).unwrap_err().kind(), ParseErrorKind::PosOverflow);
    let long_negative = "-99999999999999999999x";
    assert_eq!(as_number(long_negative).unwrap_err().kind(), ParseErrorKind::NegOverflow);
    assert_eq!(as_number("9x99999999999999999999").unwrap_err().kind(), ParseErrorKind::InvalidDigit);
    let msg = as_number(long).unwrap_err().to_string();
    assert_eq!(msg, "Could not parse \"99999999999999999999x\" to number: ParseIntError { kind: PosOverflow }");
}

#[test]
fn keeps_the_untrimmed_line_in_the_error() {
    let error = as_number("  4$2 \n").unwrap_err();
    assert_eq!(error.input(), "  4$2 \n");
    assert_eq!(error.kind(), ParseErrorKind::InvalidDigit);
    let msg = error.to_string();
    assert!(msg.contains("4$2"));
    assert_eq!(msg, "Could not parse \"  4$2 \n\" to number: ParseIntError { kind: InvalidDigit }");
}

#[test]
fn message_for_empty_input_is_exact() {
    let msg = as_number("").unwrap_err().to_string();
    assert_eq!(msg, "Could not parse \"\" to number: ParseIntError { kind: Empty }");
}

#[test]
fn sums_acquired_lines() {
    let items = lines(&["1", " -2 ", "+30"]);
    assert_eq!(sum(items.into_iter()).unwrap(), 29);
}

#[test]
fn reports_the_first_bad_line() {
    let stream = vec!["1", "x", "2", "y"].into_iter();
    match sum_strings(stream) {
        Err(ApplicationError::ParsingError(e)) => {
            assert_eq!(e.input(), "x");
            assert_eq!(e.kind(), ParseErrorKind::InvalidDigit);
        }
        other => panic!("unexpected outcome {:?}", other),
    }
}

#[test]
fn empty_line_is_a_parsing_error() {
    let stream = vec![""].into_iter();
    match sum_strings(stream) {
        Err(ApplicationError::ParsingError(e)) => assert_eq!(e.kind(), ParseErrorKind::Empty),
        other => panic!("unexpected outcome {:?}", other),
    }
}

#[test]
fn acquisition_failure_is_reported_as_such() {
    let stream = vec![Err(create_io_error()), Ok("oops".to_string())].into_iter();
    match sum(stream) {
        Err(ApplicationError::InputError(e)) => assert_eq!(e.to_string(), "Mock Error"),
        other => panic!("unexpected outcome {:?}", other),
    }
}

#[test]
fn total_saturates_at_the_bounds() {
    let max = isize::MAX.to_string();
    let min = isize::MIN.to_string();
    assert_eq!(sum_strings(vec![max.as_str(), "1"].into_iter()).unwrap(), isize::MAX);
    assert_eq!(sum_strings(vec![min.as_str(), "-1"].into_iter()).unwrap(), isize::MIN);
    assert_eq!(sum_strings(vec![max.as_str(), "1", "-1"].into_iter()).unwrap(), isize::MAX - 1);
    assert_eq!(sum_strings(vec![max.as_str(), min.as_str()].into_iter()).unwrap(), -1);
}

#[test]
fn summing_twice_gives_the_same_total() {
    let texts: Vec<String> = vec!["5".to_string(), "-12".to_string(), " 40 ".to_string()];
    let first = sum_strings(texts.iter().map(|s| s.as_str())).unwrap();
    let second = sum_strings(texts.iter().map(|s| s.as_str())).unwrap();
    assert_eq!(first, 33);
    assert_eq!(first, second);
}

#[test]
fn stops_pulling_after_the_first_failure() {
    let mut source = lines(&["abc", "42"]).into_iter();
    let result = sum_from(&mut source);
    assert!(matches!(result, Err(ApplicationError::ParsingError(_))));
    match source.next() {
        Some(Ok(line)) => assert_eq!(line, "42"),
        other => panic!("unexpected item {:?}", other),
    }
}

#[test]
fn counts_pulls_from_an_instrumented_source() {
    let mut pulled = 0;
    let texts = ["abc", "42"];
    let result = sum_strings(texts.iter().map(|t| {
        pulled += 1;
        *t
    }));
    assert!(result.is_err());
    assert_eq!(pulled, 1);
}

#[test]
fn sum_consumes_a_borrowed_source_up_to_the_failure() {
    let mut source = vec![Ok("1".to_string()), Err(create_io_error()), Ok("2".to_string())].into_iter();
    assert!(matches!(sum(&mut source), Err(ApplicationError::InputError(_))));
    assert_eq!(source.next().unwrap().unwrap(), "2");
}

#[test]
fn converts_errors_into_application_errors() {
    let from_io: ApplicationError = create_io_error().into();
    assert!(matches!(from_io, ApplicationError::InputError(_)));
    let parsing: ParsingError = as_number("x").unwrap_err();
    let from_parsing: ApplicationError = parsing.into();
    assert!(matches!(from_parsing, ApplicationError::ParsingError(_)));
}
