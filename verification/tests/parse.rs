use strtools::parse::{FromStrBack, FromStrFront};
use strtools::util::Sorted;
use strtools::StrTools;

/// A run of ASCII digits, as a number.
#[derive(Debug, PartialEq)]
struct Digits(u32);

#[derive(Debug, PartialEq)]
enum DigitsError {
    NoDigit,
    TooLarge,
}

fn digits(text: &str) -> Result<Digits, DigitsError> {
    if text.is_empty() {
        return Err(DigitsError::NoDigit);
    }
    text.parse().map(Digits).map_err(|_| DigitsError::TooLarge)
}

impl FromStrFront for Digits {
    type Error = DigitsError;

    fn from_str_front(input: &str) -> Result<(Self, &str), Self::Error> {
        let end = input.len() - input.trim_start_matches(|c: char| c.is_ascii_digit()).len();
        let (number, rest) = input.split_at(end);
        Ok((digits(number)?, rest))
    }
}

impl FromStrBack for Digits {
    type Error = DigitsError;

    fn from_str_back(input: &str) -> Result<(Self, &str), Self::Error> {
        let start = input.trim_end_matches(|c: char| c.is_ascii_digit()).len();
        let (rest, number) = input.split_at(start);
        Ok((digits(number)?, rest))
    }
}

#[test]
fn parse_front_hands_on_the_value_and_the_rest() {
    assert_eq!("128 and more".parse_front::<Digits>(), Ok((Digits(128), " and more")));
    assert_eq!("7".parse_front::<Digits>(), Ok((Digits(7), "")));
    assert_eq!("42→".parse_front::<Digits>(), Ok((Digits(42), "→")));
}

#[test]
fn parse_front_hands_on_the_error() {
    assert_eq!("none 128".parse_front::<Digits>(), Err(DigitsError::NoDigit));
    assert_eq!("".parse_front::<Digits>(), Err(DigitsError::NoDigit));
    assert_eq!("99999999999 rest".parse_front::<Digits>(), Err(DigitsError::TooLarge));
}

#[test]
fn parse_back_hands_on_the_value_and_the_rest() {
    assert_eq!("more and 128".parse_back::<Digits>(), Ok((Digits(128), "more and ")));
    assert_eq!("7".parse_back::<Digits>(), Ok((Digits(7), "")));
    assert_eq!("→42".parse_back::<Digits>(), Ok((Digits(42), "→")));
}

#[test]
fn parse_back_hands_on_the_error() {
    assert_eq!("128 none".parse_back::<Digits>(), Err(DigitsError::NoDigit));
    assert_eq!("".parse_back::<Digits>(), Err(DigitsError::NoDigit));
    assert_eq!("rest 99999999999".parse_back::<Digits>(), Err(DigitsError::TooLarge));
}

#[test]
fn parsed_rest_can_be_split() {
    let (count, rest) = r"3:a\:b:c:d".parse_front::<Digits>().unwrap();
    let rest = rest.strip_prefix(':').unwrap();
    let parts = rest.split_non_escaped_sanitize('\\', Sorted::single(':')).unwrap().collect();
    assert_eq!(count, Digits(3));
    assert_eq!(parts, ["a:b", "c", "d"]);
}
