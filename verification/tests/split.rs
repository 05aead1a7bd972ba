use std::borrow::Cow;
use strtools::split::{
    non_escaped, non_escaped_sanitize, try_n_times, NTimesError, NonEscapedError,
};
use strtools::util::Sorted;
use strtools::StrTools;

fn delims<const N: usize>(items: [char; N]) -> Sorted<char, N> {
    Sorted::new(items).unwrap()
}

#[test]
fn raw_split_keeps_escapes() {
    let value = r"Pa\rt0:Part1:Part2\:StillPart2";
    let parts = value.split_non_escaped('\\', Sorted::single(':')).unwrap().collect();
    assert_eq!(parts, [r"Pa\rt0", "Part1", r"Part2\:StillPart2"]);
}

#[test]
fn sanitized_split_removes_escapes_before_delimiters() {
    let value = r"Pa\rt0:Part1:Part2\:StillPart2";
    let parts = value.split_non_escaped_sanitize('\\', Sorted::single(':')).unwrap().collect();
    assert_eq!(parts, [r"Pa\rt0", "Part1", "Part2:StillPart2"]);
}

#[test]
fn sanitized_split_by_spaces_and_commas() {
    let value = r"this string\ is split by\ spaces and commas, unless they are\ escaped";
    let parts = value.split_non_escaped_sanitize('\\', delims([' ', ','])).unwrap().collect();
    assert_eq!(
        parts,
        [
            "this",
            "string is",
            "split",
            "by spaces",
            "and",
            "commas",
            "",
            "unless",
            "they",
            "are escaped"
        ]
    );
}

#[test]
fn sanitized_split_of_a_regex_rule() {
    let value = r"\.\/.*s(\d\d)e(\d\d[a-d])/S$1E$2/gu";
    let parts = value.split_non_escaped_sanitize('\\', Sorted::single('/')).unwrap().collect();
    assert_eq!(parts, [r"\./.*s(\d\d)e(\d\d[a-d])", "S$1E$2", "gu"]);
}

#[test]
fn free_functions_split_like_the_methods() {
    let value = r"a\,b,c";
    let raw = non_escaped(value, '\\', Sorted::single(',')).unwrap().collect();
    assert_eq!(raw, [r"a\,b", "c"]);
    let sanitized = non_escaped_sanitize(value, '\\', Sorted::single(',')).unwrap().collect();
    assert_eq!(sanitized, ["a,b", "c"]);
}

#[test]
fn construction_succeeds_for_disjoint_escape_and_delimiters() {
    let set = Sorted::new([';', ',', ' ', ':']).unwrap();
    assert!("a b".split_non_escaped('\\', set).is_ok());
    assert!("a b".split_non_escaped_sanitize('\\', set).is_ok());
    assert!("".split_non_escaped('x', Sorted::single('y')).is_ok());
    assert!("".split_non_escaped('\\', Sorted::<char, 0>::new([]).unwrap()).is_ok());
}

#[test]
fn escape_among_the_delimiters_is_refused() {
    let single = Sorted::single('\\');
    assert_eq!(
        "a:b".split_non_escaped('\\', single).unwrap_err(),
        NonEscapedError::EscapeEqualsDelimiter
    );
    assert_eq!(
        "a:b".split_non_escaped_sanitize('\\', single).unwrap_err(),
        NonEscapedError::EscapeEqualsDelimiter
    );
    for set in [delims(['\\', ':', ',']), delims([':', '\\', ',']), delims([',', ':', '\\'])] {
        assert_eq!(
            non_escaped("a:b", '\\', set).unwrap_err(),
            NonEscapedError::EscapeEqualsDelimiter
        );
        assert_eq!(
            non_escaped_sanitize("a:b", '\\', set).unwrap_err(),
            NonEscapedError::EscapeEqualsDelimiter
        );
    }
}

#[test]
fn refusal_comes_before_any_segment() {
    assert!("".split_non_escaped(':', Sorted::single(':')).is_err());
    assert!("no delimiter here".split_non_escaped_sanitize(' ', delims([' ', ','])).is_err());
}

#[test]
fn single_and_multiple_delimiters_split_alike() {
    let inputs = [
        r"Pa\rt0:Part1:Part2\:StillPart2",
        r"::a\\:b\::",
        r"",
        r"\",
        r"plain",
        r"a:b\",
    ];
    for value in inputs {
        let one = value.split_non_escaped('\\', Sorted::single(':')).unwrap().collect();
        let two = value.split_non_escaped('\\', delims([':', '\u{1}'])).unwrap().collect();
        let five = value
            .split_non_escaped('\\', delims(['\u{3}', '\u{1}', ':', '\u{4}', '\u{2}']))
            .unwrap()
            .collect();
        assert_eq!(one, two);
        assert_eq!(one, five);
        let one = value.split_non_escaped_sanitize('\\', Sorted::single(':')).unwrap().collect();
        let two =
            value.split_non_escaped_sanitize('\\', delims([':', '\u{1}'])).unwrap().collect();
        let five = value
            .split_non_escaped_sanitize('\\', delims(['\u{3}', '\u{1}', ':', '\u{4}', '\u{2}']))
            .unwrap()
            .collect();
        assert_eq!(one, two);
        assert_eq!(one, five);
    }
}

#[test]
fn plain_text_is_one_borrowed_segment() {
    let value = "nothing special in here";
    let raw = value.split_non_escaped('\\', delims([':', ','])).unwrap().collect();
    assert_eq!(raw, [value]);
    assert!(std::ptr::eq(raw[0], value));
    let sanitized = value.split_non_escaped_sanitize('\\', delims([':', ','])).unwrap().collect();
    assert_eq!(sanitized.len(), 1);
    assert_eq!(sanitized[0], value);
    match &sanitized[0] {
        Cow::Borrowed(part) => assert!(std::ptr::eq(*part, value)),
        Cow::Owned(_) => panic!("a segment without escapes was copied"),
    }
}

#[test]
fn empty_text_is_one_empty_segment() {
    let raw = "".split_non_escaped('\\', Sorted::single(':')).unwrap().collect();
    assert_eq!(raw, [""]);
    let sanitized = "".split_non_escaped_sanitize('\\', Sorted::single(':')).unwrap().collect();
    assert_eq!(sanitized, [""]);
    assert!(matches!(sanitized[0], Cow::Borrowed(_)));
}

#[test]
fn delimiters_at_the_ends_give_empty_segments() {
    let raw = ":a::b:".split_non_escaped('\\', Sorted::single(':')).unwrap().collect();
    assert_eq!(raw, ["", "a", "", "b", ""]);
    let only = ":".split_non_escaped_sanitize('\\', Sorted::single(':')).unwrap().collect();
    assert_eq!(only, ["", ""]);
}

#[test]
fn segments_without_escape_pairs_are_borrowed_from_the_text() {
    let value = r"a\rb:c\:d:e\";
    let mut parts = value.split_non_escaped_sanitize('\\', Sorted::single(':')).unwrap();
    match parts.next() {
        Some(Cow::Borrowed(part)) => {
            assert_eq!(part, r"a\rb");
            assert!(std::ptr::eq(part, &value[0..4]));
        }
        other => panic!("unexpected first segment: {:?}", other),
    }
    match parts.next() {
        Some(Cow::Owned(part)) => assert_eq!(part, "c:d"),
        other => panic!("unexpected second segment: {:?}", other),
    }
    match parts.next() {
        Some(Cow::Borrowed(part)) => {
            assert_eq!(part, r"e\");
            assert!(std::ptr::eq(part, &value[10..12]));
        }
        other => panic!("unexpected third segment: {:?}", other),
    }
    assert_eq!(parts.next(), None);
    assert_eq!(parts.next(), None);
}

#[test]
fn sanitized_borrowed_segments_are_the_raw_segments() {
    let value = r"one, two\x ,three\, four,,five\";
    let raw = value.split_non_escaped('\\', delims([',', ' '])).unwrap().collect();
    let sanitized = value.split_non_escaped_sanitize('\\', delims([',', ' '])).unwrap().collect();
    assert_eq!(raw.len(), sanitized.len());
    let mut borrowed = 0;
    for (raw, sanitized) in raw.iter().zip(sanitized.iter()) {
        match sanitized {
            Cow::Borrowed(part) => {
                assert!(std::ptr::eq(*part, *raw));
                borrowed += 1;
            }
            Cow::Owned(part) => assert_ne!(part.as_str(), *raw),
        }
    }
    assert_eq!(borrowed, raw.len() - 1);
}

#[test]
fn escaped_escapes_do_not_escape() {
    let value = r"a\\:b\\\:c\\\\:d";
    let raw = value.split_non_escaped('\\', Sorted::single(':')).unwrap().collect();
    assert_eq!(raw, [r"a\\", r"b\\\:c\\\\", "d"]);
    let sanitized = value.split_non_escaped_sanitize('\\', Sorted::single(':')).unwrap().collect();
    assert_eq!(sanitized, [r"a\", r"b\:c\\", "d"]);
}

#[test]
fn trailing_escape_stays() {
    let raw = r"a:b\".split_non_escaped('\\', Sorted::single(':')).unwrap().collect();
    assert_eq!(raw, ["a", r"b\"]);
    let sanitized = r"a:b\".split_non_escaped_sanitize('\\', Sorted::single(':')).unwrap().collect();
    assert_eq!(sanitized, ["a", r"b\"]);
    let sanitized = r"a\:b\".split_non_escaped_sanitize('\\', Sorted::single(':')).unwrap().collect();
    assert_eq!(sanitized, [r"a:b\"]);
    let sanitized = r"\\\".split_non_escaped_sanitize('\\', Sorted::single(':')).unwrap().collect();
    assert_eq!(sanitized, [r"\\"]);
    let sanitized = r"\".split_non_escaped_sanitize('\\', Sorted::single(':')).unwrap().collect();
    assert_eq!(sanitized, [r"\"]);
}

#[test]
fn escapes_before_other_tokens_stay() {
    let value = r"\a\b:\c";
    let sanitized = value.split_non_escaped_sanitize('\\', Sorted::single(':')).unwrap().collect();
    assert_eq!(sanitized, [r"\a\b", r"\c"]);
    assert!(sanitized.iter().all(|part| matches!(part, Cow::Borrowed(_))));
}

#[test]
fn escaped_token_behind_an_escape_pair_keeps_its_neighbours() {
    let value = r"\\:";
    let sanitized = value.split_non_escaped_sanitize('\\', Sorted::single(':')).unwrap().collect();
    assert_eq!(sanitized, [r"\", ""]);
    let value = r"\\\:";
    let sanitized = value.split_non_escaped_sanitize('\\', Sorted::single(':')).unwrap().collect();
    assert_eq!(sanitized, [r"\:"]);
}

#[test]
fn joining_raw_segments_with_their_delimiters_gives_the_text_back() {
    let inputs = [
        r"this string\ is split by\ spaces and commas, unless they are\ escaped",
        r",, ,\, \\, \",
        r"",
        r" ",
        r"\ ",
    ];
    for value in inputs {
        let set = delims([' ', ',']);
        let parts = value.split_non_escaped('\\', set).unwrap().collect();
        let mut joined = String::new();
        let mut at = 0;
        for (i, part) in parts.iter().enumerate() {
            joined.push_str(part);
            at += part.len();
            if i + 1 < parts.len() {
                let delimiter = value[at..].chars().next().unwrap();
                assert!(set.contains(delimiter));
                joined.push(delimiter);
                at += delimiter.len_utf8();
            }
        }
        assert_eq!(joined, value);
    }
}

#[test]
fn tokens_of_several_bytes() {
    let value = "α→β§→γ→§§→δ§";
    let set = delims(['→', '↔']);
    let raw = value.split_non_escaped('§', set).unwrap().collect();
    assert_eq!(raw, ["α", "β§→γ", "§§", "δ§"]);
    let sanitized = value.split_non_escaped_sanitize('§', set).unwrap().collect();
    assert_eq!(sanitized, ["α", "β→γ", "§", "δ§"]);
    assert!(matches!(sanitized[0], Cow::Borrowed(_)));
    assert!(matches!(sanitized[1], Cow::Owned(_)));
    assert!(matches!(sanitized[2], Cow::Owned(_)));
    assert!(matches!(sanitized[3], Cow::Borrowed(_)));
    let wide = "a😀b\u{10FFFF}😀c".split_non_escaped_sanitize('\u{10FFFF}', Sorted::single('😀'));
    assert_eq!(wide.unwrap().collect(), ["a", "b😀c"]);
}

#[test]
fn next_hands_out_the_segments_one_by_one() {
    let mut parts = "a:b".split_non_escaped('\\', Sorted::single(':')).unwrap();
    assert_eq!(parts.next(), Some("a"));
    assert_eq!(parts.next(), Some("b"));
    assert_eq!(parts.next(), None);
    assert_eq!(parts.next(), None);
    let mut parts = "a:".split_non_escaped('\\', Sorted::single(':')).unwrap();
    assert_eq!(parts.next(), Some("a"));
    assert_eq!(parts.collect(), [""]);
    let mut parts = "a".split_non_escaped('\\', Sorted::single(':')).unwrap();
    assert_eq!(parts.next(), Some("a"));
    assert!(parts.collect().is_empty());
}

#[test]
fn without_delimiters_nothing_splits() {
    let none = Sorted::<char, 0>::new([]).unwrap();
    let raw = r"a:b\\c".split_non_escaped('\\', none).unwrap().collect();
    assert_eq!(raw, [r"a:b\\c"]);
    let sanitized = r"a:b\\c".split_non_escaped_sanitize('\\', none).unwrap().collect();
    assert_eq!(sanitized, [r"a:b\c"]);
}

#[test]
fn split_n_times_cuts_at_the_offsets() {
    let value = "0123456789ab";
    let ([first, second], third) = value.split_n_times(&Sorted::new([4, 8]).unwrap());
    assert_eq!(first, "0123");
    assert_eq!(second, "4567");
    assert_eq!(third, "89ab");
    let ([first, second, third], fourth) = value.split_n_times(&Sorted::new([12, 0, 5]).unwrap());
    assert_eq!(first, "");
    assert_eq!(second, "01234");
    assert_eq!(third, "56789ab");
    assert_eq!(fourth, "");
    let ([], all) = value.split_n_times(&Sorted::<usize, 0>::new([]).unwrap());
    assert_eq!(all, value);
    let ([head], tail) = strtools::split::n_times("αβγ", &Sorted::single(2));
    assert_eq!(head, "α");
    assert_eq!(tail, "βγ");
}

#[test]
fn try_n_times_cuts_where_it_can() {
    let value = "0123456789ab";
    let ([first, second], third) = try_n_times(value, &Sorted::new([4, 8]).unwrap()).unwrap();
    assert_eq!((first, second, third), ("0123", "4567", "89ab"));
    let ([head], tail) = try_n_times(value, &Sorted::single(12)).unwrap();
    assert_eq!((head, tail), (value, ""));
    let ([], all) = try_n_times("", &Sorted::<usize, 0>::new([]).unwrap()).unwrap();
    assert_eq!(all, "");
    let ([a, b], c) = try_n_times("α→😀", &Sorted::new([5, 2]).unwrap()).unwrap();
    assert_eq!((a, b, c), ("α", "→", "😀"));
}

#[test]
fn try_n_times_refuses_an_offset_behind_the_end() {
    let value = "0123456789ab";
    assert_eq!(
        try_n_times(value, &Sorted::new([4, 13]).unwrap()),
        Err(NTimesError::IndexOutOfBounds)
    );
    assert_eq!(try_n_times("", &Sorted::single(1)), Err(NTimesError::IndexOutOfBounds));
    assert_eq!(
        try_n_times("α", &Sorted::new([1, usize::MAX]).unwrap()),
        Err(NTimesError::IndexOutOfBounds)
    );
}

#[test]
fn try_n_times_refuses_an_offset_inside_a_char() {
    assert_eq!(try_n_times("α→", &Sorted::single(1)), Err(NTimesError::NotCharBoundary));
    assert_eq!(
        try_n_times("α→", &Sorted::new([2, 4]).unwrap()),
        Err(NTimesError::NotCharBoundary)
    );
    assert_eq!(
        try_n_times("α→", &Sorted::new([3, 5]).unwrap()),
        Err(NTimesError::NotCharBoundary)
    );
}

#[test]
fn a_clone_goes_on_from_where_its_source_stands() {
    let mut parts = r"a:b\:c:d".split_non_escaped_sanitize('\\', Sorted::single(':')).unwrap();
    assert_eq!(parts.next(), Some(Cow::Borrowed("a")));
    let copy = parts.clone();
    assert_eq!(parts.collect(), ["b:c", "d"]);
    assert_eq!(copy.collect(), ["b:c", "d"]);
    let mut parts = r"a:b\:c:d".split_non_escaped('\\', Sorted::single(':')).unwrap();
    assert_eq!(parts.next(), Some("a"));
    let copy = parts.clone();
    assert_eq!(parts.collect(), [r"b\:c", "d"]);
    assert_eq!(copy.collect(), [r"b\:c", "d"]);
}

#[test]
fn delimiters_convert_at_the_call() {
    let value = r"Pa\rt0:Part1:Part2\:StillPart2";
    let parts = value.split_non_escaped_sanitize('\\', ':'.into()).unwrap().collect();
    assert_eq!(parts, [r"Pa\rt0", "Part1", "Part2:StillPart2"]);
    let parts = value.split_non_escaped('\\', [':', 'r'].try_into().unwrap()).unwrap().collect();
    assert_eq!(parts, ["Pa\\rt0", "Pa", "t1", "Pa", r"t2\:StillPa", "t2"]);
    let value = "0123456789ab";
    let ([first, second], third) = value.split_n_times(&[4, 8].try_into().unwrap());
    assert_eq!((first, second, third), ("0123", "4567", "89ab"));
}
