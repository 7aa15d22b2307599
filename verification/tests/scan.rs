use git_statistics::scan::{find_from, parse_count, split_fields};
use git_statistics::text::{chars_of, has_at, string_of};

fn chars(s: &str) -> Vec<char> {
    s.chars().collect()
}

#[test]
fn chars_and_strings_convert_both_ways() {
    assert_eq!(chars_of(""), Vec::<char>::new());
    assert_eq!(chars_of("añ山🦀"), vec!['a', 'ñ', '山', '🦀']);
    assert_eq!(string_of(&['a', 'ñ', '山', '🦀']), "añ山🦀");
    assert_eq!(string_of(&[]), "");
    let text = "tab\there\r\nend";
    assert_eq!(string_of(&chars_of(text)), text);
}

#[test]
fn has_at_finds_the_needle_in_place() {
    let text = chars("author bob");
    assert!(has_at(&text, 0, &chars("author ")));
    assert!(has_at(&text, 7, &chars("bob")));
    assert!(has_at(&text, 3, &chars("")));
    assert!(has_at(&text, 10, &chars("")));
    assert!(!has_at(&text, 11, &chars("")));
    assert!(!has_at(&text, 1, &chars("author ")));
    assert!(!has_at(&text, 8, &chars("bob")));
    assert!(!has_at(&text, 0, &chars("author bob ")));
    assert!(!has_at(&text, usize::MAX, &chars("a")));
}

#[test]
fn find_from_gives_the_first_place_or_the_end() {
    let text = chars("a\tb\tc");
    assert_eq!(find_from(&text, '\t', 0), 1);
    assert_eq!(find_from(&text, '\t', 1), 1);
    assert_eq!(find_from(&text, '\t', 2), 3);
    assert_eq!(find_from(&text, '\t', 4), 5);
    assert_eq!(find_from(&text, 'x', 0), 5);
    assert_eq!(find_from(&text, 'a', 5), 5);
    assert_eq!(find_from(&text, 'a', 99), 5);
    assert_eq!(find_from(&[], 'a', 0), 0);
}

#[test]
fn counts_are_decimal_numerals() {
    assert_eq!(parse_count(&chars("0")), 0);
    assert_eq!(parse_count(&chars("42")), 42);
    assert_eq!(parse_count(&chars("+42")), 42);
    assert_eq!(parse_count(&chars("0042")), 42);
    assert_eq!(parse_count(&chars("1234567890")), 1234567890);
    assert_eq!(parse_count(&chars(&usize::MAX.to_string())), usize::MAX);
}

#[test]
fn what_is_no_count_reads_as_zero() {
    for field in ["", "+", "-", "-1", "++1", "1+", " 1", "1 ", "1.0", "0x10", "१२", "1_000", "۱"] {
        assert_eq!(parse_count(&chars(field)), 0, "field {:?}", field);
        assert!(field.parse::<usize>().is_err(), "field {:?}", field);
    }
    let beyond = format!("{}0", usize::MAX);
    assert_eq!(parse_count(&chars(&beyond)), 0);
    let just_beyond = (usize::MAX as u128 + 1).to_string();
    assert_eq!(parse_count(&chars(&just_beyond)), 0);
}

#[test]
fn fields_are_split_at_the_first_two_tabs() {
    let split = |line: &str| -> Vec<String> {
        let line = chars(line);
        split_fields(&line).into_iter().map(|field| field.iter().collect()).collect()
    };
    assert_eq!(split(""), [""]);
    assert_eq!(split("abc"), ["abc"]);
    assert_eq!(split("a\tb"), ["a", "b"]);
    assert_eq!(split("\t"), ["", ""]);
    assert_eq!(split("a\tb\tc"), ["a", "b", "c"]);
    assert_eq!(split("\t\t"), ["", "", ""]);
    assert_eq!(split("1\t2\tname with\ttabs\t"), ["1", "2", "name with\ttabs\t"]);
    for line in ["", "x", "a\tb", "a\tb\tc\td", "\t\t\t", "é\t\tü"] {
        let expected: Vec<String> = line.splitn(3, '\t').map(|field| field.to_string()).collect();
        assert_eq!(split(line), expected);
    }
}
