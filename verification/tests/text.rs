use stringmetrics::spellcheck::order::{rank, sorted_distinct, Rank};
use stringmetrics::spellcheck::rule::parse_condition;
use stringmetrics::spellcheck::text::{
    chars_of, copy_of, decimal_of, fields_of, lines_of, same_text, split_on, string_of,
    Separator,
};

fn chars(s: &str) -> Vec<char> {
    s.chars().collect()
}

fn texts(v: &[Vec<char>]) -> Vec<String> {
    v.iter().map(|w| w.iter().collect()).collect()
}

#[test]
fn characters_and_strings_convert_both_ways() {
    for s in ["", "a", "xxx", "naïve café", "日本語", "a\nb\tc"] {
        assert_eq!(chars_of(s), chars(s));
        assert_eq!(string_of(&chars(s)), s);
        assert_eq!(string_of(&chars_of(s)), s);
        assert_eq!(copy_of(&chars(s)), chars(s));
    }
    assert_eq!(string_of(&vec!['r', 'e', 'x']), "rex");
    assert_eq!(string_of(&Vec::new()), "");
}

#[test]
fn same_text_compares_every_character() {
    assert!(same_text(&chars("PFX"), "PFX"));
    assert!(same_text(&chars(""), ""));
    assert!(same_text(&chars("é"), "é"));
    assert!(!same_text(&chars("PFX"), "SFX"));
    assert!(!same_text(&chars("PF"), "PFX"));
    assert!(!same_text(&chars("PFXX"), "PFX"));
    assert!(!same_text(&chars(""), "P"));
    assert!(!same_text(&chars("P"), ""));
    assert!(!same_text(&chars("pfx"), "PFX"));
}

#[test]
fn split_gives_one_piece_more_than_separators() {
    let split = |s: &str, sep: Separator| texts(&split_on(&chars(s), sep));
    assert_eq!(split("", Separator::Slash), vec![""]);
    assert_eq!(split("abc", Separator::Slash), vec!["abc"]);
    assert_eq!(split("a/b", Separator::Slash), vec!["a", "b"]);
    assert_eq!(split("a/b/c", Separator::Slash), vec!["a", "b", "c"]);
    assert_eq!(split("/", Separator::Slash), vec!["", ""]);
    assert_eq!(split("a//b/", Separator::Slash), vec!["a", "", "b", ""]);
    assert_eq!(split("a b\tc", Separator::Blank), vec!["a", "b", "c"]);
    assert_eq!(split("a\nb/c", Separator::Newline), vec!["a", "b/c"]);
    assert_eq!(split("[ab]c]", Separator::Bracket), vec!["[ab", "c", ""]);
}

#[test]
fn lines_are_those_of_the_standard_library() {
    for text in [
        "",
        "\n",
        "\r\n",
        "\r",
        "a",
        "a\n",
        "a\r\n",
        "a\r",
        "a\nb",
        "a\nb\n",
        "a\r\nb\r\n",
        "a\n\nb",
        "a\n\n",
        "\n\n",
        "\na",
        "a\r\r\nb",
        "a\rb\nc",
        "foo\nbar\n\r\nbaz\r",
        "4\nxxx/AN\nyyy\n",
        "é\r\nü\n",
    ] {
        let expected: Vec<String> = text.lines().map(|l| l.to_string()).collect();
        assert_eq!(texts(&lines_of(&chars(text))), expected, "{:?}", text);
    }
}

#[test]
fn lines_drop_the_line_ends() {
    assert_eq!(texts(&lines_of(&chars("a\r\nb\n\nc"))), vec!["a", "b", "", "c"]);
    assert_eq!(texts(&lines_of(&chars("a\r"))), vec!["a\r"]);
    assert!(lines_of(&chars("")).is_empty());
}

#[test]
fn fields_are_the_runs_between_blanks() {
    let fields = |s: &str| texts(&fields_of(&chars(s)));
    assert!(fields("").is_empty());
    assert!(fields("   \t ").is_empty());
    assert_eq!(fields("PFX"), vec!["PFX"]);
    assert_eq!(fields("PFX A Y 1"), vec!["PFX", "A", "Y", "1"]);
    assert_eq!(fields("  PFX\tA \t Y  1  "), vec!["PFX", "A", "Y", "1"]);
    assert_eq!(fields("a\u{a0}b c"), vec!["a\u{a0}b", "c"]);
    for line in ["SFX N 0 en .", " x  y ", "\tx\t", "one"] {
        let expected: Vec<String> = line
            .split(|c| c == ' ' || c == '\t')
            .filter(|p| !p.is_empty())
            .map(|p| p.to_string())
            .collect();
        assert_eq!(fields(line), expected);
    }
}

#[test]
fn decimal_numbers_are_read() {
    assert_eq!(decimal_of(&chars("0")), Some(0));
    assert_eq!(decimal_of(&chars("7")), Some(7));
    assert_eq!(decimal_of(&chars("42")), Some(42));
    assert_eq!(decimal_of(&chars("007")), Some(7));
    assert_eq!(decimal_of(&chars("1234567890")), Some(1234567890));
    assert_eq!(decimal_of(&chars("4294967295")), Some(4294967295));
    assert_eq!(decimal_of(&chars("4294967296")), None);
    assert_eq!(decimal_of(&chars("42949672950")), None);
    assert_eq!(decimal_of(&chars("00000000004294967295")), Some(4294967295));
    assert_eq!(decimal_of(&chars("")), None);
    assert_eq!(decimal_of(&chars("-1")), None);
    assert_eq!(decimal_of(&chars("+1")), None);
    assert_eq!(decimal_of(&chars("1a")), None);
    assert_eq!(decimal_of(&chars("a1")), None);
    assert_eq!(decimal_of(&chars("1 ")), None);
    assert_eq!(decimal_of(&chars("٣")), None);
    assert_eq!(decimal_of(&chars("99999999999x")), None);
}

#[test]
fn separators_cut_their_characters() {
    assert!(Separator::Newline.matches('\n'));
    assert!(!Separator::Newline.matches('\r'));
    assert!(Separator::Slash.matches('/'));
    assert!(!Separator::Slash.matches('\\'));
    assert!(Separator::Blank.matches(' '));
    assert!(Separator::Blank.matches('\t'));
    assert!(!Separator::Blank.matches('\n'));
    assert!(Separator::Bracket.matches(']'));
    assert!(!Separator::Bracket.matches('['));
}

#[test]
fn conditions_are_read_class_by_class() {
    let c = parse_condition(&chars("[^aeiou]y")).unwrap();
    assert_eq!(c.len(), 2);
    assert!(c[0].negated);
    assert_eq!(c[0].members, chars("aeiou"));
    assert!(c[0].admits('x'));
    assert!(!c[0].admits('a'));
    assert!(!c[1].negated);
    assert_eq!(c[1].members, chars("y"));
    assert!(c[1].admits('y'));
    assert!(!c[1].admits('x'));

    let any = parse_condition(&chars("a.")).unwrap();
    assert_eq!(any.len(), 2);
    assert!(any[1].negated);
    assert!(any[1].members.is_empty());
    assert!(any[1].admits('q'));

    assert!(parse_condition(&chars(".")).unwrap().is_empty());
    assert!(parse_condition(&chars("")).unwrap().is_empty());
    assert_eq!(parse_condition(&chars("..")).unwrap().len(), 2);

    let empty_class = parse_condition(&chars("[]")).unwrap();
    assert_eq!(empty_class.len(), 1);
    assert!(!empty_class[0].admits('a'));
    let all_but_none = parse_condition(&chars("[^]")).unwrap();
    assert!(all_but_none[0].admits('a'));
    let caret_inside = parse_condition(&chars("[a^]")).unwrap();
    assert!(!caret_inside[0].negated);
    assert_eq!(caret_inside[0].members, chars("a^"));
    let bracket_inside = parse_condition(&chars("[[.]")).unwrap();
    assert_eq!(bracket_inside[0].members, chars("[."));

    assert_eq!(parse_condition(&chars("[abc")), None);
    assert_eq!(parse_condition(&chars("abc]")), None);
    assert_eq!(parse_condition(&chars("]")), None);
    assert_eq!(parse_condition(&chars("[")), None);
    assert_eq!(parse_condition(&chars("a[b]c[")), None);
}

#[test]
fn rank_is_the_order_of_strings() {
    let words = [
        "", "a", "A", "aa", "ab", "b", "B", "z", "é", "e", "zebra", "Zebra", "zebras", "10", "9",
        "日本", "日本語", "~", " ",
    ];
    for a in words {
        for b in words {
            let expected = match a.cmp(b) {
                std::cmp::Ordering::Less => Rank::Before,
                std::cmp::Ordering::Equal => Rank::Same,
                std::cmp::Ordering::Greater => Rank::After,
            };
            assert_eq!(rank(a, b), expected, "{:?} {:?}", a, b);
        }
    }
    assert_eq!(rank("abc", "abd"), Rank::Before);
    assert_eq!(rank("abc", "abcd"), Rank::Before);
    assert_eq!(rank("abc", "abc"), Rank::Same);
    assert_eq!(rank("b", "abc"), Rank::After);
}

#[test]
fn sorted_distinct_sorts_and_drops_repetitions() {
    let cases: Vec<Vec<&str>> = vec![
        vec![],
        vec!["a"],
        vec!["b", "a"],
        vec!["a", "a"],
        vec!["b", "a", "b", "c", "a", "", "é", "Z", "b"],
        vec!["9", "8", "7", "6", "5", "4", "3", "2", "1", "0", "5", "5"],
        vec!["x", "xx", "xxx", "xx", "x"],
    ];
    for case in cases {
        let mut expected = case.clone();
        expected.sort();
        expected.dedup();
        assert_eq!(sorted_distinct(&case), expected);
    }
}
