use stringmetrics::spellcheck::affix::Affix;
use stringmetrics::spellcheck::error::AffixParseError;
use stringmetrics::spellcheck::flag::{Flag, FlagStyle};
use stringmetrics::spellcheck::rule::AffixKind;

const SHORT_AFF: &str = "SET UTF-8\nNOSUGGEST !\n\nPFX A Y 1\nPFX A 0 re .\n\nSFX N Y 1\nSFX N 0 en .\n";

fn loaded(document: &str) -> Affix {
    let mut afx = Affix::new();
    afx.load_from_str(document).unwrap();
    afx
}

fn strings(words: &[&str]) -> Vec<String> {
    words.iter().map(|w| w.to_string()).collect()
}

#[test]
fn affix_create_words() {
    let mut afx = Affix::new();

    afx.load_from_str(SHORT_AFF).unwrap();

    assert_eq!(
        afx.create_affixed_words("xxx", "A"),
        vec!["xxx".to_string(), "rexxx".to_string()]
    );
    assert_eq!(
        afx.create_affixed_words("xxx", "N"),
        vec!["xxx".to_string(), "xxxen".to_string()]
    );
    assert_eq!(
        afx.create_affixed_words("xxx", "AN"),
        vec![
            "xxx".to_string(),
            "rexxx".to_string(),
            "xxxen".to_string(),
            "rexxxen".to_string()
        ]
    );
}

#[test]
fn empty_flags_give_the_root_alone() {
    let afx = loaded(SHORT_AFF);
    for root in ["xxx", "", "a", "naïve", "re"] {
        assert_eq!(afx.create_affixed_words(root, ""), vec![root.to_string()]);
    }
    let none = Affix::new();
    assert_eq!(none.create_affixed_words("xxx", ""), strings(&["xxx"]));
}

#[test]
fn configuration_without_rules_adds_nothing() {
    let none = Affix::new();
    assert_eq!(none.create_affixed_words("xxx", "AN"), strings(&["xxx"]));
    assert!(none.affix_rules.is_empty());
    assert_eq!(none.nosuggest_flag, None);
    assert_eq!(none.flag_style, FlagStyle::Single);
}

#[test]
fn unknown_flags_are_ignored() {
    let afx = loaded(SHORT_AFF);
    assert_eq!(afx.create_affixed_words("xxx", "Z"), strings(&["xxx"]));
    assert_eq!(afx.create_affixed_words("xxx", "ZAQ"), strings(&["xxx", "rexxx"]));
    assert_eq!(afx.create_affixed_words("xxx", "!"), strings(&["xxx"]));
}

#[test]
fn flag_order_decides_the_order_of_spellings() {
    let afx = loaded(SHORT_AFF);
    assert_eq!(
        afx.create_affixed_words("xxx", "NA"),
        strings(&["xxx", "xxxen", "rexxx", "rexxxen"])
    );
}

#[test]
fn repeated_flags_repeat_spellings() {
    let afx = loaded(SHORT_AFF);
    assert_eq!(afx.create_affixed_words("xxx", "AA"), strings(&["xxx", "rexxx", "rexxx"]));
    assert_eq!(
        afx.create_affixed_words("xxx", "ANA"),
        strings(&["xxx", "rexxx", "xxxen", "rexxx", "rexxxen", "rexxxen"])
    );
}

#[test]
fn rules_under_one_flag_keep_their_order() {
    let afx = loaded("SFX S Y 3\nSFX S 0 s .\nSFX S 0 es .\nSFX S 0 s .\n");
    assert_eq!(afx.create_affixed_words("box", "S"), strings(&["box", "boxs", "boxes", "boxs"]));
}

#[test]
fn condition_selects_the_rule() {
    let afx = loaded("SFX S Y 2\nSFX S 0 s [^sy]\nSFX S y ies y\n");
    assert_eq!(afx.create_affixed_words("cat", "S"), strings(&["cat", "cats"]));
    assert_eq!(afx.create_affixed_words("pony", "S"), strings(&["pony", "ponies"]));
    assert_eq!(afx.create_affixed_words("bus", "S"), strings(&["bus"]));
    assert_eq!(afx.create_affixed_words("", "S"), strings(&[""]));
}

#[test]
fn condition_of_a_prefix_looks_at_the_beginning() {
    let afx = loaded("PFX U Y 2\nPFX U 0 un [^u]\nPFX U 0 x u[nm]\n");
    assert_eq!(afx.create_affixed_words("do", "U"), strings(&["do", "undo"]));
    assert_eq!(afx.create_affixed_words("undo", "U"), strings(&["undo", "xundo"]));
    assert_eq!(afx.create_affixed_words("umbra", "U"), strings(&["umbra", "xumbra"]));
    assert_eq!(afx.create_affixed_words("ultra", "U"), strings(&["ultra"]));
    assert_eq!(afx.create_affixed_words("u", "U"), strings(&["u"]));
}

#[test]
fn dot_in_a_longer_condition_stands_for_one_character() {
    let afx = loaded("SFX D Y 1\nSFX D 0 s .x\n");
    assert_eq!(afx.create_affixed_words("ax", "D"), strings(&["ax", "axs"]));
    assert_eq!(afx.create_affixed_words("x", "D"), strings(&["x"]));
    assert_eq!(afx.create_affixed_words("xa", "D"), strings(&["xa"]));
}

#[test]
fn single_dot_asks_nothing_of_the_word() {
    let afx = loaded("SFX D Y 1\nSFX D 0 s .\nPFX E Y 1\nPFX E 0 e\n");
    assert_eq!(afx.create_affixed_words("", "D"), strings(&["", "s"]));
    assert_eq!(afx.create_affixed_words("", "E"), strings(&["", "e"]));
    assert!(afx.affix_rules[0].condition.is_empty());
    assert!(afx.affix_rules[1].condition.is_empty());
}

#[test]
fn rule_without_its_strip_at_the_end_adds_nothing() {
    let afx = loaded("SFX Y Y 1\nSFX Y y ies .\nPFX P Y 1\nPFX P un re .\n");
    assert_eq!(afx.create_affixed_words("cat", "Y"), strings(&["cat"]));
    assert_eq!(afx.create_affixed_words("y", "Y"), strings(&["y", "ies"]));
    assert_eq!(afx.create_affixed_words("do", "P"), strings(&["do"]));
    assert_eq!(afx.create_affixed_words("undo", "P"), strings(&["undo", "redo"]));
    assert_eq!(afx.create_affixed_words("u", "P"), strings(&["u"]));
}

#[test]
fn rules_that_may_not_be_joined_stay_alone() {
    let prefix_alone = loaded("PFX A N 1\nPFX A 0 re .\nSFX N Y 1\nSFX N 0 en .\n");
    assert_eq!(
        prefix_alone.create_affixed_words("xxx", "AN"),
        strings(&["xxx", "rexxx", "xxxen"])
    );
    let suffix_alone = loaded("PFX A Y 1\nPFX A 0 re .\nSFX N N 1\nSFX N 0 en .\n");
    assert_eq!(
        suffix_alone.create_affixed_words("xxx", "AN"),
        strings(&["xxx", "rexxx", "xxxen"])
    );
}

#[test]
fn two_rules_for_the_same_end_are_not_joined() {
    let afx = loaded("SFX S Y 1\nSFX S 0 s .\nSFX N Y 1\nSFX N 0 en .\n");
    assert_eq!(afx.create_affixed_words("xxx", "SN"), strings(&["xxx", "xxxs", "xxxen"]));
}

#[test]
fn joined_rules_take_away_at_both_ends() {
    let afx = loaded("PFX U Y 1\nPFX U un 0 .\nSFX L Y 1\nSFX L y ily y\n");
    assert_eq!(
        afx.create_affixed_words("unhappy", "UL"),
        strings(&["unhappy", "happy", "unhappily", "happily"])
    );
    assert_eq!(
        afx.create_affixed_words("unhappy", "LU"),
        strings(&["unhappy", "unhappily", "happy", "happily"])
    );
}

#[test]
fn rules_that_would_take_the_same_characters_are_not_joined() {
    let afx = loaded("PFX P Y 1\nPFX P ab x .\nSFX S Y 1\nSFX S ab y .\n");
    assert_eq!(afx.create_affixed_words("ab", "PS"), strings(&["ab", "x", "y"]));
    assert_eq!(afx.create_affixed_words("abab", "PS"), strings(&["abab", "xab", "aby", "xy"]));
    assert_eq!(afx.create_affixed_words("aba", "PS"), strings(&["aba", "xa"]));
}

#[test]
fn several_rules_under_both_flags_join_in_order() {
    let afx = loaded(
        "PFX A Y 2\nPFX A 0 re .\nPFX A 0 un .\nSFX N Y 2\nSFX N 0 en .\nSFX N 0 s .\n",
    );
    assert_eq!(
        afx.create_affixed_words("x", "AN"),
        strings(&["x", "rex", "unx", "xen", "xs", "rexen", "rexs", "unxen", "unxs"])
    );
}

#[test]
fn words_beyond_ascii_are_taken_by_character() {
    let afx = loaded("SFX É Y 1\nSFX É é ée é\nPFX Ü Y 1\nPFX Ü 0 über [^ü]\n");
    assert_eq!(afx.create_affixed_words("café", "É"), strings(&["café", "cafée"]));
    assert_eq!(afx.create_affixed_words("maß", "Ü"), strings(&["maß", "übermaß"]));
    assert_eq!(
        afx.create_affixed_words("né", "ÜÉ"),
        strings(&["né", "überné", "née", "übernée"])
    );
}

#[test]
fn loaded_rules_can_be_read() {
    let afx = loaded("NOSUGGEST !\nPFX A Y 1\nPFX A 0 re .\nSFX N N 1\nSFX N y ies [^aeiou]y\n");
    assert_eq!(afx.nosuggest_flag, Some(Flag::Short('!')));
    assert_eq!(afx.flag_style, FlagStyle::Single);
    assert_eq!(afx.affix_rules.len(), 2);
    let first = &afx.affix_rules[0];
    assert_eq!(first.flag, Flag::Short('A'));
    assert_eq!(first.kind, AffixKind::Prefix);
    assert!(first.combinable);
    assert!(first.strip.is_empty());
    assert_eq!(first.add, vec!['r', 'e']);
    assert!(first.condition.is_empty());
    let second = &afx.affix_rules[1];
    assert_eq!(second.flag, Flag::Short('N'));
    assert_eq!(second.kind, AffixKind::Suffix);
    assert!(!second.combinable);
    assert_eq!(second.strip, vec!['y']);
    assert_eq!(second.add, vec!['i', 'e', 's']);
    assert_eq!(second.condition.len(), 2);
    assert!(second.condition[0].negated);
    assert_eq!(second.condition[0].members, vec!['a', 'e', 'i', 'o', 'u']);
    assert!(!second.condition[1].negated);
    assert_eq!(second.condition[1].members, vec!['y']);
}

#[test]
fn blank_lines_comments_tabs_and_carriage_returns_are_read_over() {
    let afx = loaded("# a comment\r\n\r\n  \t \r\nPFX\tA  Y\t1\r\n#PFX A 0 no .\r\n  PFX A 0 re . trailing fields\r\n");
    assert_eq!(afx.create_affixed_words("xxx", "A"), strings(&["xxx", "rexxx"]));
    assert_eq!(afx.affix_rules.len(), 1);
}

#[test]
fn empty_document_gives_an_empty_configuration() {
    let mut afx = loaded(SHORT_AFF);
    assert_eq!(afx.load_from_str(""), Ok(()));
    assert!(afx.affix_rules.is_empty());
    assert_eq!(afx.nosuggest_flag, None);
}

#[test]
fn header_may_announce_no_rules() {
    let afx = loaded("PFX A Y 0\nSFX N Y 1\nSFX N 0 en .\n");
    assert_eq!(afx.create_affixed_words("xxx", "AN"), strings(&["xxx", "xxxen"]));
}

#[test]
fn loading_replaces_the_configuration() {
    let mut afx = loaded(SHORT_AFF);
    afx.load_from_str("SFX S Y 1\nSFX S 0 s .\n").unwrap();
    assert_eq!(afx.create_affixed_words("xxx", "ANS"), strings(&["xxx", "xxxs"]));
    assert_eq!(afx.nosuggest_flag, None);
}

#[test]
fn failed_load_leaves_the_configuration_untouched() {
    let mut afx = loaded(SHORT_AFF);
    let before = afx.clone();
    let r = afx.load_from_str("SFX S Y 1\nSFX S 0 s .\nWHAT now\n");
    assert_eq!(r, Err(AffixParseError::UnknownDirective { line: 3 }));
    assert_eq!(afx, before);
    assert_eq!(
        afx.create_affixed_words("xxx", "ANS"),
        strings(&["xxx", "rexxx", "xxxen", "rexxxen"])
    );
}

#[test]
fn unknown_directive_is_refused() {
    let mut afx = Affix::new();
    assert_eq!(
        afx.load_from_str("TRY abc\n"),
        Err(AffixParseError::UnknownDirective { line: 1 })
    );
    assert_eq!(
        afx.load_from_str("\n\npfx A Y 1\n"),
        Err(AffixParseError::UnknownDirective { line: 3 })
    );
}

#[test]
fn malformed_directive_is_refused() {
    let mut afx = Affix::new();
    for document in [
        "NOSUGGEST\n",
        "NOSUGGEST !!\n",
        "PFX A Y\n",
        "PFX A X 1\n",
        "PFX A Y one\n",
        "PFX A Y -1\n",
        "PFX AB Y 1\n",
        "FLAG\n",
        "FLAG num\n",
        "FLAG LONG\n",
        "FLAG long\nPFX A Y 1\n",
        "FLAG long\nPFX ABC Y 1\n",
        "FLAG long\nNOSUGGEST !\n",
        "FLAG long\nFLAG UTF-8\nNOSUGGEST !!\n",
        "SFX N Y 4294967296\n",
        "SFX N Y 99999999999999999999999999\n",
        "SFX\n",
    ] {
        let line = document.lines().count();
        assert_eq!(
            afx.load_from_str(document),
            Err(AffixParseError::MalformedDirective { line }),
            "{}",
            document
        );
    }
}

#[test]
fn largest_count_is_read() {
    let mut afx = Affix::new();
    assert_eq!(
        afx.load_from_str("SFX N Y 4294967295\nSFX N 0 en .\n"),
        Err(AffixParseError::RuleCountMismatch { line: 2 })
    );
    assert_eq!(afx.load_from_str("SFX N Y 0001\nSFX N 0 en .\n"), Ok(()));
}

#[test]
fn malformed_rule_is_refused() {
    let mut afx = Affix::new();
    for rule in ["SFX N 0", "SFX N 0 en [abc", "SFX N 0 en abc]", "SFX N 0 en [a]]", "SFX N"] {
        let document = format!("SFX N Y 1\n{}\n", rule);
        assert_eq!(
            afx.load_from_str(&document),
            Err(AffixParseError::MalformedRule { line: 2 }),
            "{}",
            rule
        );
    }
}

#[test]
fn too_few_rules_are_refused() {
    let mut afx = Affix::new();
    assert_eq!(
        afx.load_from_str("SFX N Y 2\nSFX N 0 en .\n"),
        Err(AffixParseError::RuleCountMismatch { line: 2 })
    );
    assert_eq!(
        afx.load_from_str("SFX N Y 2\nSFX N 0 en .\nPFX A Y 1\nPFX A 0 re .\n"),
        Err(AffixParseError::RuleCountMismatch { line: 3 })
    );
    assert_eq!(
        afx.load_from_str("SFX N Y 1\nSFX M 0 en .\n"),
        Err(AffixParseError::RuleCountMismatch { line: 2 })
    );
    assert_eq!(
        afx.load_from_str("SFX N Y 1\nNOSUGGEST !\nSFX N 0 en .\n"),
        Err(AffixParseError::RuleCountMismatch { line: 2 })
    );
    assert_eq!(
        afx.load_from_str("SFX N Y 1\n"),
        Err(AffixParseError::RuleCountMismatch { line: 1 })
    );
}

#[test]
fn too_many_rules_are_refused() {
    let mut afx = Affix::new();
    assert_eq!(
        afx.load_from_str("SFX N Y 1\nSFX N 0 en .\nSFX N 0 s .\n"),
        Err(AffixParseError::RuleCountMismatch { line: 3 })
    );
    assert_eq!(
        afx.load_from_str("SFX N Y 1\nSFX N 0 en .\nSFX M 0 s .\n"),
        Err(AffixParseError::MalformedDirective { line: 3 })
    );
}

#[test]
fn parse_errors_describe_themselves() {
    let unknown = AffixParseError::UnknownDirective { line: 7 };
    assert_eq!(unknown.line(), 7);
    assert_eq!(unknown.describe(), "unknown directive");
    let directive = AffixParseError::MalformedDirective { line: 8 };
    assert_eq!(directive.line(), 8);
    assert_eq!(directive.describe(), "malformed directive");
    let rule = AffixParseError::MalformedRule { line: 9 };
    assert_eq!(rule.line(), 9);
    assert_eq!(rule.describe(), "malformed rule");
    let count = AffixParseError::RuleCountMismatch { line: 10 };
    assert_eq!(count.line(), 10);
    assert_eq!(count.describe(), "rule count of the header does not match");
}

#[test]
fn expansion_by_characters_agrees_with_expansion_by_strings() {
    let afx = loaded(SHORT_AFF);
    let root: Vec<char> = "xxx".chars().collect();
    let flags: Vec<char> = "AN".chars().collect();
    let by_chars: Vec<String> =
        afx.expand(&root, &flags).iter().map(|w| w.iter().collect()).collect();
    assert_eq!(by_chars, afx.create_affixed_words("xxx", "AN"));
}

const LONG_AFF: &str = "FLAG long\nNOSUGGEST !!\nPFX Aa Y 1\nPFX Aa 0 re .\nSFX Nn Y 1\nSFX Nn 0 en .\nSFX aN Y 1\nSFX aN 0 s .\n";

#[test]
fn long_flags_are_two_characters() {
    let afx = loaded(LONG_AFF);
    assert_eq!(afx.flag_style, FlagStyle::Long);
    assert_eq!(afx.nosuggest_flag, Some(Flag::Long('!', '!')));
    assert_eq!(afx.affix_rules[0].flag, Flag::Long('A', 'a'));
    assert_eq!(afx.create_affixed_words("xxx", "Aa"), strings(&["xxx", "rexxx"]));
    assert_eq!(afx.create_affixed_words("xxx", "Nn"), strings(&["xxx", "xxxen"]));
    assert_eq!(
        afx.create_affixed_words("xxx", "AaNn"),
        strings(&["xxx", "rexxx", "xxxen", "rexxxen"])
    );
    assert_eq!(
        afx.create_affixed_words("xxx", "NnAa"),
        strings(&["xxx", "xxxen", "rexxx", "rexxxen"])
    );
}

#[test]
fn long_flags_are_read_in_pairs_from_the_left() {
    let afx = loaded(LONG_AFF);
    assert_eq!(afx.create_affixed_words("xxx", "A"), strings(&["xxx"]));
    assert_eq!(afx.create_affixed_words("xxx", "aN"), strings(&["xxx", "xxxs"]));
    assert_eq!(afx.create_affixed_words("xxx", "AaN"), strings(&["xxx", "rexxx"]));
    assert_eq!(afx.create_affixed_words("xxx", "xAaN"), strings(&["xxx", "xxxs"]));
    assert_eq!(afx.create_affixed_words("xxx", "xAxN"), strings(&["xxx"]));
    assert_eq!(afx.create_affixed_words("xxx", "xxAaNn"), strings(&[
        "xxx", "rexxx", "xxxen", "rexxxen"
    ]));
    assert_eq!(afx.create_affixed_words("xxx", "aNn"), strings(&["xxx", "xxxs"]));
    assert_eq!(afx.create_affixed_words("xxx", ""), strings(&["xxx"]));
}

#[test]
fn flag_style_tells_the_flags_of_a_flag_string_apart() {
    let chars = |s: &str| -> Vec<char> { s.chars().collect() };
    assert_eq!(FlagStyle::Single.tokens_of(&chars("")), vec![]);
    assert_eq!(
        FlagStyle::Single.tokens_of(&chars("AN!")),
        vec![Flag::Short('A'), Flag::Short('N'), Flag::Short('!')]
    );
    assert_eq!(FlagStyle::Long.tokens_of(&chars("")), vec![]);
    assert_eq!(FlagStyle::Long.tokens_of(&chars("A")), vec![Flag::Short('A')]);
    assert_eq!(FlagStyle::Long.tokens_of(&chars("Aa")), vec![Flag::Long('A', 'a')]);
    assert_eq!(
        FlagStyle::Long.tokens_of(&chars("AaNn!")),
        vec![Flag::Long('A', 'a'), Flag::Long('N', 'n'), Flag::Short('!')]
    );
    assert_eq!(FlagStyle::Single.read(&chars("A")), Some(Flag::Short('A')));
    assert_eq!(FlagStyle::Single.read(&chars("Aa")), None);
    assert_eq!(FlagStyle::Single.read(&chars("")), None);
    assert_eq!(FlagStyle::Long.read(&chars("Aa")), Some(Flag::Long('A', 'a')));
    assert_eq!(FlagStyle::Long.read(&chars("A")), None);
    assert_eq!(FlagStyle::Long.read(&chars("Aaa")), None);
}

#[test]
fn flag_directive_holds_for_what_follows_it() {
    let afx = loaded("PFX A Y 1\nPFX A 0 re .\nFLAG long\nSFX Nn Y 1\nSFX Nn 0 en .\nFLAG UTF-8\nSFX S Y 1\nSFX S 0 s .\n");
    assert_eq!(afx.flag_style, FlagStyle::Single);
    assert_eq!(afx.create_affixed_words("xxx", "ANnS"), strings(&["xxx", "rexxx", "xxxs", "rexxxs"]));
}
