use std::collections::HashMap;
use word_unscrambler::dictionary::{file_word, Dictionary};
use word_unscrambler::fingerprint::associative_hash;
use word_unscrambler::resolver::{accepts_word, compared_letters, count_char, find_word_candidates};
use word_unscrambler::text::{chars_of, string_of};
use word_unscrambler::token::{
    capitalize, classify, find_first_uppercase, join, pick_first, render_body, render_list, second_pass,
    select, sorted_letters, unscramble_token, word_candidates, Mark,
};
use word_unscrambler::unscramble::{split_lines, split_tokens, unscramble, unscramble_line};

fn german() -> Dictionary {
    let words: Vec<String> = [
        "achten",
        "aller",
        "atlantische",
        "des",
        "die",
        "Eis",
        "Gewalt",
        "ist",
        "Menschen",
        "schützen",
        "Sei",
        "Sie",
        "staatlichen",
        "unantastbar",
        "und",
        "Verpflichtung",
        "Würde",
        "zu",
    ]
    .iter()
    .map(|w| w.to_string())
    .collect();
    Dictionary::build(&words)
}

fn dictionary_of(words: &[&str]) -> Dictionary {
    let words: Vec<String> = words.iter().map(|w| w.to_string()).collect();
    Dictionary::build(&words)
}

fn chars(s: &str) -> Vec<char> {
    s.chars().collect()
}

fn strings(v: Vec<String>) -> Vec<String> {
    v
}

#[test]
fn test_associative_hash() {
    const TEST_STRING: &[u8] = b"Lorem ipsum dolor sit amet, consectetur adipiscing elit, sed do eiusmod tempor incididunt ut labore et dolore magna aliqua. Ut enim ad minim veniam, quis nostrud exercitation ullamco laboris nisi ut aliquip ex ea commodo consequat. Duis aute irure dolor in reprehenderit in voluptate velit esse cillum dolore eu fugiat nulla pariatur. Excepteur sint occaecat cupidatat non proident, sunt in culpa qui officia deserunt mollit anim id est laborum.";
    let mut sorted_string: Vec<_> = TEST_STRING.to_vec();
    sorted_string.sort_unstable();
    assert_eq!(
        associative_hash(TEST_STRING),
        associative_hash(&sorted_string)
    );
}

#[test]
fn test_unscrable() {
    const TEST_STRING: &str = "eiD rüedW dse cnnesheM its atusar.tanbn eSi uz eahntc dnu uz shcenztü tis tincufhpegrlV ealrl iesnatclhat .eawltG";
    const EXPECTED_STRING: &str = r#"Die Würde des Menschen ist unantastbar. ["Sei", "Sie"] zu achten und zu schützen ist Verpflichtung aller ["atlantische", "staatlichen"] Gewalt."#;
    let output_string = unscramble(&german(), TEST_STRING);
    assert_eq!(output_string, EXPECTED_STRING);
}

#[test]
fn hash_is_the_sum_of_the_bytes() {
    assert_eq!(associative_hash(b""), 0);
    assert_eq!(associative_hash(b"a"), 97);
    assert_eq!(associative_hash(b"abc"), 294);
    assert_eq!(associative_hash(&[255, 255, 1]), 511);
}

#[test]
fn hash_ignores_the_order() {
    assert_eq!(associative_hash(b"listen"), associative_hash(b"silent"));
    assert_eq!(associative_hash("Würde".as_bytes()), associative_hash("rüedW".as_bytes()));
}

#[test]
fn hash_tells_the_case() {
    assert_ne!(associative_hash(b"die"), associative_hash(b"Die"));
}

#[test]
fn lookup_keeps_dictionary_order() {
    let d = german();
    let bucket = d.lookup(associative_hash(b"eSi"));
    assert_eq!(*bucket, vec!["Eis".to_string(), "Sei".to_string(), "Sie".to_string()]);
}

#[test]
fn lookup_of_an_unknown_fingerprint_is_empty() {
    let d = german();
    assert!(d.lookup(1).is_empty());
    assert!(Dictionary::new().lookup(294).is_empty());
}

#[test]
fn build_appends_to_the_bucket() {
    let d = dictionary_of(&["tab", "bat", "cat"]);
    assert_eq!(*d.lookup(associative_hash(b"abt")), vec!["tab".to_string(), "bat".to_string()]);
    assert_eq!(*d.lookup(associative_hash(b"act")), vec!["cat".to_string()]);
}

#[test]
fn file_word_opens_and_fills_buckets() {
    let mut map: HashMap<u64, Vec<String>> = HashMap::new();
    file_word(&mut map, "tab");
    file_word(&mut map, "cat");
    file_word(&mut map, "bat");
    assert_eq!(map.len(), 2);
    assert_eq!(map[&311], vec!["tab".to_string(), "bat".to_string()]);
    assert_eq!(map[&312], vec!["cat".to_string()]);
}

#[test]
fn resolver_drops_a_colliding_word() {
    let d = german();
    assert_eq!(associative_hash(b"Eis"), associative_hash(b"eSi"));
    assert_eq!(
        find_word_candidates(&d, "eSi", None),
        strings(vec!["Sei".to_string(), "Sie".to_string()])
    );
}

#[test]
fn resolver_drops_a_collision_of_other_letters() {
    let d = dictionary_of(&["ad", "bc", "da"]);
    assert_eq!(associative_hash(b"ad"), associative_hash(b"bc"));
    assert_eq!(
        find_word_candidates(&d, "da", None),
        strings(vec!["ad".to_string(), "da".to_string()])
    );
}

#[test]
fn resolver_finds_nothing_for_an_unknown_word() {
    assert!(find_word_candidates(&german(), "zzq", None).is_empty());
    assert!(find_word_candidates(&Dictionary::new(), "", None).is_empty());
}

#[test]
fn resolver_holds_to_the_forced_letter() {
    let d = dictionary_of(&["die", "eid"]);
    assert_eq!(
        find_word_candidates(&d, "eid", Some('D')),
        strings(vec!["die".to_string()])
    );
    assert_eq!(
        find_word_candidates(&d, "eid", Some('E')),
        strings(vec!["eid".to_string()])
    );
    assert_eq!(
        find_word_candidates(&d, "eid", None),
        strings(vec!["die".to_string(), "eid".to_string()])
    );
    assert!(find_word_candidates(&d, "eid", Some('X')).is_empty());
}

#[test]
fn forced_letter_leaves_the_first_character_uncompared() {
    assert!(accepts_word(&chars("dab"), Some('D'), &chars("D ab")));
    assert!(!accepts_word(&chars("dab"), None, &chars("D ab")));
    assert!(accepts_word(&chars("dab"), Some('B'), &chars("bad")));
    assert!(!accepts_word(&chars("dab"), Some('B'), &chars("abd")));
}

#[test]
fn compared_letters_are_distinct() {
    assert_eq!(compared_letters(&chars("otto"), None), chars("ot"));
    assert_eq!(compared_letters(&chars("otto"), Some('O')), chars("to"));
    assert_eq!(compared_letters(&chars("banana"), None), chars("ban"));
    assert_eq!(compared_letters(&chars(""), Some('A')), chars(""));
}

#[test]
fn count_char_counts() {
    assert_eq!(count_char(&chars("banana"), 'a'), 3);
    assert_eq!(count_char(&chars("banana"), 'x'), 0);
    assert_eq!(count_char(&chars(""), 'a'), 0);
}

#[test]
fn characters_and_strings_convert() {
    assert_eq!(chars_of("Wür"), vec!['W', 'ü', 'r']);
    assert_eq!(string_of(&vec!['W', 'ü', 'r']), "Wür");
    assert_eq!(string_of(&chars_of("")), "");
}

#[test]
fn marks_of_the_punctuation() {
    for c in ['(', '„'] {
        assert_eq!(classify(c), Mark::Leading);
    }
    for c in [',', '.', ')', '“', ':', '-', '?'] {
        assert_eq!(classify(c), Mark::Trailing);
    }
    for c in ['a', 'Z', 'ü', '!', '"', '”', ' '] {
        assert_eq!(classify(c), Mark::Letter);
    }
}

#[test]
fn select_keeps_the_order() {
    let token = chars("(„a.b,)c?");
    assert_eq!(select(&token, Mark::Leading), chars("(„"));
    assert_eq!(select(&token, Mark::Trailing), chars(".,)?"));
    assert_eq!(select(&token, Mark::Letter), chars("abc"));
}

#[test]
fn first_uppercase_is_found_anywhere() {
    assert_eq!(find_first_uppercase(&chars("eiD")), Some('D'));
    assert_eq!(find_first_uppercase(&chars("aBcD")), Some('B'));
    assert_eq!(find_first_uppercase(&chars("rÜedw")), Some('Ü'));
    assert_eq!(find_first_uppercase(&chars("abc")), None);
    assert_eq!(find_first_uppercase(&chars("")), None);
}

#[test]
fn pick_first_takes_the_first_marked() {
    assert_eq!(pick_first(&chars("abc"), &vec![false, true, true]), Some('b'));
    assert_eq!(pick_first(&chars("abc"), &vec![false, false, false]), None);
    assert_eq!(pick_first(&chars("abc"), &vec![false]), None);
    assert_eq!(pick_first(&chars("a"), &vec![false, true]), None);
    assert_eq!(pick_first(&chars(""), &Vec::new()), None);
}

#[test]
fn capitalize_touches_ascii_only() {
    assert_eq!(capitalize("die"), "Die");
    assert_eq!(capitalize("Die"), "Die");
    assert_eq!(capitalize("über"), "über");
    assert_eq!(capitalize("1a"), "1a");
    assert_eq!(capitalize(""), "");
}

#[test]
fn second_pass_capitalizes() {
    let d = german();
    assert_eq!(second_pass(&d, "eid", Some('D')), strings(vec!["Die".to_string()]));
    assert!(second_pass(&d, "eid", Some('E')).is_empty());
}

#[test]
fn two_passes_in_turn() {
    let d = german();
    assert_eq!(word_candidates(&d, &chars("dei")), strings(vec!["die".to_string()]));
    assert_eq!(word_candidates(&d, &chars("eiD")), strings(vec!["Die".to_string()]));
    assert_eq!(word_candidates(&d, &chars("Dei")), strings(vec!["Die".to_string()]));
    assert!(word_candidates(&d, &chars("zzq")).is_empty());
}

#[test]
fn sorted_letters_ascend() {
    assert_eq!(sorted_letters(&chars("zzq")), chars("qzz"));
    assert_eq!(sorted_letters(&chars("bAüa")), chars("Aabü"));
    assert_eq!(sorted_letters(&chars("")), chars(""));
}

#[test]
fn sorting_sorted_letters_changes_nothing() {
    let once = sorted_letters(&chars("scrambled"));
    assert_eq!(sorted_letters(&once), once);
    let none: Vec<String> = Vec::new();
    assert_eq!(render_body(&none, &once), render_body(&none, &chars("scrambled")));
}

#[test]
fn join_puts_the_separator_between() {
    let parts = vec![chars("a"), chars(""), chars("bc")];
    assert_eq!(join(&parts, &chars(", ")), chars("a, , bc"));
    assert_eq!(join(&vec![chars("a")], &chars(", ")), chars("a"));
    assert_eq!(join(&Vec::new(), &chars(", ")), chars(""));
}

#[test]
fn list_layout() {
    assert_eq!(render_list(&vec![chars("\"a\""), chars("\"b\"")]), chars("[\"a\", \"b\"]"));
    assert_eq!(render_list(&vec![chars("x")]), chars("[x]"));
    assert_eq!(render_list(&Vec::new()), chars("[]"));
}

#[test]
fn body_of_none_one_and_many() {
    let none: Vec<String> = Vec::new();
    assert_eq!(render_body(&none, &chars("zzq")), chars("`qzz`"));
    assert_eq!(render_body(&none, &chars("")), chars("``"));
    assert_eq!(render_body(&vec!["Die".to_string()], &chars("eiD")), chars("Die"));
    assert_eq!(
        render_body(&vec!["Sei".to_string(), "Sie".to_string()], &chars("eSi")),
        chars("[\"Sei\", \"Sie\"]")
    );
    assert_eq!(
        render_body(&vec!["a\"b".to_string(), "c\\d".to_string()], &chars("x")),
        chars("[\"a\\\"b\", \"c\\\\d\"]")
    );
}

#[test]
fn unknown_word_is_sorted_between_backticks() {
    assert_eq!(unscramble_token(&german(), "zzq"), "`qzz`");
    assert_eq!(unscramble(&german(), "zzq"), "`qzz`");
}

#[test]
fn punctuation_goes_back_round_the_body() {
    let d = german();
    assert_eq!(unscramble_token(&d, "(dse)"), "(des)");
    assert_eq!(unscramble_token(&d, "„uz“"), "„zu“");
    assert_eq!(unscramble_token(&d, "d.s(e,"), "(des.,");
    assert_eq!(unscramble_token(&d, "?zzq(:"), "(`qzz`?:");
    assert_eq!(unscramble_token(&d, ".eawltG"), "Gewalt.");
    assert_eq!(unscramble_token(&d, "(eSi)-"), "([\"Sei\", \"Sie\"])-");
    assert_eq!(unscramble_token(&d, "..."), "``...");
}

#[test]
fn lines_are_cut_at_line_feeds() {
    assert_eq!(split_lines(&chars("a\nb")), vec![chars("a"), chars("b")]);
    assert_eq!(split_lines(&chars("a\nb\n")), vec![chars("a"), chars("b")]);
    assert_eq!(split_lines(&chars("a\n\nb")), vec![chars("a"), chars(""), chars("b")]);
    assert_eq!(split_lines(&chars("\n")), vec![chars("")]);
    assert_eq!(split_lines(&chars("")), Vec::<Vec<char>>::new());
}

#[test]
fn tokens_are_cut_at_blanks() {
    assert_eq!(split_tokens(&chars("  a \t bc\r")), vec![chars("a"), chars("bc")]);
    assert_eq!(split_tokens(&chars("a\u{a0}b")), vec![chars("a\u{a0}b")]);
    assert_eq!(split_tokens(&chars("   ")), Vec::<Vec<char>>::new());
    assert_eq!(split_tokens(&chars("")), Vec::<Vec<char>>::new());
}

#[test]
fn line_is_rejoined_with_single_spaces() {
    let d = german();
    assert_eq!(unscramble_line(&d, "  dse \t uz  "), "des zu");
    assert_eq!(unscramble_line(&d, ""), "");
    assert_eq!(unscramble_line(&d, "eSi zzq"), "[\"Sei\", \"Sie\"] `qzz`");
}

#[test]
fn text_keeps_its_lines() {
    let d = german();
    assert_eq!(unscramble(&d, "dse uz\ndnu\n"), "des zu\nund");
    assert_eq!(unscramble(&d, "dse\r\nuz"), "des\nzu");
    assert_eq!(unscramble(&d, "dse\n\n\nuz"), "des\n\n\nzu");
    assert_eq!(unscramble(&d, ""), "");
    let out = unscramble(&d, "dse uz dnu\n\neiD\nits its\n");
    let lines: Vec<&str> = out.split('\n').collect();
    assert_eq!(lines.len(), 4);
    assert_eq!(lines[0].split(' ').count(), 3);
    assert_eq!(lines[3].split(' ').count(), 2);
}
