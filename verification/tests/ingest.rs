use eve_route::ingest::{parse_ansi_chars, parse_wh_chars, same_chars, split_lines};
use eve_route::text::{
    chars_less, chars_of, contains_chars, copy_range, find_chars, matches_at, split_chars,
    split_words, text_less, trim_range,
};
use eve_route::{
    load_ansiblexes, load_stargates, load_wormholes, try_parse_ansi_line, try_parse_wh_line, Jump,
    JumpMap, Region, RouteError, Security, System, Universe,
};

fn sys(id: i64, name: &str, security: f32, jumps: Vec<i64>) -> System {
    System {
        id,
        name: name.to_string(),
        security: Security::from_bits(security.to_bits()),
        constellation_id: 1,
        constellation: "Con".to_string(),
        region_id: 1,
        region: "Reg".to_string(),
        jumps,
    }
}

fn sample() -> Universe {
    let systems = vec![
        sys(1, "Jita", 0.9, vec![2]),
        sys(2, "Perimeter", 0.9, vec![1, 3]),
        sys(3, "Amamake", 0.4, vec![2]),
        sys(4, "Amarr", 1.0, vec![]),
        sys(5, "J123456", -0.99, vec![]),
        sys(6, "HED-GP", -0.4, vec![]),
    ];
    Universe::new(systems, vec![Region { name: "Reg".to_string(), id: 1 }]).unwrap()
}

fn chars(text: &str) -> Vec<char> {
    text.chars().collect()
}

fn texts(pieces: &[Vec<char>]) -> Vec<String> {
    pieces.iter().map(|p| p.iter().collect()).collect()
}

#[test]
fn chars_of_gives_every_character() {
    assert_eq!(chars_of("a-é\t"), vec!['a', '-', 'é', '\t']);
    assert_eq!(chars_of(""), Vec::<char>::new());
}

#[test]
fn text_order_is_the_order_of_str() {
    let samples = [
        "", "a", "A", "ab", "abc", "abd", "b", "Z", "z", "é", "zz", "\u{ffff}", "\u{10000}",
        "The Forge", "The Spire", "the forge", "-", " ", "0", "9",
    ];
    for a in samples {
        for b in samples {
            assert_eq!(text_less(a, b), a < b);
            assert_eq!(chars_less(&chars(a), &chars(b)), a < b);
        }
    }
    assert!(text_less("Domain", "Heimatar"));
    assert!(!text_less("Heimatar", "Domain"));
    assert!(!text_less("Domain", "Domain"));
    assert!(text_less("Dom", "Domain"));
}

#[test]
fn copy_range_takes_the_part() {
    let text = chars("abcdef");
    assert_eq!(copy_range(&text, 1, 4), chars("bcd"));
    assert_eq!(copy_range(&text, 2, 2), chars(""));
    assert_eq!(copy_range(&text, 0, 6), text);
}

#[test]
fn split_chars_keeps_empty_pieces() {
    assert_eq!(texts(&split_chars(&chars("a\tb\t\tc"), '\t')), vec!["a", "b", "", "c"]);
    assert_eq!(texts(&split_chars(&chars(""), '\t')), vec![""]);
    assert_eq!(texts(&split_chars(&chars("\t"), '\t')), vec!["", ""]);
    assert_eq!(texts(&split_chars(&chars("abc"), '\t')), vec!["abc"]);
}

#[test]
fn split_words_drops_white_space() {
    assert_eq!(texts(&split_words(&chars("  ABC-123   Jita  -&gt; Amarr "))), vec![
        "ABC-123", "Jita", "-&gt;", "Amarr"
    ]);
    assert_eq!(texts(&split_words(&chars(""))), Vec::<String>::new());
    assert_eq!(texts(&split_words(&chars(" \u{a0}\t "))), Vec::<String>::new());
    assert_eq!(texts(&split_words(&chars("one"))), vec!["one"]);
    assert_eq!(texts(&split_words(&chars("a\u{2003}b"))), vec!["a", "b"]);
}

#[test]
fn trim_range_drops_white_space_at_both_ends() {
    let text = chars("xx  Jita \t yy");
    assert_eq!(trim_range(&text, 2, 11), chars("Jita"));
    assert_eq!(trim_range(&text, 0, 13), chars("xx  Jita \t yy"));
    assert_eq!(trim_range(&text, 2, 4), chars(""));
    assert_eq!(trim_range(&chars("a b"), 0, 3), chars("a b"));
}

#[test]
fn matches_at_and_contains_chars_find_runs() {
    let hay = chars("perimeter");
    assert!(matches_at(&chars("rim"), &hay, 2));
    assert!(!matches_at(&chars("rim"), &hay, 3));
    assert!(contains_chars(&hay, &chars("meter")));
    assert!(contains_chars(&hay, &chars("")));
    assert!(contains_chars(&hay, &chars("perimeter")));
    assert!(!contains_chars(&hay, &chars("perimeters")));
    assert!(!contains_chars(&hay, &chars("tim")));
    assert!(contains_chars(&chars(""), &chars("")));
}

#[test]
fn find_chars_gives_the_first_place() {
    let hay = chars("a --> b --> c");
    let mark = chars("-->");
    assert_eq!(find_chars(&hay, &mark, 0), 2);
    assert_eq!(find_chars(&hay, &mark, 3), 8);
    assert_eq!(find_chars(&hay, &mark, 9), 13);
    assert_eq!(find_chars(&chars("-->"), &mark, 0), 0);
    assert_eq!(find_chars(&chars("--"), &mark, 0), 2);
}

#[test]
fn same_chars_compares_whole_texts() {
    assert!(same_chars(&chars("-&gt;"), &chars("-&gt;")));
    assert!(!same_chars(&chars("-&gt;"), &chars("-&gt")));
    assert!(!same_chars(&chars("-&gt;"), &chars("-&lt;")));
    assert!(same_chars(&chars(""), &chars("")));
}

#[test]
fn split_lines_follows_line_feeds() {
    assert_eq!(texts(&split_lines(&chars("a\nb\r\nc"))), vec!["a", "b", "c"]);
    assert_eq!(texts(&split_lines(&chars("a\n"))), vec!["a"]);
    assert_eq!(texts(&split_lines(&chars("a\n\nb\n"))), vec!["a", "", "b"]);
    assert_eq!(texts(&split_lines(&chars(""))), Vec::<String>::new());
    assert_eq!(texts(&split_lines(&chars("\n"))), vec![""]);
    assert_eq!(texts(&split_lines(&chars("a\r"))), vec!["a\r"]);
    assert_eq!(texts(&split_lines(&chars("a\r\r\n"))), vec!["a\r"]);
}

#[test]
fn split_lines_agrees_with_the_standard_library() {
    for text in ["", "x", "x\n", "x\ny", "x\r\ny\r\n", "\n\n", "x\r", "\r\n", "a\n\r\nb\r"] {
        let expected: Vec<String> = text.lines().map(|l| l.to_string()).collect();
        assert_eq!(texts(&split_lines(&chars(text))), expected);
    }
}

#[test]
fn wormhole_line_with_arrow_names_both_systems() {
    let universe = sample();
    let line = "ABC-123 Jita -&gt; Amarr\tWormhole\tCoordinate\tPerimeter\tmore";
    assert_eq!(try_parse_wh_line(&universe, line), Ok((1, 4)));
}

#[test]
fn wormhole_line_takes_the_word_after_the_arrow() {
    let universe = sample();
    let line = "ABC-123 Jita extra -&gt; Amarr\tx\ty\tPerimeter";
    assert_eq!(try_parse_wh_line(&universe, line), Ok((1, 4)));
}

#[test]
fn wormhole_line_without_arrow_takes_the_fourth_column() {
    let universe = sample();
    let line = "ABC-123 Jita (C3)\tWormhole\tCoordinate\tAmamake\tmore";
    assert_eq!(try_parse_wh_line(&universe, line), Ok((1, 3)));
    assert_eq!(parse_wh_chars(&universe, &chars(line)), Ok((1, 3)));
}

#[test]
fn wormhole_line_with_too_few_columns_is_a_parse_failure() {
    let universe = sample();
    for line in ["", "ABC-123 Jita -&gt; Amarr", "ABC-123 Jita -&gt; Amarr\ta\tb", "garbage"] {
        assert_eq!(
            try_parse_wh_line(&universe, line),
            Err(RouteError::ParseFailure { line: line.to_string() })
        );
    }
}

#[test]
fn wormhole_line_with_too_few_words_is_a_parse_failure() {
    let universe = sample();
    for line in ["ABC-123\ta\tb\tJita", "\ta\tb\tJita", "ABC-123 Jita -&gt;\ta\tb\tJita"] {
        assert_eq!(
            try_parse_wh_line(&universe, line),
            Err(RouteError::ParseFailure { line: line.to_string() })
        );
    }
}

#[test]
fn wormhole_line_with_unknown_system_reports_the_name() {
    let universe = sample();
    let line = "ABC-123 Rens -&gt; Amarr\tx\ty\tz";
    assert_eq!(
        try_parse_wh_line(&universe, line),
        Err(RouteError::NotFound { query: "Rens".to_string() })
    );
    let line = "ABC-123 Jita -&gt; Ama\tx\ty\tz";
    assert_eq!(
        try_parse_wh_line(&universe, line),
        Err(RouteError::Ambiguous { query: "Ama".to_string(), count: 2 })
    );
}

#[test]
fn bridge_line_names_both_systems() {
    let universe = sample();
    assert_eq!(try_parse_ansi_line(&universe, "12 Jita --> Amarr"), Ok((1, 4)));
    assert_eq!(try_parse_ansi_line(&universe, "Jita-->Amarr"), Ok((1, 4)));
    assert_eq!(try_parse_ansi_line(&universe, "007\tHED-GP   -->   J123456  "), Ok((6, 5)));
    assert_eq!(parse_ansi_chars(&universe, &chars("3 Amarr --> Jita")), Ok((4, 1)));
}

#[test]
fn bridge_line_splits_at_the_first_mark() {
    let universe = sample();
    assert_eq!(
        try_parse_ansi_line(&universe, "1 Jita --> Amarr --> Jita"),
        Err(RouteError::NotFound { query: "Amarr --> Jita".to_string() })
    );
}

#[test]
fn bridge_line_without_mark_is_a_parse_failure() {
    let universe = sample();
    for line in ["", "12 Jita -> Amarr", "12", "Jita Amarr"] {
        assert_eq!(
            try_parse_ansi_line(&universe, line),
            Err(RouteError::ParseFailure { line: line.to_string() })
        );
    }
}

#[test]
fn bridge_line_strips_only_digits_at_the_start() {
    let universe = sample();
    assert_eq!(
        try_parse_ansi_line(&universe, " 12 Jita --> Amarr"),
        Err(RouteError::NotFound { query: "12 Jita".to_string() })
    );
}

#[test]
fn stargates_are_loaded_in_table_order() {
    let universe = sample();
    let mut jumps = JumpMap::new();
    load_stargates(&universe, &mut jumps);
    assert_eq!(jumps.exits(1), Some(&vec![(2, Jump::Gate)]));
    assert_eq!(jumps.exits(2), Some(&vec![(1, Jump::Gate), (3, Jump::Gate)]));
    assert_eq!(jumps.exits(3), Some(&vec![(2, Jump::Gate)]));
    assert_eq!(jumps.exits(4), None);
    let mut sources = jumps.sources();
    sources.sort();
    assert_eq!(sources, vec![1, 2, 3]);
}

#[test]
fn adding_a_jump_twice_changes_nothing() {
    let mut jumps = JumpMap::new();
    jumps.add_jump(1, 2, Jump::Gate);
    jumps.add_jump(1, 3, Jump::Gate);
    jumps.add_jump(1, 2, Jump::Gate);
    jumps.add_jump(1, 2, Jump::Wormhole);
    assert_eq!(
        jumps.exits(1),
        Some(&vec![(2, Jump::Gate), (3, Jump::Gate), (2, Jump::Wormhole)])
    );
    assert_eq!(jumps.exits(2), None);
}

#[test]
fn set_exits_replaces_or_removes() {
    let mut jumps = JumpMap::new();
    jumps.add_jump(1, 2, Jump::Gate);
    jumps.set_exits(1, vec![(3, Jump::Ansiblex)]);
    assert_eq!(jumps.exits(1), Some(&vec![(3, Jump::Ansiblex)]));
    jumps.set_exits(1, vec![]);
    assert_eq!(jumps.exits(1), None);
    assert!(jumps.sources().is_empty());
}

#[test]
fn wormholes_are_loaded_in_both_directions() {
    let universe = sample();
    let mut jumps = JumpMap::new();
    let content = "ABC-123 Jita -&gt; Amarr\ta\tb\tc\nDEF-456 HED-GP (C5)\ta\tb\tJ123456\r\n";
    assert_eq!(load_wormholes(content, &universe, &mut jumps), Ok(()));
    assert_eq!(jumps.exits(1), Some(&vec![(4, Jump::Wormhole)]));
    assert_eq!(jumps.exits(4), Some(&vec![(1, Jump::Wormhole)]));
    assert_eq!(jumps.exits(6), Some(&vec![(5, Jump::Wormhole)]));
    assert_eq!(jumps.exits(5), Some(&vec![(6, Jump::Wormhole)]));
}

#[test]
fn malformed_wormhole_line_stops_loading_and_carries_the_line() {
    let universe = sample();
    let mut jumps = JumpMap::new();
    let bad = "this is not a bookmark";
    let content = format!(
        "ABC-123 Jita -&gt; Amarr\ta\tb\tc\n{bad}\nDEF-456 HED-GP -&gt; Jita\ta\tb\tc\n"
    );
    assert_eq!(
        load_wormholes(&content, &universe, &mut jumps),
        Err(RouteError::ParseFailure { line: bad.to_string() })
    );
    assert_eq!(jumps.exits(1), Some(&vec![(4, Jump::Wormhole)]));
    assert_eq!(jumps.exits(4), Some(&vec![(1, Jump::Wormhole)]));
    assert_eq!(jumps.exits(6), None);
}

#[test]
fn blank_wormhole_line_is_a_parse_failure() {
    let universe = sample();
    let mut jumps = JumpMap::new();
    let content = "ABC-123 Jita -&gt; Amarr\ta\tb\tc\n\nDEF-456 HED-GP -&gt; Jita\ta\tb\tc\n";
    assert_eq!(
        load_wormholes(content, &universe, &mut jumps),
        Err(RouteError::ParseFailure { line: String::new() })
    );
}

#[test]
fn unresolvable_wormhole_line_carries_the_line() {
    let universe = sample();
    let mut jumps = JumpMap::new();
    let bad = "ABC-123 Rens -&gt; Amarr\ta\tb\tc";
    assert_eq!(
        load_wormholes(bad, &universe, &mut jumps),
        Err(RouteError::ParseFailure { line: bad.to_string() })
    );
    assert!(jumps.sources().is_empty());
}

#[test]
fn bridges_are_loaded_and_idle_lines_passed_over() {
    let universe = sample();
    let mut jumps = JumpMap::new();
    let content =
        "# my bridges\n\n   \n12 Jita --> Amarr\n  # indented comment\n  3 HED-GP --> J123456  \n";
    assert_eq!(load_ansiblexes(content, &universe, &mut jumps), Ok(()));
    assert_eq!(jumps.exits(1), Some(&vec![(4, Jump::Ansiblex)]));
    assert_eq!(jumps.exits(4), Some(&vec![(1, Jump::Ansiblex)]));
    assert_eq!(jumps.exits(6), Some(&vec![(5, Jump::Ansiblex)]));
    assert_eq!(jumps.exits(5), Some(&vec![(6, Jump::Ansiblex)]));
}

#[test]
fn malformed_bridge_line_stops_loading_and_carries_the_line() {
    let universe = sample();
    let mut jumps = JumpMap::new();
    let bad = "  12 Jita -> Amarr ";
    let content = format!("1 Jita --> Perimeter\n{bad}\n2 Amarr --> Jita\n");
    assert_eq!(
        load_ansiblexes(&content, &universe, &mut jumps),
        Err(RouteError::ParseFailure { line: bad.to_string() })
    );
    assert_eq!(jumps.exits(1), Some(&vec![(2, Jump::Ansiblex)]));
    assert_eq!(jumps.exits(2), Some(&vec![(1, Jump::Ansiblex)]));
    assert_eq!(jumps.exits(4), None);
}

#[test]
fn links_join_the_gates_already_there() {
    let universe = sample();
    let mut jumps = JumpMap::new();
    load_stargates(&universe, &mut jumps);
    assert_eq!(load_ansiblexes("1 Jita --> Perimeter", &universe, &mut jumps), Ok(()));
    assert_eq!(load_wormholes("X Jita -&gt; Perimeter\ta\tb\tc", &universe, &mut jumps), Ok(()));
    assert_eq!(
        jumps.exits(1),
        Some(&vec![(2, Jump::Gate), (2, Jump::Ansiblex), (2, Jump::Wormhole)])
    );
}

#[test]
fn empty_lists_load_nothing() {
    let universe = sample();
    let mut jumps = JumpMap::new();
    assert_eq!(load_wormholes("", &universe, &mut jumps), Ok(()));
    assert_eq!(load_ansiblexes("", &universe, &mut jumps), Ok(()));
    assert!(jumps.sources().is_empty());
}
