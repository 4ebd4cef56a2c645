use sl_up::error::SmartLogError;
use sl_up::graph::{Item, ItemType};
use sl_up::parser::{SmartLogParser, Token};

const RAW_LINES: [&str; 15] = [
    "  @  \u{1b}[0;35m\u{1b}[0;93;1m1cee5d55e\u{1b}[0m\u{1b}[0;35m  Dec 08 at 09:46  royrothenberg  \u{1b}[0;36m#780 Closed\u{1b}[0m\u{1b}[0;35m \u{1b}[0;31m✗\u{1b}[0m",
    "  │  \u{1b}[0;35m[pr body update] update stack list without overwriting PR title and body\u{1b}[0m",
    "  │",
    "  o  \u{1b}[0;93;1mc3bd9e5fa\u{1b}[0m  Dec 08 at 09:46  royrothenberg  \u{1b}[0;38;2;141;148;158m#779 Unreviewed\u{1b}[0m \u{1b}[0;31m✗\u{1b}[0m",
    "╭─╯  [pr body update] fix reviewstack option breaking stack list detection",
    "│",
    "o  \u{1b}[0;33mba27d4d13\u{1b}[0m  Dec 07 at 22:20  \u{1b}[0;32mremote/main\u{1b}[0m",
    "╷",
    "╷ o  \u{1b}[0;93;1m2f85065e7\u{1b}[0m  Nov 28 at 11:49  royrothenberg  \u{1b}[0;36m#781 Closed\u{1b}[0m \u{1b}[0;32m✓\u{1b}[0m",
    "╭─╯  [isl] increase width of diff window in split stack edit panel",
    "│",
    "o  \u{1b}[0;33m0e069ab09\u{1b}[0m  Nov 21 at 13:16",
    "│",
    "~",
    "",
];

fn raw_lines() -> Vec<String> {
    RAW_LINES.iter().map(|x| x.to_string()).collect()
}

fn strings(lines: &[&str]) -> Vec<String> {
    lines.iter().map(|x| x.to_string()).collect()
}

#[test]
fn graph_items() {
    let items = SmartLogParser::parse(&raw_lines()).unwrap();
    assert!(items.len() == 12);
    assert_eq!(items[0].parsed_lines().len(), 2);
    assert_eq!(items[1].parsed_lines().len(), 1);
    let commit = if let ItemType::Commit(commit) = &items[0] {
        commit
    } else {
        panic!("Expected GraphCommit");
    };
    assert!(commit.selected);
}

#[test]
fn fixture_items_and_kinds() {
    let items = SmartLogParser::parse(&raw_lines()).unwrap();
    let kinds: Vec<bool> = items
        .iter()
        .map(|item| matches!(item, ItemType::Commit(_)))
        .collect();
    assert_eq!(
        kinds,
        vec![true, false, true, false, true, false, true, false, true, false, false, false]
    );
    let selected: Vec<usize> = items
        .iter()
        .enumerate()
        .filter(|(_, item)| matches!(item, ItemType::Commit(c) if c.selected))
        .map(|(i, _)| i)
        .collect();
    assert_eq!(selected, vec![0]);
    assert_eq!(items[4].parsed_lines().len(), 1);
    assert_eq!(items[6].parsed_lines().len(), 2);
    assert_eq!(items[8].parsed_lines().len(), 1);
}

#[test]
fn head_row_tokens() {
    let items = SmartLogParser::parse(&raw_lines()).unwrap();
    assert_eq!(
        items[0].parsed_lines()[0],
        strings(&[
            "  @  ",
            "\u{1b}[0;35m",
            "\u{1b}[0;93;1m",
            "1cee5d55e",
            "\u{1b}[0m",
            "\u{1b}[0;35m",
            "  Dec 08 at 09:46  royrothenberg  ",
            "\u{1b}[0;36m",
            "#780 Closed",
            "\u{1b}[0m",
            "\u{1b}[0;35m",
            " ",
            "\u{1b}[0;31m",
            "✗",
            "\u{1b}[0m",
        ])
    );
    assert_eq!(items[1].parsed_lines()[0], strings(&["  │", ""]));
    assert_eq!(items[10].parsed_lines()[0], strings(&["", "~"]));
    assert_eq!(items[11].parsed_lines()[0], Vec::<String>::new());
}

#[test]
fn parse_then_render_gives_back_the_rows() {
    let items = SmartLogParser::parse(&raw_lines()).unwrap();
    let rendered: Vec<String> = items.iter().flat_map(|item| item.to_string_vec()).collect();
    assert_eq!(rendered, raw_lines());
}

#[test]
fn message_row_without_commit_is_refused() {
    let lines = strings(&["  │  first words", "  @  \u{1b}[0;35m\u{1b}[0;93;1mabc\u{1b}[0m"]);
    assert_eq!(SmartLogParser::parse(&lines).err(), Some(SmartLogError::UnparsableLog));
    let after_glyph = strings(&["  o  \u{1b}[0;33mabc\u{1b}[0m", "│", "  │  some message"]);
    assert_eq!(SmartLogParser::parse(&after_glyph).err(), Some(SmartLogError::UnparsableLog));
}

#[test]
fn escape_that_does_not_read_back_is_refused() {
    let lines = strings(&["  @  \u{1b}[01;35mabc\u{1b}[0m"]);
    assert_eq!(SmartLogParser::parse(&lines).err(), Some(SmartLogError::UnparsableLog));
}

#[test]
fn message_rows_join_their_commit() {
    let lines = strings(&[
        "o  \u{1b}[0;33mabc\u{1b}[0m  date",
        "│  first message row",
        "│  second message row",
        "│",
    ]);
    let items = SmartLogParser::parse(&lines).unwrap();
    assert_eq!(items.len(), 2);
    assert_eq!(items[0].parsed_lines().len(), 3);
    assert_eq!(items[0].parsed_lines()[1], strings(&["│", "  first message row"]));
    assert!(matches!(&items[0], ItemType::Commit(c) if !c.selected));
}

#[test]
fn split_after_first_connector_glyph() {
    assert_eq!(
        SmartLogParser::split_graph_from_text("╭─╯  [x] y"),
        Some(("╭─╯", "  [x] y"))
    );
    assert_eq!(SmartLogParser::split_graph_from_text("abc d"), Some(("", "abc d")));
    assert_eq!(SmartLogParser::split_graph_from_text("  │"), Some(("  │", "")));
    assert_eq!(SmartLogParser::split_graph_from_text("╷ │ x"), Some(("╷", " │ x")));
}

#[test]
fn selection_coloring_is_an_escape_with_code_35() {
    let colored = vec![
        Token::Text("  @  ".to_string()),
        Token::Escape("\u{1b}[0;35;1m".to_string(), vec![0, 35, 1]),
    ];
    assert!(SmartLogParser::has_line_selection_coloring(&colored));
    let text_only = vec![Token::Text("35".to_string())];
    assert!(!SmartLogParser::has_line_selection_coloring(&text_only));
    let other = vec![Token::Escape("\u{1b}[0;33m".to_string(), vec![0, 33])];
    assert!(!SmartLogParser::has_line_selection_coloring(&other));
}

#[test]
fn tokens_written_back() {
    let line = vec![
        Token::Text("o ".to_string()),
        Token::Escape("\u{1b}[0;33m".to_string(), vec![0, 33]),
        Token::Text("abc".to_string()),
    ];
    assert_eq!(SmartLogParser::parsed_line_to_string(&line), "o \u{1b}[0;33mabc");
    assert_eq!(SmartLogParser::parsed_line_to_string(&[]), "");
}

#[test]
fn items_from_given_tokens() {
    let rows = vec![
        vec![
            Token::Text("o ".to_string()),
            Token::Escape("\u{1b}[0;33m".to_string(), vec![0, 33]),
            Token::Text("abc".to_string()),
        ],
        vec![Token::Text("│  message here".to_string())],
        vec![Token::Text("│".to_string())],
    ];
    let items = SmartLogParser::items_from_tokens(rows).unwrap();
    assert_eq!(items.len(), 2);
    assert!(matches!(&items[0], ItemType::Commit(c) if !c.selected));
    assert_eq!(items[0].parsed_lines()[1], strings(&["│", "  message here"]));
    assert_eq!(items[1].parsed_lines()[0], strings(&["│", ""]));
    let orphan = vec![vec![Token::Text("│  message here".to_string())]];
    assert_eq!(
        SmartLogParser::items_from_tokens(orphan).err(),
        Some(SmartLogError::UnparsableLog)
    );
    let highlighted_head = vec![vec![
        Token::Text("╷ @  ".to_string()),
        Token::Escape("\u{1b}[0;35m".to_string(), vec![0, 35]),
    ]];
    let items = SmartLogParser::items_from_tokens(highlighted_head).unwrap();
    assert!(matches!(&items[0], ItemType::Commit(c) if c.selected));
}
