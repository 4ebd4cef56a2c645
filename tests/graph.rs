use sl_up::graph::{Commit, Glyph, Item, ItemType};
use sl_up::parser::SmartLogParser;

const RAW_LINES: [&str; 15] = [
    "  @  \u{1b}[0;35m\u{1b}[0;93;1m1cee5d55e\u{1b}[0m\u{1b}[0;35m  Dec 08 at 09:46  royrothenberg  \u{1b}[0;36m#780 Closed\u{1b}[0m\u{1b}[0;35m \u{1b}[0;31m✗\u{1b}[0m",
    "  │  \u{1b}[0;35m[pr body update] update stack list without overwriting PR title and body\u{1b}[0m",
    "  │",
    "  o  \u{1b}[0;93;1mc3bd9e5fa\u{1b}[0m  Dec 08 at 09:46  royrothenberg  \u{1b}[0;38;2;141;148;158m#779 Unreviewed\u{1b}[0m \u{1b}[0;31m✗\u{1b}[0m",
    "╭─╯  [pr body update] fix reviewstack option breaking stack list detection",
    "│",
    "o  \u{1b}[0;33mba27d4d13\u{1b}[0m  Dec 07 at 22:20  \u{1b}[0;32mremote/main\u{1b}[0m",
    "╷",
    "╷ o  \u{1b}[0;93;1m2f85065e7\u{1b}[0m  Nov 28 at 11:49  royrothenberg  \u{1b}[0;36m#781 Closed\u{1b}[0m \u{1b}[0;32m✓\u{1b}[0m",
    "╭─╯  [isl] increase width of diff window in split stack edit panel",
    "│",
    "o  \u{1b}[0;33m0e069ab09\u{1b}[0m  Nov 21 at 13:16",
    "│",
    "~",
    "",
];

fn raw_lines() -> Vec<String> {
    RAW_LINES.iter().map(|x| x.to_string()).collect()
}

fn rows(lines: &[&[&str]]) -> Vec<Vec<String>> {
    lines
        .iter()
        .map(|line| line.iter().map(|t| t.to_string()).collect())
        .collect()
}

#[test]
fn test_commit() {
    let mut commit = Commit::new(vec![vec!["a".to_string()]], true);
    commit.add_parsed_line(vec!["b".to_string()]);
    assert_eq!(
        commit.lines,
        vec![vec!["a".to_string()], vec!["b".to_string()]]
    );
    assert!(commit.selected);
    commit.selected = false;
    assert!(!commit.selected);
}

#[test]
fn test_glyph() {
    let mut glyph = Glyph::new(vec![vec!["a".to_string()]]);
    glyph.add_parsed_line(vec!["b".to_string()]);
    assert_eq!(
        glyph.parsed_lines(),
        &vec![vec!["a".to_string()], vec!["b".to_string()]]
    );
}

#[test]
fn test_item_types() {
    let mut items: Vec<ItemType> = vec![
        Commit::new(vec![vec!["a".to_string()]], true).into(),
        Glyph::new(vec![vec!["a".to_string()]]).into(),
    ];

    for item in items.iter_mut() {
        item.add_parsed_line(vec!["b".to_string()]);

        match item {
            ItemType::Commit(commit) => {
                assert_eq!(
                    commit.parsed_lines(),
                    &vec![vec!["a".to_string()], vec!["b".to_string()]]
                );
                assert!(commit.selected);
                commit.selected = false;
                assert!(!commit.selected);
            }
            ItemType::Glyph(glyph) => {
                assert_eq!(
                    glyph.parsed_lines(),
                    &vec![vec!["a".to_string()], vec!["b".to_string()]]
                );
            }
        }
    }
}

#[test]
fn test_select() {
    let graph_items = &mut SmartLogParser::parse(&raw_lines()).unwrap();

    let commit = &mut graph_items[2];
    match commit {
        ItemType::Commit(commit) => {
            assert!(!commit.selected);
            assert_eq!(
                commit.parsed_lines()[0][4],
                "  Dec 08 at 09:46  royrothenberg  "
            );
            assert_eq!(
                commit.parsed_lines()[1][1],
                "  [pr body update] fix reviewstack option breaking stack list detection"
            );
            commit.select();
            assert!(commit.selected);
            assert_eq!(
                commit.parsed_lines()[0][4],
                "\u{1b}[0;35m", // This item was inserted by select()
            );
            assert_eq!(
                commit.parsed_lines()[1][1],
                "\u{1b}[0;35m", // This item was inserted by select()
            );
        }
        _ => panic!("Expected GraphCommit"),
    }
}

#[test]
fn test_deselect() {
    let graph_items = &mut SmartLogParser::parse(&raw_lines()).unwrap();

    let commit = &mut graph_items[0];
    match commit {
        ItemType::Commit(commit) => {
            assert!(commit.selected);
            assert!(commit.parsed_lines()[0].contains(&"\u{1b}[0;35m".to_string()));
            assert!(commit.parsed_lines()[1].contains(&"\u{1b}[0;35m".to_string()));
            commit.deselect();
            assert!(!commit.selected);
            assert!(!commit.parsed_lines()[0].contains(&"\u{1b}[0;35m".to_string()));
            assert!(!commit.parsed_lines()[1].contains(&"\u{1b}[0;35m".to_string()));
        }
        _ => panic!("Expected GraphCommit"),
    }
}

#[test]
fn test_hash() {
    let graph_items = &mut SmartLogParser::parse(&raw_lines()).unwrap();

    let local_commit = &mut graph_items[0];
    match local_commit {
        ItemType::Commit(commit) => {
            assert_eq!(commit.hash().unwrap(), "1cee5d55e");
        }
        _ => panic!("Expected GraphCommit"),
    }

    let remote_commit = &mut graph_items[4];
    match remote_commit {
        ItemType::Commit(commit) => {
            assert_eq!(commit.hash().unwrap(), "ba27d4d13");
        }
        _ => panic!("Expected GraphCommit"),
    }
}

#[test]
fn select_twice_is_select_once() {
    let mut once = Commit::new(rows(&[&["  o  ", "x", "y", "z", "meta"], &["  │  ", "msg"]]), false);
    let mut twice = Commit::new(rows(&[&["  o  ", "x", "y", "z", "meta"], &["  │  ", "msg"]]), false);
    once.select();
    twice.select();
    twice.select();
    assert_eq!(once.lines, twice.lines);
    assert_eq!(once.selected, twice.selected);
    once.deselect();
    twice.deselect();
    twice.deselect();
    assert_eq!(once.lines, twice.lines);
    assert!(!twice.selected);
}

#[test]
fn select_places_highlight_by_row_shape() {
    let mut commit = Commit::new(
        rows(&[&["a", "b", "c", "d", "e"], &["a", "b"], &["left right more"], &["solid"], &[]]),
        false,
    );
    commit.select();
    assert_eq!(
        commit.lines,
        rows(&[
            &["a", "b", "c", "d", "\u{1b}[0;35m", "e", "\u{1b}[m"],
            &["a", "\u{1b}[0;35m", "b", "\u{1b}[m"],
            &["left", "\u{1b}[0;35m", " ", "right more", "\u{1b}[m"],
            &["solid", "\u{1b}[0;35m", "\u{1b}[m"],
            &["\u{1b}[0;35m", "\u{1b}[m"],
        ])
    );
}

#[test]
fn select_then_deselect_restores_rows() {
    let graph_items = &mut SmartLogParser::parse(&raw_lines()).unwrap();
    for index in [2usize, 4, 6, 8] {
        if let ItemType::Commit(commit) = &mut graph_items[index] {
            let before = commit.lines.clone();
            commit.select();
            assert_ne!(commit.lines, before);
            commit.deselect();
            assert_eq!(commit.lines, before);
            assert!(!commit.selected);
        } else {
            panic!("Expected GraphCommit");
        }
    }
}

#[test]
fn deselect_keeps_the_rows_own_resets() {
    let mut commit = Commit::new(
        rows(&[&["  @  ", "\u{1b}[0;35m", "\u{1b}[0;93;1m", "abc", "\u{1b}[0m"]]),
        true,
    );
    commit.deselect();
    assert_eq!(commit.lines, rows(&[&["  @  ", "\u{1b}[0;93;1m", "abc", "\u{1b}[0m"]]));
}

#[test]
fn hash_needs_a_hash_color_and_a_token_after_it() {
    let plain = Commit::new(rows(&[&["  o  ", "abc", "  Dec 08"]]), false);
    assert_eq!(plain.hash(), Err(sl_up::error::SmartLogError::NoIdentifier));
    let cut = Commit::new(rows(&[&["  o  ", "\u{1b}[0;33m"]]), false);
    assert_eq!(cut.hash(), Err(sl_up::error::SmartLogError::NoIdentifier));
    let empty = Commit::new(Vec::new(), false);
    assert_eq!(empty.hash(), Err(sl_up::error::SmartLogError::NoIdentifier));
    let first = Commit::new(
        rows(&[&["o ", "\u{1b}[0;33m", "aaa", "\u{1b}[0;93;1m", "bbb"]]),
        false,
    );
    assert_eq!(first.hash(), Ok("aaa"));
}

#[test]
fn item_rows_render_joined() {
    let glyph = Glyph::new(rows(&[&["╭─╯", "  text"], &[]]));
    assert_eq!(glyph.to_string_vec(), vec!["╭─╯  text".to_string(), String::new()]);
}

#[test]
fn one_token_rows_render_the_same_after_select_and_deselect() {
    let given = rows(&[&["left right"], &["solid"], &[]]);
    let mut commit = Commit::new(given.clone(), false);
    let before = commit.to_string_vec();
    commit.select();
    commit.deselect();
    assert_eq!(commit.to_string_vec(), before);
    assert_eq!(commit.lines[1], given[1]);
    assert_eq!(commit.lines[2], given[2]);
    assert_eq!(commit.lines[0], vec!["left".to_string(), " ".to_string(), "right".to_string()]);
}
