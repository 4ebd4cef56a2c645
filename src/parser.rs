//! Reading the raw rows of a graph log into graph items.
//!
//! Each row is split into text and escape tokens by `ansi_parser`; a row that
//! does not read back as written is refused. A row whose only token is text
//! is cut just past its first connector glyph, so that the graph column and
//! the text beside it are looked at apart. Then each row is a commit head, a
//! message row of the commit above it, or a connector row of its own.
use vstd::prelude::*;
use vstd::string::{StrSliceExecFns, StringExecFns};
use ansi_parser::{AnsiParser, AnsiSequence, Output};
use crate::error::SmartLogError;
use crate::graph::{Commit, Glyph, Item, ItemType, ItemView};
use crate::text::{
    find_char, has_char, last_field, last_field_start, trim, trim_bounds,
};

verus! {

/// The graphics-mode code of the highlight that marks the selected commit.
pub const SELECTION_COLOR_CODE: u8 = 35;

/// A token of a row: literal text, or an escape sequence.
#[derive(Debug)]
pub enum Token {
    Text(String),
    /// The text of the escape, and its codes where it sets the graphics mode
    /// (none for any other escape).
    Escape(String, Vec<u8>),
}

pub enum TokenView {
    Text(Seq<char>),
    Escape(Seq<char>, Seq<u8>),
}

impl View for Token {
    type V = TokenView;

    open spec fn view(&self) -> TokenView {
        match self {
            Token::Text(t) => TokenView::Text(t@),
            Token::Escape(raw, codes) => TokenView::Escape(raw@, codes@),
        }
    }
}

pub open spec fn tokens_view(tokens: Seq<Token>) -> Seq<TokenView> {
    tokens.map_values(|t: Token| t@)
}

/// How `ansi_parser` splits a row: its text blocks and its escapes, the
/// latter each written back as the parser's `Display` writes it.
pub uninterp spec fn ansi_blocks(line: Seq<char>) -> Seq<TokenView>;

/// Relies on `AnsiParser::ansi_parse` of `ansi_parser`, and on the `Display`
/// of its `AnsiSequence` for the text of an escape: the blocks depend on the
/// row alone.
#[verifier::external_body]
fn ansi_parse_line(line: &str) -> (r: Vec<Token>)
    ensures
        tokens_view(r@) == ansi_blocks(line@),
{
    let mut tokens = Vec::new();
    for block in line.ansi_parse() {
        tokens.push(match block {
            Output::TextBlock(text) => Token::Text(text.to_string()),
            Output::Escape(seq) => {
                let raw = seq.to_string();
                match seq {
                    AnsiSequence::SetGraphicsMode(codes) => Token::Escape(raw, codes.to_vec()),
                    _ => Token::Escape(raw, Vec::new()),
                }
            },
        });
    }
    tokens
}

/// The text that a token stands for in its row.
pub open spec fn raw(t: TokenView) -> Seq<char> {
    match t {
        TokenView::Text(s) => s,
        TokenView::Escape(s, _) => s,
    }
}

/// The texts of the tokens of a row, one per token.
pub open spec fn token_texts(tokens: Seq<TokenView>) -> Seq<Seq<char>> {
    tokens.map_values(|t: TokenView| raw(t))
}

/// A row written back from its tokens.
pub open spec fn line_text(tokens: Seq<TokenView>) -> Seq<char> {
    token_texts(tokens).flatten()
}

/// Whether a token is an escape that sets the highlight color.
pub open spec fn is_selection_escape(t: TokenView) -> bool {
    t matches TokenView::Escape(_, codes) && codes.contains(SELECTION_COLOR_CODE)
}

/// Whether some escape of the row sets the highlight color.
pub open spec fn has_selection_color(tokens: Seq<TokenView>) -> bool {
    exists|i: int| 0 <= i < tokens.len() && is_selection_escape(#[trigger] tokens[i])
}

fn contains_code(codes: &Vec<u8>, code: u8) -> (r: bool)
    ensures
        r == codes@.contains(code),
{
    let n = codes.len();
    let mut k: usize = 0;
    while k < n
        invariant
            n == codes@.len(),
            k <= n,
            forall|q: int| 0 <= q < k ==> codes@[q] != code,
        decreases n - k,
    {
        if codes[k] == code {
            assert(codes@[k as int] == code);
            return true;
        }
        k = k + 1;
    }
    false
}

/// The glyphs that draw the graph's columns and after which the text of a
/// row can follow with no escape between them.
pub open spec fn is_connector_glyph(c: char) -> bool {
    c == '\u{2502}' || c == '\u{256f}' || c == '\u{2577}'
}

/// Whether `i` is the first position of a connector glyph in `s`.
pub open spec fn first_glyph_at(s: Seq<char>, i: int) -> bool {
    &&& 0 <= i < s.len()
    &&& is_connector_glyph(s[i])
    &&& forall|k: int| 0 <= k < i ==> !is_connector_glyph(#[trigger] s[k])
}

/// Where a text is cut in two: just past its first connector glyph, or at its
/// start where it has none.
pub open spec fn graph_split_point(s: Seq<char>) -> int {
    if exists|i: int| first_glyph_at(s, i) {
        (choose|i: int| first_glyph_at(s, i)) + 1
    } else {
        0
    }
}

/// The tokens of a row once a row made of one text token is cut in two at
/// its graph split point; any other row is kept as it is.
pub open spec fn pre_processed(tokens: Seq<TokenView>) -> Seq<TokenView> {
    if tokens.len() == 1 && tokens[0] is Text {
        let t = raw(tokens[0]);
        let p = graph_split_point(t);
        seq![TokenView::Text(t.take(p)), TokenView::Text(t.skip(p))]
    } else {
        tokens
    }
}

/// Whether a token is text with at least one character.
pub open spec fn is_nonempty_text(t: TokenView) -> bool {
    t matches TokenView::Text(s) && s.len() > 0
}

/// Whether `i` is the position of the first token of the row that is text
/// with at least one character.
pub open spec fn first_text_at(tokens: Seq<TokenView>, i: int) -> bool {
    &&& 0 <= i < tokens.len()
    &&& is_nonempty_text(tokens[i])
    &&& forall|j: int| 0 <= j < i ==> !is_nonempty_text(#[trigger] tokens[j])
}

/// The first text of the row with at least one character, trimmed.
pub open spec fn first_text(tokens: Seq<TokenView>) -> Option<Seq<char>> {
    if exists|i: int| first_text_at(tokens, i) {
        Some(trim(raw(tokens[choose|i: int| first_text_at(tokens, i)])))
    } else {
        None
    }
}

/// The graph column of a first text: the text itself, or its last field
/// where it is three characters with a space (a branch glyph beside the head
/// marker).
pub open spec fn head_column(t: Seq<char>) -> Seq<char> {
    if t.len() == 3 && has_char(t, ' ') {
        last_field(t)
    } else {
        t
    }
}

/// The marker of the checked-out commit, `@`, and that of any other, `o`.
pub open spec fn is_head_marker(t: Seq<char>) -> bool {
    t == seq!['@'] || t == seq!['o']
}

/// Whether a row is the head row of a commit.
pub open spec fn is_head_line(tokens: Seq<TokenView>) -> bool {
    match first_text(tokens) {
        Some(t) => is_head_marker(head_column(t)),
        None => false,
    }
}

/// The first position of a connector glyph in `text`, if it has one.
fn find_glyph(text: &str) -> (r: Option<usize>)
    ensures
        match r {
            Some(i) => first_glyph_at(text@, i as int),
            None => !exists|i: int| first_glyph_at(text@, i),
        },
{
    let n = text.unicode_len();
    let mut i: usize = 0;
    while i < n
        invariant
            n == text@.len(),
            i <= n,
            forall|k: int| 0 <= k < i ==> !is_connector_glyph(#[trigger] text@[k]),
        decreases n - i,
    {
        let c = text.get_char(i);
        if c == '\u{2502}' || c == '\u{256f}' || c == '\u{2577}' {
            return Some(i);
        }
        i = i + 1;
    }
    proof {
        if exists|j: int| first_glyph_at(text@, j) {
            let j = choose|j: int| first_glyph_at(text@, j);
            assert(!is_connector_glyph(text@[j]));
        }
    }
    None
}

/// Whether a row is a message row: not a head row, and its text, trimmed,
/// holds a space.
pub open spec fn is_message_line(tokens: Seq<TokenView>) -> bool {
    !is_head_line(tokens) && has_char(trim(line_text(tokens)), ' ')
}

/// The items once one more row is read: a head row opens a new commit,
/// selected where it carries the highlight color; a message row joins the
/// commit just above it, and there must be one; any other row is a glyph.
pub open spec fn add_row(items: Seq<ItemView>, tokens: Seq<TokenView>) -> Option<Seq<ItemView>> {
    let row = token_texts(tokens);
    if is_head_line(tokens) {
        Some(items.push(ItemView::Commit { lines: seq![row], selected: has_selection_color(tokens) }))
    } else if is_message_line(tokens) {
        if items.len() > 0 && items.last() is Commit {
            Some(items.update(items.len() - 1, items.last().with_line(row)))
        } else {
            None
        }
    } else {
        Some(items.push(ItemView::Glyph { lines: seq![row] }))
    }
}

/// The items that rows of tokens make, read in order.
pub open spec fn build_items(rows: Seq<Seq<TokenView>>) -> Option<Seq<ItemView>>
    decreases rows.len(),
{
    if rows.len() == 0 {
        Some(Seq::empty())
    } else {
        match build_items(rows.drop_last()) {
            Some(items) => add_row(items, rows.last()),
            None => None,
        }
    }
}

/// Whether the tokens of a row, written back, give the row.
pub open spec fn reads_back(line: Seq<char>) -> bool {
    line_text(ansi_blocks(line)) == line
}

/// The tokens that `ansi_parser` gives each row, once pre-processed.
pub open spec fn prepared_rows(lines: Seq<Seq<char>>) -> Seq<Seq<TokenView>> {
    lines.map_values(|l: Seq<char>| pre_processed(ansi_blocks(l)))
}

/// The items of a log; none where a row does not read back from its tokens
/// or a message row has no commit above it.
pub open spec fn parse_log(lines: Seq<Seq<char>>) -> Option<Seq<ItemView>> {
    if forall|i: int| 0 <= i < lines.len() ==> reads_back(#[trigger] lines[i]) {
        build_items(prepared_rows(lines))
    } else {
        None
    }
}

/// Given tokens of each row, once pre-processed.
pub open spec fn prepared_tokens(rows: Seq<Vec<Token>>) -> Seq<Seq<TokenView>> {
    rows.map_values(|r: Vec<Token>| pre_processed(tokens_view(r@)))
}

pub open spec fn strings_view(lines: Seq<String>) -> Seq<Seq<char>> {
    lines.map_values(|s: String| s@)
}

pub open spec fn items_view(items: Seq<ItemType>) -> Seq<ItemView> {
    items.map_values(|it: ItemType| it.item_view())
}

proof fn lemma_build_fails_on(rows: Seq<Seq<TokenView>>, i: int)
    requires
        0 <= i <= rows.len(),
        build_items(rows.take(i)) is None,
    ensures
        build_items(rows) is None,
    decreases rows.len() - i,
{
    if i < rows.len() {
        assert(rows.take(i + 1).drop_last() =~= rows.take(i));
        lemma_build_fails_on(rows, i + 1);
    } else {
        assert(rows.take(i) =~= rows);
    }
}

/// The texts of the tokens of a row.
fn token_strings(line: &Vec<Token>) -> (r: Vec<String>)
    ensures
        r.deep_view() == token_texts(tokens_view(line@)),
{
    let mut r: Vec<String> = Vec::new();
    let n = line.len();
    let mut i: usize = 0;
    while i < n
        invariant
            n == line@.len(),
            i <= n,
            r.deep_view() =~= token_texts(tokens_view(line@)).take(i as int),
        decreases n - i,
    {
        let ghost prev = r.deep_view();
        let text = match &line[i] {
            Token::Text(t) => t.clone(),
            Token::Escape(t, _) => t.clone(),
        };
        r.push(text);
        assert(r.deep_view() =~= prev.push(text@));
        i = i + 1;
    }
    r
}

pub struct SmartLogParser {}

impl SmartLogParser {
    /// A row written back from its tokens.
    pub fn parsed_line_to_string(line: &[Token]) -> (r: String)
        ensures
            r@ == line_text(tokens_view(line@)),
    {
        let ghost texts = token_texts(tokens_view(line@));
        let mut r = String::new();
        let n = line.len();
        let mut i: usize = 0;
        assert(texts.take(0) =~= Seq::<Seq<char>>::empty());
        while i < n
            invariant
                n == line@.len(),
                texts == token_texts(tokens_view(line@)),
                i <= n,
                r@ == texts.take(i as int).flatten(),
            decreases n - i,
        {
            assert(texts.take(i + 1) =~= texts.take(i as int).push(texts[i as int]));
            proof {
                texts.take(i as int).lemma_flatten_push(texts[i as int]);
            }
            match &line[i] {
                Token::Text(t) => r.append(t.as_str()),
                Token::Escape(t, _) => r.append(t.as_str()),
            }
            i = i + 1;
        }
        assert(texts.take(n as int) =~= texts);
        r
    }

    /// Whether some escape of the row sets the highlight color.
    pub fn has_line_selection_coloring(line: &[Token]) -> (r: bool)
        ensures
            r == has_selection_color(tokens_view(line@)),
    {
        let ghost toks = tokens_view(line@);
        let n = line.len();
        let mut i: usize = 0;
        while i < n
            invariant
                n == line@.len(),
                toks == tokens_view(line@),
                i <= n,
                forall|j: int| 0 <= j < i ==> !is_selection_escape(#[trigger] toks[j]),
            decreases n - i,
        {
            if let Token::Escape(_, codes) = &line[i] {
                if contains_code(codes, SELECTION_COLOR_CODE) {
                    assert(is_selection_escape(toks[i as int]));
                    return true;
                }
            }
            i = i + 1;
        }
        false
    }

    /// Cuts a text in two just past its first connector glyph; where it has
    /// none, the first part is empty.
    pub fn split_graph_from_text(text: &str) -> (r: Option<(&str, &str)>)
        ensures
            r matches Some((g, t)) && g@ == text@.take(graph_split_point(text@)) && t@
                == text@.skip(graph_split_point(text@)),
    {
        let n = text.unicode_len();
        let idx: usize = match find_glyph(text) {
            Some(i) => {
                proof {
                    let j = choose|j: int| first_glyph_at(text@, j);
                    if j < i {
                        assert(!is_connector_glyph(text@[j]));
                    } else if j > i {
                        assert(!is_connector_glyph(text@[i as int]));
                    }
                }
                i + 1
            },
            None => 0,
        };
        assert(text@.take(idx as int) == text@.subrange(0, idx as int));
        assert(text@.skip(idx as int) == text@.subrange(idx as int, n as int));
        Some((text.substring_char(0, idx), text.substring_char(idx, n)))
    }

    /// Cuts a row made of one text token in two at its graph split point.
    fn pre_process_line(line: &mut Vec<Token>)
        ensures
            tokens_view(final(line)@) == pre_processed(tokens_view(old(line)@)),
    {
        if line.len() == 1 {
            let mut parts: Option<(String, String)> = None;
            if let Token::Text(text) = &line[0] {
                let (graph, rest) = Self::split_graph_from_text(text.as_str()).unwrap();
                parts = Some((String::from_str(graph), String::from_str(rest)));
            }
            if let Some((graph, rest)) = parts {
                let mut split: Vec<Token> = Vec::new();
                split.push(Token::Text(graph));
                split.push(Token::Text(rest));
                assert(tokens_view(split@) =~= pre_processed(tokens_view(line@)));
                *line = split;
            } else {
                assert(tokens_view(line@) =~= pre_processed(tokens_view(line@)));
            }
        }
    }

    /// The first text of the row with at least one character, trimmed.
    fn get_first_text_block_contents(line: &[Token]) -> (r: Option<String>)
        ensures
            match r {
                Some(t) => first_text(tokens_view(line@)) == Some(t@),
                None => first_text(tokens_view(line@)) is None,
            },
    {
        let ghost toks = tokens_view(line@);
        let n = line.len();
        let mut i: usize = 0;
        while i < n
            invariant
                n == line@.len(),
                toks == tokens_view(line@),
                i <= n,
                forall|j: int| 0 <= j < i ==> !is_nonempty_text(#[trigger] toks[j]),
            decreases n - i,
        {
            if let Token::Text(text) = &line[i] {
                if text.as_str().unicode_len() > 0 {
                    proof {
                        assert(first_text_at(toks, i as int));
                        let j = choose|j: int| first_text_at(toks, j);
                        if j < i {
                            assert(!is_nonempty_text(toks[j]));
                        } else if j > i {
                            assert(!is_nonempty_text(toks[i as int]));
                        }
                    }
                    let (lo, hi) = trim_bounds(text.as_str());
                    return Some(String::from_str(text.as_str().substring_char(lo, hi)));
                }
            }
            i = i + 1;
        }
        proof {
            if exists|j: int| first_text_at(toks, j) {
                let j = choose|j: int| first_text_at(toks, j);
                assert(!is_nonempty_text(toks[j]));
            }
        }
        None
    }

    /// Whether a row is the head row of a commit.
    fn is_commit_line(line: &[Token]) -> (r: bool)
        ensures
            r == is_head_line(tokens_view(line@)),
    {
        match Self::get_first_text_block_contents(line) {
            None => false,
            Some(first) => {
                let text = first.as_str();
                let n = text.unicode_len();
                let column = if n == 3 && find_char(text, ' ').is_some() {
                    let j = last_field_start(text);
                    assert(first@.skip(j as int) == first@.subrange(j as int, 3));
                    text.substring_char(j, n)
                } else {
                    text
                };
                assert(column@ == head_column(first@));
                let r = column.unicode_len() == 1 && (column.get_char(0) == '@' || column.get_char(
                    0,
                ) == 'o');
                assert(r == is_head_marker(column@)) by {
                    if column@.len() == 1 {
                        assert(column@ =~= seq![column@[0]]);
                    }
                };
                r
            },
        }
    }

    /// Reads the rows of a log into its items.
    pub fn parse(raw_lines: &[String]) -> (r: Result<Vec<ItemType>, SmartLogError>)
        ensures
            match r {
                Ok(items) => parse_log(strings_view(raw_lines@)) == Some(items_view(items@)),
                Err(e) => parse_log(strings_view(raw_lines@)) is None && e
                    == SmartLogError::UnparsableLog,
            },
    {
        let ghost lines = strings_view(raw_lines@);
        let mut rows: Vec<Vec<Token>> = Vec::new();
        let n = raw_lines.len();
        let mut i: usize = 0;
        while i < n
            invariant
                n == raw_lines@.len(),
                lines == strings_view(raw_lines@),
                i <= n,
                rows@.len() == i,
                forall|j: int| 0 <= j < i ==> reads_back(#[trigger] lines[j]),
                forall|j: int| 0 <= j < i ==> tokens_view(#[trigger] rows@[j]@) == ansi_blocks(lines[j]),
            decreases n - i,
        {
            let line = ansi_parse_line(raw_lines[i].as_str());
            let written = Self::parsed_line_to_string(line.as_slice());
            if !(written == raw_lines[i]) {
                assert(!reads_back(lines[i as int]));
                return Err(SmartLogError::UnparsableLog);
            }
            rows.push(line);
            i = i + 1;
        }
        assert(prepared_tokens(rows@) =~= prepared_rows(lines));
        Self::items_from_tokens(rows)
    }

    /// Builds the items from the tokens of each row: each row is
    /// pre-processed, then read as a head row, a message row or a glyph row.
    pub fn items_from_tokens(rows: Vec<Vec<Token>>) -> (r: Result<Vec<ItemType>, SmartLogError>)
        ensures
            match r {
                Ok(items) => build_items(prepared_tokens(rows@)) == Some(items_view(items@)),
                Err(e) => build_items(prepared_tokens(rows@)) is None && e
                    == SmartLogError::UnparsableLog,
            },
    {
        let ghost prepared = prepared_tokens(rows@);
        let mut pending = rows;
        let mut items: Vec<ItemType> = Vec::new();
        let n = pending.len();
        let mut i: usize = 0;
        assert(prepared.take(0) =~= Seq::<Seq<TokenView>>::empty());
        assert(items_view(items@) =~= Seq::<ItemView>::empty());
        while i < n
            invariant
                prepared == prepared_tokens(rows@),
                n == pending@.len(),
                n == prepared.len(),
                i <= n,
                forall|j: int|
                    i <= j < n ==> pre_processed(tokens_view(#[trigger] pending@[j]@)) == prepared[j],
                build_items(prepared.take(i as int)) == Some(items_view(items@)),
            decreases n - i,
        {
            let ghost before = items_view(items@);
            Self::pre_process_line(&mut pending[i]);
            let line = &pending[i];
            let ghost toks = tokens_view(line@);
            assert(toks == prepared[i as int]);
            assert(prepared.take(i + 1).drop_last() =~= prepared.take(i as int));
            assert(prepared.take(i + 1).last() == toks);
            let row = token_strings(line);
            if Self::is_commit_line(line.as_slice()) {
                let selected = Self::has_line_selection_coloring(line.as_slice());
                let mut commit_rows: Vec<Vec<String>> = Vec::new();
                commit_rows.push(row);
                assert(commit_rows.deep_view() =~= seq![token_texts(toks)]);
                items.push(ItemType::Commit(Commit::new(commit_rows, selected)));
                assert(items_view(items@) =~= before.push(
                    ItemView::Commit { lines: seq![token_texts(toks)], selected },
                ));
            } else {
                let text = Self::parsed_line_to_string(line.as_slice());
                let (lo, hi) = trim_bounds(text.as_str());
                let trimmed = text.as_str().substring_char(lo, hi);
                if find_char(trimmed, ' ').is_some() {
                    let count = items.len();
                    let open_commit = count > 0 && match &items[count - 1] {
                        ItemType::Commit(_) => true,
                        ItemType::Glyph(_) => false,
                    };
                    if !open_commit {
                        proof {
                            lemma_build_fails_on(prepared, i + 1);
                        }
                        return Err(SmartLogError::UnparsableLog);
                    }
                    items[count - 1].add_parsed_line(row);
                    assert(items_view(items@) =~= before.update(
                        count - 1,
                        before.last().with_line(token_texts(toks)),
                    ));
                } else {
                    let mut glyph_rows: Vec<Vec<String>> = Vec::new();
                    glyph_rows.push(row);
                    assert(glyph_rows.deep_view() =~= seq![token_texts(toks)]);
                    items.push(ItemType::Glyph(Glyph::new(glyph_rows)));
                    assert(items_view(items@) =~= before.push(
                        ItemView::Glyph { lines: seq![token_texts(toks)] },
                    ));
                }
            }
            i = i + 1;
        }
        assert(prepared.take(n as int) =~= prepared);
        Ok(items)
    }
}

} // verus!
