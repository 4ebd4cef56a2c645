//! The items of a graph log: commits, which can be selected, and glyphs, the
//! connector rows drawn between them.
//!
//! Each row of an item is kept as the texts of its tokens, in order, so that
//! joining them gives back the row as it was captured. Selecting a commit
//! adds a highlight to each of its rows; deselecting takes it away again.
use vstd::prelude::*;
use vstd::string::StringExecFns;
use crate::error::SmartLogError;
use crate::text::{contains_seq, find_char, first_at, has_char};

verus! {

/// `ESC [ 0 ; 3 5 m`: the escape that opens the highlight of a selected commit.
pub open spec fn selection_start() -> Seq<char> {
    seq!['\u{1b}', '[', '0', ';', '3', '5', 'm']
}

/// `ESC [ m`: the escape that closes the highlight. It resets the colors as the
/// `ESC [ 0 m` of the captured rows does, and differs from it in text, so that
/// removing a highlight never removes one of the row's own resets.
pub open spec fn selection_stop() -> Seq<char> {
    seq!['\u{1b}', '[', 'm']
}

/// `ESC [ 0 ; 9 3 ; 1 m`: the color of the hash of a local commit.
pub open spec fn local_hash_color() -> Seq<char> {
    seq!['\u{1b}', '[', '0', ';', '9', '3', ';', '1', 'm']
}

/// `ESC [ 0 ; 3 3 m`: the color of the hash of a remote commit.
pub open spec fn remote_hash_color() -> Seq<char> {
    seq!['\u{1b}', '[', '0', ';', '3', '3', 'm']
}

/// A row of an item, rendered: the texts of its tokens joined.
pub open spec fn render_row(row: Seq<Seq<char>>) -> Seq<char> {
    row.flatten()
}

/// The rows of an item, rendered.
pub open spec fn render_rows(rows: Seq<Seq<Seq<char>>>) -> Seq<Seq<char>> {
    rows.map_values(|row: Seq<Seq<char>>| render_row(row))
}

/// Whether a token is one of the two escapes that a highlight adds.
pub open spec fn is_highlight_token(t: Seq<char>) -> bool {
    t == selection_start() || t == selection_stop()
}

/// Whether a token is kept when a highlight is removed.
pub open spec fn is_plain_token(t: Seq<char>) -> bool {
    !is_highlight_token(t)
}

/// A row of a single token, with the highlight inserted: the token is cut at
/// its first space, which stays a token of its own after the opening escape.
/// A token without a space is kept whole before the opening escape.
pub open spec fn split_highlighted(t: Seq<char>) -> Seq<Seq<char>> {
    if has_char(t, ' ') {
        let p = choose|p: int| first_at(t, ' ', p);
        seq![t.take(p), selection_start(), seq![' '], t.skip(p + 1)]
    } else {
        seq![t, selection_start()]
    }
}

/// A row with the highlight added. Past the fourth token where the row is
/// longer than four tokens, so that the graph column, the hash and its colors
/// stay as they are; past the first token where it has two to four; and a
/// row of one token is split as `split_highlighted` says. The closing escape
/// ends the row.
pub open spec fn highlighted(row: Seq<Seq<char>>) -> Seq<Seq<char>> {
    if row.len() > 4 {
        row.insert(4, selection_start()).push(selection_stop())
    } else if row.len() > 1 {
        row.insert(1, selection_start()).push(selection_stop())
    } else if row.len() == 1 {
        split_highlighted(row[0]).push(selection_stop())
    } else {
        seq![selection_start(), selection_stop()]
    }
}

/// A row with every highlight escape taken out.
pub open spec fn unhighlighted(row: Seq<Seq<char>>) -> Seq<Seq<char>> {
    row.filter(|t: Seq<char>| is_plain_token(t))
}

/// Whether a token is one of the two hash colors.
pub open spec fn is_hash_color(t: Seq<char>) -> bool {
    t == local_hash_color() || t == remote_hash_color()
}

/// Whether `k` is the first position of a hash color in `row`.
pub open spec fn first_hash_color(row: Seq<Seq<char>>, k: int) -> bool {
    &&& 0 <= k < row.len()
    &&& is_hash_color(row[k])
    &&& forall|j: int| 0 <= j < k ==> !is_hash_color(#[trigger] row[j])
}

/// The hash of a commit with these rows: the token right after the first hash
/// color of its first row, if there is such a token.
pub open spec fn identifier(rows: Seq<Seq<Seq<char>>>) -> Option<Seq<char>> {
    if rows.len() > 0 && exists|k: int| first_hash_color(rows[0], k) {
        let k = choose|k: int| first_hash_color(rows[0], k);
        if k + 1 < rows[0].len() {
            Some(rows[0][k + 1])
        } else {
            None
        }
    } else {
        None
    }
}

/// What a graph item is, in the terms of its rows of token texts.
pub enum ItemView {
    Commit { lines: Seq<Seq<Seq<char>>>, selected: bool },
    Glyph { lines: Seq<Seq<Seq<char>>> },
}

impl ItemView {
    pub open spec fn lines(self) -> Seq<Seq<Seq<char>>> {
        match self {
            ItemView::Commit { lines, .. } => lines,
            ItemView::Glyph { lines } => lines,
        }
    }

    /// The same item with one more row at its end.
    pub open spec fn with_line(self, row: Seq<Seq<char>>) -> ItemView {
        match self {
            ItemView::Commit { lines, selected } => ItemView::Commit {
                lines: lines.push(row),
                selected,
            },
            ItemView::Glyph { lines } => ItemView::Glyph { lines: lines.push(row) },
        }
    }

    pub open spec fn is_selected(self) -> bool {
        self matches ItemView::Commit { selected, .. } && selected
    }

    /// The item once selected: a commit not yet selected gets the highlight on
    /// every row; anything else stays as it is.
    pub open spec fn selected(self) -> ItemView {
        match self {
            ItemView::Commit { lines, selected } => if selected {
                self
            } else {
                ItemView::Commit {
                    lines: lines.map_values(|row: Seq<Seq<char>>| highlighted(row)),
                    selected: true,
                }
            },
            ItemView::Glyph { .. } => self,
        }
    }

    /// The item once deselected: a selected commit loses every highlight
    /// escape of every row; anything else stays as it is.
    pub open spec fn deselected(self) -> ItemView {
        match self {
            ItemView::Commit { lines, selected } => if selected {
                ItemView::Commit {
                    lines: lines.map_values(|row: Seq<Seq<char>>| unhighlighted(row)),
                    selected: false,
                }
            } else {
                self
            },
            ItemView::Glyph { .. } => self,
        }
    }
}

/// A graph item for a commit: usually a metadata row and a message row. It can
/// be selected and deselected.
#[derive(Debug)]
pub struct Commit {
    pub lines: Vec<Vec<String>>,
    pub selected: bool,
}

/// A graph item for connector glyphs, drawn between commits; never selected.
#[derive(Debug)]
pub struct Glyph {
    pub lines: Vec<Vec<String>>,
}

impl Commit {
    /// Adds the highlight to one row, as `highlighted` says.
    fn add_selection_color(line: &mut Vec<String>)
        ensures
            final(line).deep_view() == highlighted(old(line).deep_view()),
    {
        let ghost before = line.deep_view();
        let n = line.len();
        if n > 4 {
            line.insert(4, Self::selection_formatter());
        } else if n > 1 {
            line.insert(1, Self::selection_formatter());
        } else if n == 1 {
            let text = line.pop().unwrap();
            assert(text@ == before[0]);
            let len = text.as_str().unicode_len();
            match find_char(text.as_str(), ' ') {
                Some(p) => {
                    let head = String::from_str(text.as_str().substring_char(0, p));
                    let tail = String::from_str(text.as_str().substring_char(p + 1, len));
                    line.push(head);
                    line.push(Self::selection_formatter());
                    proof {
                        reveal_strlit(" ");
                    }
                    line.push(String::from_str(" "));
                    line.push(tail);
                    proof {
                        let q = choose|q: int| first_at(text@, ' ', q);
                        crate::text::lemma_first_at_unique(text@, ' ', p as int, q);
                        assert(" "@ =~= seq![' ']);
                        assert(line.deep_view() =~= split_highlighted(before[0]));
                    }
                },
                None => {
                    line.push(text);
                    line.push(Self::selection_formatter());
                    assert(line.deep_view() =~= split_highlighted(before[0]));
                },
            }
        } else {
            line.push(Self::selection_formatter());
        }
        line.push(Self::stop_formatter());
        assert(line.deep_view() =~= highlighted(before));
    }

    /// Takes every highlight escape out of one row, as `unhighlighted` says.
    fn remove_selection_color(line: &mut Vec<String>)
        ensures
            final(line).deep_view() == unhighlighted(old(line).deep_view()),
    {
        let ghost before = line.deep_view();
        let start = Self::selection_formatter();
        let stop = Self::stop_formatter();
        let mut kept: Vec<String> = Vec::new();
        let n = line.len();
        let mut i: usize = 0;
        assert(before.take(0) =~= Seq::<Seq<char>>::empty());
        proof {
            lemma_unhighlighted_empty();
        }
        while i < n
            invariant
                n == line@.len(),
                before == line.deep_view(),
                start@ == selection_start(),
                stop@ == selection_stop(),
                i <= n,
                kept.deep_view() == unhighlighted(before.take(i as int)),
            decreases n - i,
        {
            let ghost prev = kept.deep_view();
            assert(before.take(i + 1) =~= before.take(i as int).push(before[i as int]));
            proof {
                lemma_unhighlighted_push(before.take(i as int), before[i as int]);
            }
            if !(line[i] == start || line[i] == stop) {
                kept.push(line[i].clone());
                assert(kept.deep_view() =~= prev.push(before[i as int]));
            }
            i = i + 1;
        }
        assert(before.take(n as int) =~= before);
        *line = kept;
    }

    fn selection_formatter() -> (r: String)
        ensures
            r@ == selection_start(),
    {
        proof {
            reveal_strlit("\u{1b}[0;35m");
        }
        let r = String::from_str("\u{1b}[0;35m");
        assert(r@ =~= selection_start());
        r
    }

    fn stop_formatter() -> (r: String)
        ensures
            r@ == selection_stop(),
    {
        proof {
            reveal_strlit("\u{1b}[m");
        }
        let r = String::from_str("\u{1b}[m");
        assert(r@ =~= selection_stop());
        r
    }

    /// The texts of the tokens of each row.
    pub open spec fn rows(&self) -> Seq<Seq<Seq<char>>> {
        self.lines.deep_view()
    }

    pub fn new(parsed_lines: Vec<Vec<String>>, selected: bool) -> (r: Self)
        ensures
            r.rows() == parsed_lines.deep_view(),
            r.selected == selected,
    {
        Self { lines: parsed_lines, selected }
    }

    /// Selects this commit: no change where it is selected already; else every
    /// row gets the highlight.
    pub fn select(&mut self)
        ensures
            final(self).item_view() == old(self).item_view().selected(),
    {
        if self.selected {
            return;
        }
        self.selected = true;
        let n = self.lines.len();
        let mut j: usize = 0;
        while j < n
            invariant
                !old(self).selected,
                self.selected,
                n == self.lines@.len(),
                n == old(self).rows().len(),
                j <= n,
                forall|k: int| 0 <= k < j ==> #[trigger] self.rows()[k] == highlighted(old(self).rows()[k]),
                forall|k: int| j <= k < n ==> #[trigger] self.rows()[k] == old(self).rows()[k],
            decreases n - j,
        {
            let ghost prev = self.rows();
            Self::add_selection_color(&mut self.lines[j]);
            assert(self.rows() =~= prev.update(j as int, highlighted(prev[j as int])));
            j = j + 1;
        }
        assert(self.rows() =~= old(self).rows().map_values(|row: Seq<Seq<char>>| highlighted(row)));
    }

    /// Deselects this commit: no change where it is not selected; else every
    /// highlight escape is taken out of every row.
    pub fn deselect(&mut self)
        ensures
            final(self).item_view() == old(self).item_view().deselected(),
    {
        if !self.selected {
            return;
        }
        self.selected = false;
        let n = self.lines.len();
        let mut j: usize = 0;
        while j < n
            invariant
                old(self).selected,
                !self.selected,
                n == self.lines@.len(),
                n == old(self).rows().len(),
                j <= n,
                forall|k: int| 0 <= k < j ==> #[trigger] self.rows()[k] == unhighlighted(old(self).rows()[k]),
                forall|k: int| j <= k < n ==> #[trigger] self.rows()[k] == old(self).rows()[k],
            decreases n - j,
        {
            let ghost prev = self.rows();
            Self::remove_selection_color(&mut self.lines[j]);
            assert(self.rows() =~= prev.update(j as int, unhighlighted(prev[j as int])));
            j = j + 1;
        }
        assert(self.rows() =~= old(self).rows().map_values(|row: Seq<Seq<char>>| unhighlighted(row)));
    }
}

impl Glyph {
    /// The texts of the tokens of each row.
    pub open spec fn rows(&self) -> Seq<Seq<Seq<char>>> {
        self.lines.deep_view()
    }

    pub fn new(parsed_lines: Vec<Vec<String>>) -> (r: Self)
        ensures
            r.rows() == parsed_lines.deep_view(),
    {
        Self { lines: parsed_lines }
    }
}

fn local_hash_formatter() -> (r: String)
    ensures
        r@ == local_hash_color(),
{
    proof {
        reveal_strlit("\u{1b}[0;93;1m");
    }
    let r = String::from_str("\u{1b}[0;93;1m");
    assert(r@ =~= local_hash_color());
    r
}

fn remote_hash_formatter() -> (r: String)
    ensures
        r@ == remote_hash_color(),
{
    proof {
        reveal_strlit("\u{1b}[0;33m");
    }
    let r = String::from_str("\u{1b}[0;33m");
    assert(r@ =~= remote_hash_color());
    r
}

/// Joins the texts of the tokens of one row.
pub fn join_tokens(line: &Vec<String>) -> (r: String)
    ensures
        r@ == render_row(line.deep_view()),
{
    let ghost tokens = line.deep_view();
    let mut r = String::new();
    let n = line.len();
    let mut i: usize = 0;
    assert(tokens.take(0) =~= Seq::<Seq<char>>::empty());
    while i < n
        invariant
            n == tokens.len(),
            tokens == line.deep_view(),
            i <= n,
            r@ == tokens.take(i as int).flatten(),
        decreases n - i,
    {
        assert(tokens.take(i + 1) =~= tokens.take(i as int).push(tokens[i as int]));
        proof {
            tokens.take(i as int).lemma_flatten_push(tokens[i as int]);
        }
        r.append(line[i].as_str());
        i = i + 1;
    }
    assert(tokens.take(n as int) =~= tokens);
    r
}

/// Renders each row of an item.
fn render_lines(lines: &Vec<Vec<String>>) -> (r: Vec<String>)
    ensures
        r.deep_view() == render_rows(lines.deep_view()),
{
    let mut r: Vec<String> = Vec::new();
    let n = lines.len();
    let mut i: usize = 0;
    while i < n
        invariant
            n == lines@.len(),
            i <= n,
            r.deep_view() =~= render_rows(lines.deep_view()).take(i as int),
        decreases n - i,
    {
        let ghost prev = r.deep_view();
        let row = join_tokens(&lines[i]);
        r.push(row);
        assert(r.deep_view() =~= prev.push(row@));
        i = i + 1;
    }
    r
}

impl Commit {
    /// The hash of this commit, to be handed to a command such as `goto`: the
    /// token right after the first hash color of its first row.
    pub fn hash(&self) -> (r: Result<&str, SmartLogError>)
        ensures
            match r {
                Ok(h) => identifier(self.rows()) == Some(h@),
                Err(e) => identifier(self.rows()) is None && e == SmartLogError::NoIdentifier,
            },
    {
        if self.lines.len() == 0 {
            return Err(SmartLogError::NoIdentifier);
        }
        let first_line = &self.lines[0];
        let ghost row = self.rows()[0];
        assert(first_line.deep_view() == row);
        let local = local_hash_formatter();
        let remote = remote_hash_formatter();
        let n = first_line.len();
        let mut i: usize = 0;
        while i < n
            invariant
                n == row.len(),
                row == first_line.deep_view(),
                row == self.rows()[0],
                self.rows().len() > 0,
                local@ == local_hash_color(),
                remote@ == remote_hash_color(),
                i <= n,
                forall|j: int| 0 <= j < i ==> !is_hash_color(#[trigger] row[j]),
            decreases n - i,
        {
            if first_line[i] == local || first_line[i] == remote {
                proof {
                    assert(first_hash_color(row, i as int));
                    let k = choose|k: int| first_hash_color(row, k);
                    if k < i {
                        assert(!is_hash_color(row[k]));
                    } else if k > i {
                        assert(!is_hash_color(row[i as int]));
                    }
                }
                if i + 1 < n {
                    return Ok(first_line[i + 1].as_str());
                } else {
                    return Err(SmartLogError::NoIdentifier);
                }
            }
            i = i + 1;
        }
        Err(SmartLogError::NoIdentifier)
    }
}

/// What every graph item offers: its rows, a way to add a row, and its rows
/// rendered.
pub trait Item {
    spec fn item_view(&self) -> ItemView;

    fn parsed_lines(&self) -> (r: &Vec<Vec<String>>)
        ensures
            r.deep_view() == self.item_view().lines(),
    ;

    fn add_parsed_line(&mut self, parsed_line: Vec<String>)
        ensures
            final(self).item_view() == old(self).item_view().with_line(parsed_line.deep_view()),
    ;

    fn to_string_vec(&self) -> (r: Vec<String>)
        ensures
            r.deep_view() == render_rows(self.item_view().lines()),
    ;
}

impl Item for Commit {
    open spec fn item_view(&self) -> ItemView {
        ItemView::Commit { lines: self.rows(), selected: self.selected }
    }

    fn parsed_lines(&self) -> (r: &Vec<Vec<String>>) {
        &self.lines
    }

    fn add_parsed_line(&mut self, parsed_line: Vec<String>) {
        self.lines.push(parsed_line);
        assert(self.rows() =~= old(self).rows().push(parsed_line.deep_view()));
    }

    fn to_string_vec(&self) -> (r: Vec<String>) {
        render_lines(&self.lines)
    }
}

impl Item for Glyph {
    open spec fn item_view(&self) -> ItemView {
        ItemView::Glyph { lines: self.rows() }
    }

    fn parsed_lines(&self) -> (r: &Vec<Vec<String>>) {
        &self.lines
    }

    fn add_parsed_line(&mut self, parsed_line: Vec<String>) {
        self.lines.push(parsed_line);
        assert(self.rows() =~= old(self).rows().push(parsed_line.deep_view()));
    }

    fn to_string_vec(&self) -> (r: Vec<String>) {
        render_lines(&self.lines)
    }
}

/// A graph item: a commit or a glyph.
#[derive(Debug)]
pub enum ItemType {
    Commit(Commit),
    Glyph(Glyph),
}

impl Item for ItemType {
    open spec fn item_view(&self) -> ItemView {
        match self {
            ItemType::Commit(c) => c.item_view(),
            ItemType::Glyph(g) => g.item_view(),
        }
    }

    fn parsed_lines(&self) -> (r: &Vec<Vec<String>>) {
        match self {
            ItemType::Commit(c) => c.parsed_lines(),
            ItemType::Glyph(g) => g.parsed_lines(),
        }
    }

    fn add_parsed_line(&mut self, parsed_line: Vec<String>) {
        match self {
            ItemType::Commit(c) => c.add_parsed_line(parsed_line),
            ItemType::Glyph(g) => g.add_parsed_line(parsed_line),
        }
    }

    fn to_string_vec(&self) -> (r: Vec<String>) {
        match self {
            ItemType::Commit(c) => c.to_string_vec(),
            ItemType::Glyph(g) => g.to_string_vec(),
        }
    }
}

impl From<Commit> for ItemType {
    fn from(c: Commit) -> (r: ItemType) {
        ItemType::Commit(c)
    }
}

impl vstd::std_specs::convert::FromSpecImpl<Commit> for ItemType {
    open spec fn obeys_from_spec() -> bool {
        true
    }

    open spec fn from_spec(c: Commit) -> ItemType {
        ItemType::Commit(c)
    }
}

impl From<Glyph> for ItemType {
    fn from(g: Glyph) -> (r: ItemType) {
        ItemType::Glyph(g)
    }
}

impl vstd::std_specs::convert::FromSpecImpl<Glyph> for ItemType {
    open spec fn obeys_from_spec() -> bool {
        true
    }

    open spec fn from_spec(g: Glyph) -> ItemType {
        ItemType::Glyph(g)
    }
}

proof fn lemma_unhighlighted_push(row: Seq<Seq<char>>, t: Seq<char>)
    ensures
        unhighlighted(row.push(t)) == if is_plain_token(t) {
            unhighlighted(row).push(t)
        } else {
            unhighlighted(row)
        },
{
    reveal(Seq::filter);
    assert(row.push(t).drop_last() =~= row);
}

proof fn lemma_unhighlighted_empty()
    ensures
        unhighlighted(Seq::<Seq<char>>::empty()) == Seq::<Seq<char>>::empty(),
{
    reveal(Seq::filter);
}

proof fn lemma_unhighlighted_concat(a: Seq<Seq<char>>, b: Seq<Seq<char>>)
    ensures
        unhighlighted(a + b) == unhighlighted(a) + unhighlighted(b),
    decreases b.len(),
{
    if b.len() == 0 {
        assert(a + b =~= a);
        lemma_unhighlighted_empty();
        assert(unhighlighted(a) + unhighlighted(b) =~= unhighlighted(a));
    } else {
        let b0 = b.drop_last();
        let x = b.last();
        assert(a + b =~= (a + b0).push(x));
        assert(b =~= b0.push(x));
        lemma_unhighlighted_concat(a, b0);
        lemma_unhighlighted_push(a + b0, x);
        lemma_unhighlighted_push(b0, x);
        assert((unhighlighted(a) + unhighlighted(b0)).push(x) =~= unhighlighted(a) + unhighlighted(
            b0,
        ).push(x));
    }
}

proof fn lemma_unhighlighted_plain(row: Seq<Seq<char>>)
    requires
        forall|i: int| 0 <= i < row.len() ==> is_plain_token(#[trigger] row[i]),
    ensures
        unhighlighted(row) == row,
    decreases row.len(),
{
    if row.len() == 0 {
        lemma_unhighlighted_empty();
    } else {
        let r0 = row.drop_last();
        assert(row =~= r0.push(row.last()));
        assert forall|i: int| 0 <= i < r0.len() implies is_plain_token(#[trigger] r0[i]) by {
            assert(r0[i] == row[i]);
        }
        lemma_unhighlighted_plain(r0);
        lemma_unhighlighted_push(r0, row.last());
    }
}

/// The rows of an item before selection, as far as the exact undoing of a
/// highlight goes: no token is a highlight escape, and no row is a single
/// token with a space in it (selection cuts such a token in three).
pub open spec fn restorable_rows(rows: Seq<Seq<Seq<char>>>) -> bool {
    forall|r: int, k: int|
        0 <= r < rows.len() ==> {
            &&& (0 <= k < rows[r].len() ==> is_plain_token(#[trigger] rows[r][k]))
            &&& !(rows[r].len() == 1 && has_char(rows[r][0], ' '))
        }
}

proof fn lemma_row_round_trip(row: Seq<Seq<char>>)
    requires
        forall|k: int| 0 <= k < row.len() ==> is_plain_token(#[trigger] row[k]),
        !(row.len() == 1 && has_char(row[0], ' ')),
    ensures
        unhighlighted(highlighted(row)) == row,
{
    if row.len() > 4 || row.len() > 1 {
        let p: int = if row.len() > 4 { 4 } else { 1 };
        let a = row.take(p);
        let b = row.skip(p);
        assert(highlighted(row) =~= a + seq![selection_start()] + b + seq![selection_stop()]);
        assert forall|k: int| 0 <= k < a.len() implies is_plain_token(#[trigger] a[k]) by {
            assert(a[k] == row[k]);
        }
        assert forall|k: int| 0 <= k < b.len() implies is_plain_token(#[trigger] b[k]) by {
            assert(b[k] == row[k + p]);
        }
        lemma_unhighlighted_plain(a);
        lemma_unhighlighted_plain(b);
        lemma_unhighlighted_concat(a + seq![selection_start()] + b, seq![selection_stop()]);
        lemma_unhighlighted_concat(a + seq![selection_start()], b);
        lemma_unhighlighted_concat(a, seq![selection_start()]);
        lemma_unhighlighted_push(Seq::<Seq<char>>::empty(), selection_start());
        lemma_unhighlighted_push(Seq::<Seq<char>>::empty(), selection_stop());
        lemma_unhighlighted_empty();
        assert(seq![selection_start()] =~= Seq::<Seq<char>>::empty().push(selection_start()));
        assert(seq![selection_stop()] =~= Seq::<Seq<char>>::empty().push(selection_stop()));
        assert(a + b =~= row);
        assert(a + Seq::<Seq<char>>::empty() =~= a);
        assert(a + b + Seq::<Seq<char>>::empty() =~= a + b);
    } else if row.len() == 1 {
        assert(highlighted(row) =~= seq![row[0], selection_start(), selection_stop()]);
        lemma_unhighlighted_empty();
        lemma_unhighlighted_push(Seq::<Seq<char>>::empty(), row[0]);
        assert(seq![row[0]] =~= Seq::<Seq<char>>::empty().push(row[0]));
        assert(seq![row[0], selection_start()] =~= seq![row[0]].push(selection_start()));
        lemma_unhighlighted_push(seq![row[0]], selection_start());
        assert(highlighted(row) =~= seq![row[0], selection_start()].push(selection_stop()));
        lemma_unhighlighted_push(seq![row[0], selection_start()], selection_stop());
        assert(row =~= seq![row[0]]);
    } else {
        lemma_unhighlighted_empty();
        lemma_unhighlighted_push(Seq::<Seq<char>>::empty(), selection_start());
        assert(seq![selection_start()] =~= Seq::<Seq<char>>::empty().push(selection_start()));
        assert(highlighted(row) =~= seq![selection_start()].push(selection_stop()));
        lemma_unhighlighted_push(seq![selection_start()], selection_stop());
        assert(row =~= Seq::<Seq<char>>::empty());
    }
}

/// Selecting an item twice leaves it as selecting it once does, and
/// deselecting it twice leaves it as deselecting it once does.
pub proof fn lemma_select_idempotent(v: ItemView)
    ensures
        v.selected().selected() == v.selected(),
        v.deselected().deselected() == v.deselected(),
{
}

/// Selecting a commit that is not selected and then deselecting it gives back
/// its rows token for token, where no token is a highlight escape and no row
/// is a single token with a space in it.
pub proof fn lemma_select_deselect_restores(v: ItemView)
    requires
        v is Commit,
        !v.is_selected(),
        restorable_rows(v.lines()),
    ensures
        v.selected().deselected() == v,
{
    let rows = v.lines();
    let back = v.selected().deselected().lines();
    assert forall|r: int| 0 <= r < rows.len() implies #[trigger] back[r] == rows[r] by {
        assert forall|k: int| 0 <= k < rows[r].len() implies is_plain_token(
            #[trigger] rows[r][k],
        ) by {
            assert(restorable_rows(rows));
        }
        assert(!(rows[r].len() == 1 && has_char(rows[r][0], ' ')));
        lemma_row_round_trip(rows[r]);
    }
    assert(back =~= rows);
}

/// The rows of an item before selection, as far as the undoing of a highlight
/// in the rendered rows goes: no token holds a highlight escape in its text.
pub open spec fn unmarked_rows(rows: Seq<Seq<Seq<char>>>) -> bool {
    forall|r: int, k: int|
        0 <= r < rows.len() && 0 <= k < rows[r].len() ==> {
            &&& !contains_seq(#[trigger] rows[r][k], selection_start())
            &&& !contains_seq(rows[r][k], selection_stop())
        }
}

proof fn lemma_unmarked_is_plain(t: Seq<char>)
    requires
        !contains_seq(t, selection_start()),
        !contains_seq(t, selection_stop()),
    ensures
        is_plain_token(t),
{
    let s = selection_start();
    let e = selection_stop();
    if t == s {
        let z: int = 0;
        assert(t.subrange(z, z + s.len()) =~= s);
    }
    if t == e {
        let z: int = 0;
        assert(t.subrange(z, z + e.len()) =~= e);
    }
}

proof fn lemma_flatten_three(a: Seq<char>, b: Seq<char>, c: Seq<char>)
    ensures
        seq![a, b, c].flatten() == a + b + c,
{
    let e = Seq::<Seq<char>>::empty();
    e.lemma_flatten_push(a);
    assert(seq![a] =~= e.push(a));
    seq![a].lemma_flatten_push(b);
    assert(seq![a, b] =~= seq![a].push(b));
    seq![a, b].lemma_flatten_push(c);
    assert(seq![a, b, c] =~= seq![a, b].push(c));
    assert(e.flatten() + a =~= a);
}

proof fn lemma_row_text_round_trip(row: Seq<Seq<char>>)
    requires
        forall|k: int|
            0 <= k < row.len() ==> {
                &&& !contains_seq(#[trigger] row[k], selection_start())
                &&& !contains_seq(row[k], selection_stop())
            },
    ensures
        render_row(unhighlighted(highlighted(row))) == render_row(row),
{
    assert forall|k: int| 0 <= k < row.len() implies is_plain_token(#[trigger] row[k]) by {
        lemma_unmarked_is_plain(row[k]);
    }
    if row.len() == 1 && has_char(row[0], ' ') {
        let t = row[0];
        crate::text::lemma_first_at_exists(t, ' ');
        let p = choose|p: int| first_at(t, ' ', p);
        let a = t.take(p);
        let b = t.skip(p + 1);
        let sp = seq![' '];
        assert(is_plain_token(a)) by {
            if a == selection_start() || a == selection_stop() {
                let z: int = 0;
                assert(t.subrange(z, z + a.len()) =~= a);
            }
        }
        assert(is_plain_token(b)) by {
            if b == selection_start() || b == selection_stop() {
                assert(t.subrange(p + 1, p + 1 + b.len()) =~= b);
            }
        }
        assert(is_plain_token(sp));
        let e = Seq::<Seq<char>>::empty();
        assert(highlighted(row) =~= e.push(a).push(selection_start()).push(sp).push(b).push(
            selection_stop(),
        ));
        lemma_unhighlighted_empty();
        lemma_unhighlighted_push(e, a);
        lemma_unhighlighted_push(e.push(a), selection_start());
        lemma_unhighlighted_push(e.push(a).push(selection_start()), sp);
        lemma_unhighlighted_push(e.push(a).push(selection_start()).push(sp), b);
        lemma_unhighlighted_push(e.push(a).push(selection_start()).push(sp).push(b), selection_stop());
        assert(unhighlighted(highlighted(row)) =~= seq![a, sp, b]);
        lemma_flatten_three(a, sp, b);
        assert(a + sp + b =~= t);
        Seq::<Seq<char>>::empty().lemma_flatten_push(t);
        assert(row =~= Seq::<Seq<char>>::empty().push(t));
        assert(Seq::<Seq<char>>::empty().flatten() + t =~= t);
    } else {
        lemma_row_round_trip(row);
    }
}

/// Selecting a commit that is not selected and then deselecting it gives back
/// its rows as rendered, character for character, where no token holds a
/// highlight escape in its text.
pub proof fn lemma_select_deselect_restores_text(v: ItemView)
    requires
        v is Commit,
        !v.is_selected(),
        unmarked_rows(v.lines()),
    ensures
        render_rows(v.selected().deselected().lines()) == render_rows(v.lines()),
{
    let rows = v.lines();
    let back = v.selected().deselected().lines();
    assert forall|r: int| 0 <= r < rows.len() implies #[trigger] render_row(back[r]) == render_row(
        rows[r],
    ) by {
        assert forall|k: int| 0 <= k < rows[r].len() implies {
            &&& !contains_seq(#[trigger] rows[r][k], selection_start())
            &&& !contains_seq(rows[r][k], selection_stop())
        } by {
            assert(unmarked_rows(rows));
        }
        lemma_row_text_round_trip(rows[r]);
    }
    assert(render_rows(back) =~= render_rows(rows));
}

} // verus!
