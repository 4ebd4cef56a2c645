//! The graph log as the user moves through it: its items, and the index of
//! the one commit that is selected.
use vstd::prelude::*;
use vstd::string::StringExecFns;
use crate::error::SmartLogError;
use crate::graph::{identifier, render_rows, Item, ItemType, ItemView};
use crate::parser::{
    ansi_blocks, build_items, graph_split_point, items_view, line_text, parse_log,
    pre_processed, prepared_rows, raw, reads_back, strings_view, token_texts, SmartLogParser,
    TokenView,
};

verus! {

/// Whether item `i` is a selected commit.
pub open spec fn selected_at(items: Seq<ItemView>, i: int) -> bool {
    0 <= i < items.len() && items[i].is_selected()
}

/// Whether item `i` is the one selected commit among the items.
pub open spec fn only_selected_at(items: Seq<ItemView>, i: int) -> bool {
    &&& selected_at(items, i)
    &&& forall|j: int| #[trigger] selected_at(items, j) ==> j == i
}

/// Whether `j` is the nearest commit past `from`, going down.
pub open spec fn nearest_commit_below(items: Seq<ItemView>, from: int, j: int) -> bool {
    &&& from < j < items.len()
    &&& items[j] is Commit
    &&& forall|k: int| from < k < j ==> !(#[trigger] items[k] is Commit)
}

/// Whether `j` is the nearest commit before `from`, going up.
pub open spec fn nearest_commit_above(items: Seq<ItemView>, from: int, j: int) -> bool {
    &&& 0 <= j < from
    &&& items[j] is Commit
    &&& forall|k: int| j < k < from ==> !(#[trigger] items[k] is Commit)
}

/// Whether `j` is the nearest commit from `from` in the given direction.
pub open spec fn nearest_commit(items: Seq<ItemView>, from: int, down: bool, j: int) -> bool {
    if down {
        nearest_commit_below(items, from, j)
    } else {
        nearest_commit_above(items, from, j)
    }
}

/// The items and the selection index after one move, down or up: the nearest
/// commit in that direction, glyphs skipped, is selected in place of the
/// current one; where there is none, nothing changes.
pub open spec fn after_move(items: Seq<ItemView>, idx: int, down: bool) -> (Seq<ItemView>, int) {
    if exists|j: int| nearest_commit(items, idx, down, j) {
        let j = choose|j: int| nearest_commit(items, idx, down, j);
        (items.update(idx, items[idx].deselected()).update(j, items[j].selected()), j)
    } else {
        (items, idx)
    }
}

/// The items and the selection index after a run of moves, each down (`true`)
/// or up (`false`), in order.
pub open spec fn after_moves(items: Seq<ItemView>, idx: int, moves: Seq<bool>) -> (
    Seq<ItemView>,
    int,
)
    decreases moves.len(),
{
    if moves.len() == 0 {
        (items, idx)
    } else {
        let (items1, idx1) = after_moves(items, idx, moves.drop_last());
        after_move(items1, idx1, moves.last())
    }
}

/// The rendered rows of each item.
pub open spec fn rendered_items(items: Seq<ItemView>) -> Seq<Seq<Seq<char>>> {
    items.map_values(|it: ItemView| render_rows(it.lines()))
}

/// Every row of every item, rendered, in order.
pub open spec fn render_log(items: Seq<ItemView>) -> Seq<Seq<char>> {
    rendered_items(items).flatten()
}

proof fn lemma_nearest_unique(items: Seq<ItemView>, from: int, down: bool, a: int, b: int)
    requires
        nearest_commit(items, from, down, a),
        nearest_commit(items, from, down, b),
    ensures
        a == b,
{
    if a < b {
        if down {
            assert(!(items[a] is Commit));
        } else {
            assert(!(items[b] is Commit));
        }
    } else if b < a {
        if down {
            assert(!(items[b] is Commit));
        } else {
            assert(!(items[a] is Commit));
        }
    }
}

/// One move, down or up, keeps exactly one commit selected, and the
/// selection index on it.
pub proof fn lemma_move_keeps_one_selected(items: Seq<ItemView>, idx: int, down: bool)
    requires
        only_selected_at(items, idx),
    ensures
        only_selected_at(after_move(items, idx, down).0, after_move(items, idx, down).1),
{
    if exists|j: int| nearest_commit(items, idx, down, j) {
        let j = choose|j: int| nearest_commit(items, idx, down, j);
        let moved = items.update(idx, items[idx].deselected()).update(j, items[j].selected());
        assert(j != idx);
        assert(selected_at(moved, j));
        assert forall|k: int| #[trigger] selected_at(moved, k) implies k == j by {
            if k != j && k != idx {
                assert(moved[k] == items[k]);
                assert(selected_at(items, k));
            }
        }
    }
}

/// After any run of moves, down or up, exactly one commit is selected and the
/// selection index is on it: never on a glyph.
pub proof fn lemma_moves_keep_one_selected(items: Seq<ItemView>, idx: int, moves: Seq<bool>)
    requires
        only_selected_at(items, idx),
    ensures
        only_selected_at(after_moves(items, idx, moves).0, after_moves(items, idx, moves).1),
        after_moves(items, idx, moves).0[after_moves(items, idx, moves).1] is Commit,
    decreases moves.len(),
{
    if moves.len() > 0 {
        lemma_moves_keep_one_selected(items, idx, moves.drop_last());
        let (items1, idx1) = after_moves(items, idx, moves.drop_last());
        lemma_move_keeps_one_selected(items1, idx1, moves.last());
    }
}

/// Moving up from the first commit, or down from the last, changes nothing.
pub proof fn lemma_move_past_end_is_noop(items: Seq<ItemView>, idx: int)
    requires
        only_selected_at(items, idx),
    ensures
        (forall|k: int| 0 <= k < idx ==> !(#[trigger] items[k] is Commit)) ==> after_move(
            items,
            idx,
            false,
        ) == (items, idx),
        (forall|k: int| idx < k < items.len() ==> !(#[trigger] items[k] is Commit)) ==> after_move(
            items,
            idx,
            true,
        ) == (items, idx),
{
}

proof fn lemma_flatten_two(a: Seq<char>, b: Seq<char>)
    ensures
        seq![a, b].flatten() == a + b,
{
    Seq::<Seq<char>>::empty().lemma_flatten_push(a);
    assert(seq![a] =~= Seq::<Seq<char>>::empty().push(a));
    seq![a].lemma_flatten_push(b);
    assert(seq![a, b] =~= seq![a].push(b));
    assert(Seq::<Seq<char>>::empty().flatten() + a =~= a);
}

proof fn lemma_pre_processed_text(tokens: Seq<TokenView>)
    ensures
        line_text(pre_processed(tokens)) == line_text(tokens),
{
    if tokens.len() == 1 && tokens[0] is Text {
        let t = raw(tokens[0]);
        let p = graph_split_point(t);
        assert(0 <= p <= t.len()) by {
            if exists|i: int| crate::parser::first_glyph_at(t, i) {
                let i = choose|i: int| crate::parser::first_glyph_at(t, i);
            }
        }
        assert(token_texts(pre_processed(tokens)) =~= seq![t.take(p), t.skip(p)]);
        lemma_flatten_two(t.take(p), t.skip(p));
        assert(t.take(p) + t.skip(p) =~= t);
        assert(token_texts(tokens) =~= seq![t]);
        Seq::<Seq<char>>::empty().lemma_flatten_push(t);
        assert(seq![t] =~= Seq::<Seq<char>>::empty().push(t));
        assert(Seq::<Seq<char>>::empty().flatten() + t =~= t);
    }
}

proof fn lemma_render_single(row: Seq<Seq<char>>)
    ensures
        render_rows(seq![row]) == seq![row.flatten()],
{
    assert(render_rows(seq![row]) =~= seq![row.flatten()]);
}

proof fn lemma_build_renders(rows: Seq<Seq<TokenView>>)
    requires
        build_items(rows) is Some,
    ensures
        render_log(build_items(rows)->0) == rows.map_values(|r: Seq<TokenView>| line_text(r)),
    decreases rows.len(),
{
    let texts = rows.map_values(|r: Seq<TokenView>| line_text(r));
    if rows.len() == 0 {
        assert(rendered_items(Seq::<ItemView>::empty()) =~= Seq::<Seq<Seq<char>>>::empty());
        assert(texts =~= Seq::<Seq<char>>::empty());
    } else {
        let rows0 = rows.drop_last();
        let last = rows.last();
        lemma_build_renders(rows0);
        let items0 = build_items(rows0)->0;
        let items = build_items(rows)->0;
        let tt = token_texts(last);
        let parts0 = rendered_items(items0);
        assert(texts =~= rows0.map_values(|r: Seq<TokenView>| line_text(r)).push(line_text(last)));
        if items.len() == items0.len() + 1 {
            assert(items =~= items0.push(items[items.len() - 1]));
            assert(items[items.len() - 1].lines() == seq![tt]);
            lemma_render_single(tt);
            assert(rendered_items(items) =~= parts0.push(seq![line_text(last)]));
            parts0.lemma_flatten_push(seq![line_text(last)]);
            assert(parts0.flatten() + seq![line_text(last)] =~= parts0.flatten().push(
                line_text(last),
            ));
        } else {
            let n = items0.len();
            let prev = items0[n - 1];
            assert(items == items0.update(n - 1, prev.with_line(tt)));
            let p0 = parts0.drop_last();
            assert(parts0 =~= p0.push(parts0[n - 1]));
            assert(render_rows(prev.with_line(tt).lines()) =~= render_rows(prev.lines()).push(
                line_text(last),
            ));
            assert(rendered_items(items) =~= p0.push(parts0[n - 1].push(line_text(last))));
            p0.lemma_flatten_push(parts0[n - 1].push(line_text(last)));
            p0.lemma_flatten_push(parts0[n - 1]);
            assert(p0.flatten() + parts0[n - 1].push(line_text(last)) =~= (p0.flatten()
                + parts0[n - 1]).push(line_text(last)));
        }
    }
}

/// Reading a log and rendering its items gives back its rows exactly, where
/// the log can be read.
pub proof fn lemma_parse_render_round_trip(lines: Seq<Seq<char>>)
    requires
        parse_log(lines) is Some,
    ensures
        render_log(parse_log(lines)->0) == lines,
{
    let rows = prepared_rows(lines);
    lemma_build_renders(rows);
    let texts = rows.map_values(|r: Seq<TokenView>| line_text(r));
    assert forall|i: int| 0 <= i < lines.len() implies #[trigger] texts[i] == lines[i] by {
        assert(reads_back(lines[i]));
        lemma_pre_processed_text(ansi_blocks(lines[i]));
    }
    assert(texts =~= lines);
}

/// What the user asks of the log, one key at a time.
#[derive(Debug, Clone, Copy, PartialEq, Eq, Structural)]
pub enum Command {
    MoveUp,
    MoveDown,
    Confirm,
    Quit,
}

/// What the terminal loop does after a command.
#[derive(Debug)]
pub enum Outcome {
    /// Draw the rows again and wait for the next key.
    Redraw,
    /// Leave without a commit.
    Quit,
    /// Leave, and check out the commit with this hash.
    Checkout(String),
}

#[derive(Debug)]
pub struct SmartLog {
    pub items: Vec<ItemType>,
    pub selection_idx: usize,
}

impl SmartLog {
    pub open spec fn item_views(&self) -> Seq<ItemView> {
        items_view(self.items@)
    }

    /// Exactly one commit is selected, and the selection index points at it.
    pub open spec fn wf(&self) -> bool {
        only_selected_at(self.item_views(), self.selection_idx as int)
    }

    /// Reads the log; it must hold exactly one highlighted commit, which
    /// starts out selected.
    pub fn new(raw_lines: &[String]) -> (r: Result<Self, SmartLogError>)
        ensures
            match r {
                Ok(log) => {
                    &&& parse_log(strings_view(raw_lines@)) == Some(log.item_views())
                    &&& log.wf()
                },
                Err(e) => {
                    &&& e == SmartLogError::UnparsableLog
                    &&& match parse_log(strings_view(raw_lines@)) {
                        Some(items) => !exists|i: int| only_selected_at(items, i),
                        None => true,
                    }
                },
            },
    {
        let items = SmartLogParser::parse(raw_lines)?;
        match Self::get_selected_item_index(items.as_slice()) {
            Some(selection_idx) => Ok(Self { items, selection_idx }),
            None => Err(SmartLogError::UnparsableLog),
        }
    }

    /// The hash of the selected commit.
    pub fn get_selected_commit_hash(&self) -> (r: Result<&str, SmartLogError>)
        requires
            self.wf(),
        ensures
            match r {
                Ok(h) => identifier(self.item_views()[self.selection_idx as int].lines()) == Some(
                    h@,
                ),
                Err(e) => identifier(self.item_views()[self.selection_idx as int].lines()) is None
                    && e == SmartLogError::NoIdentifier,
            },
    {
        match &self.items[self.selection_idx] {
            ItemType::Commit(commit) => commit.hash(),
            ItemType::Glyph(_) => Err(SmartLogError::NoIdentifier),
        }
    }

    /// Selects item `item_idx` and points the selection index at it, where it
    /// is a commit; a glyph is left as it is.
    pub fn select_line_index(&mut self, item_idx: usize)
        requires
            item_idx < old(self).items@.len(),
        ensures
            final(self).item_views() == old(self).item_views().update(
                item_idx as int,
                old(self).item_views()[item_idx as int].selected(),
            ),
            final(self).selection_idx == if old(self).item_views()[item_idx as int] is Commit {
                item_idx
            } else {
                old(self).selection_idx
            },
    {
        let ghost before = self.item_views();
        match &mut self.items[item_idx] {
            ItemType::Commit(commit) => {
                commit.select();
                self.selection_idx = item_idx;
            },
            ItemType::Glyph(_) => {},
        }
        assert(self.item_views() =~= before.update(item_idx as int, before[item_idx as int].selected()));
    }

    /// Deselects item `item_idx`, where it is a commit.
    pub fn deselect_line_idx(&mut self, item_idx: usize)
        requires
            item_idx < old(self).items@.len(),
        ensures
            final(self).item_views() == old(self).item_views().update(
                item_idx as int,
                old(self).item_views()[item_idx as int].deselected(),
            ),
            final(self).selection_idx == old(self).selection_idx,
    {
        let ghost before = self.item_views();
        match &mut self.items[item_idx] {
            ItemType::Commit(commit) => commit.deselect(),
            ItemType::Glyph(_) => {},
        }
        assert(self.item_views() =~= before.update(item_idx as int, before[item_idx as int].deselected()));
    }

    /// Applies one command: a move changes the selection and asks for a
    /// redraw; confirming hands back the hash of the selected commit; quitting
    /// hands back nothing. Only a move changes the log.
    pub fn apply(&mut self, command: Command) -> (r: Result<Outcome, SmartLogError>)
        requires
            old(self).wf(),
        ensures
            final(self).wf(),
            match command {
                Command::MoveUp => {
                    &&& (final(self).item_views(), final(self).selection_idx as int) == after_move(
                        old(self).item_views(),
                        old(self).selection_idx as int,
                        false,
                    )
                    &&& r matches Ok(Outcome::Redraw)
                },
                Command::MoveDown => {
                    &&& (final(self).item_views(), final(self).selection_idx as int) == after_move(
                        old(self).item_views(),
                        old(self).selection_idx as int,
                        true,
                    )
                    &&& r matches Ok(Outcome::Redraw)
                },
                Command::Confirm => {
                    &&& final(self).item_views() == old(self).item_views()
                    &&& final(self).selection_idx == old(self).selection_idx
                    &&& match r {
                        Ok(Outcome::Checkout(h)) => identifier(
                            old(self).item_views()[old(self).selection_idx as int].lines(),
                        ) == Some(h@),
                        Err(e) => identifier(
                            old(self).item_views()[old(self).selection_idx as int].lines(),
                        ) is None && e == SmartLogError::NoIdentifier,
                        Ok(_) => false,
                    }
                },
                Command::Quit => {
                    &&& final(self).item_views() == old(self).item_views()
                    &&& final(self).selection_idx == old(self).selection_idx
                    &&& r matches Ok(Outcome::Quit)
                },
            },
    {
        match command {
            Command::MoveUp => {
                self.move_up();
                Ok(Outcome::Redraw)
            },
            Command::MoveDown => {
                self.move_down();
                Ok(Outcome::Redraw)
            },
            Command::Confirm => {
                let hash = self.get_selected_commit_hash()?;
                Ok(Outcome::Checkout(String::from_str(hash)))
            },
            Command::Quit => Ok(Outcome::Quit),
        }
    }

    /// Moves the selection to the nearest commit above; no change at the top.
    pub fn move_up(&mut self)
        requires
            old(self).wf(),
        ensures
            final(self).wf(),
            (final(self).item_views(), final(self).selection_idx as int) == after_move(
                old(self).item_views(),
                old(self).selection_idx as int,
                false,
            ),
    {
        self.move_selection(false);
    }

    /// Moves the selection to the nearest commit below; no change at the
    /// bottom.
    pub fn move_down(&mut self)
        requires
            old(self).wf(),
        ensures
            final(self).wf(),
            (final(self).item_views(), final(self).selection_idx as int) == after_move(
                old(self).item_views(),
                old(self).selection_idx as int,
                true,
            ),
    {
        self.move_selection(true);
    }

    fn move_selection(&mut self, down: bool)
        requires
            old(self).wf(),
        ensures
            final(self).wf(),
            (final(self).item_views(), final(self).selection_idx as int) == after_move(
                old(self).item_views(),
                old(self).selection_idx as int,
                down,
            ),
    {
        let ghost items = self.item_views();
        let idx = self.selection_idx;
        proof {
            lemma_move_keeps_one_selected(items, idx as int, down);
        }
        match Self::nearest_commit_index(self.items.as_slice(), idx, down) {
            Some(candidate) => {
                proof {
                    let j = choose|j: int| nearest_commit(items, idx as int, down, j);
                    lemma_nearest_unique(items, idx as int, down, j, candidate as int);
                }
                self.deselect_line_idx(idx);
                self.select_line_index(candidate);
            },
            None => {},
        }
    }

    /// The nearest commit from `from`, down or up, skipping glyphs.
    fn nearest_commit_index(items: &[ItemType], from: usize, down: bool) -> (r: Option<usize>)
        requires
            from < items@.len(),
        ensures
            match r {
                Some(j) => nearest_commit(items_view(items@), from as int, down, j as int),
                None => !exists|j: int| nearest_commit(items_view(items@), from as int, down, j),
            },
    {
        let ghost views = items_view(items@);
        let n = items.len();
        if down {
            let mut i: usize = from + 1;
            while i < n
                invariant
                    down,
                    n == items@.len(),
                    views == items_view(items@),
                    from < i <= n,
                    forall|k: int| from < k < i ==> !(#[trigger] views[k] is Commit),
                decreases n - i,
            {
                if let ItemType::Commit(_) = &items[i] {
                    assert(views[i as int] is Commit);

                    return Some(i);
                }
                i = i + 1;
            }
            proof {
                if exists|j: int| nearest_commit(views, from as int, down, j) {
                    let j = choose|j: int| nearest_commit(views, from as int, down, j);
                    assert(!(views[j] is Commit));
                }
            }
            None
        } else {
            let mut i: usize = from;
            while i > 0
                invariant
                    !down,
                    n == items@.len(),
                    views == items_view(items@),
                    i <= from < n,
                    forall|k: int| i <= k < from ==> !(#[trigger] views[k] is Commit),
                decreases i,
            {
                if let ItemType::Commit(_) = &items[i - 1] {
                    assert(views[i - 1] is Commit);
                    return Some(i - 1);
                }
                i = i - 1;
            }
            proof {
                if exists|j: int| nearest_commit(views, from as int, down, j) {
                    let j = choose|j: int| nearest_commit(views, from as int, down, j);
                    assert(!(views[j] is Commit));
                }
            }
            None
        }
    }

    /// Every row of every item, rendered, in order.
    pub fn to_string_vec(&self) -> (r: Vec<String>)
        ensures
            r.deep_view() == render_log(self.item_views()),
    {
        let ghost parts = rendered_items(self.item_views());
        let mut r: Vec<String> = Vec::new();
        let n = self.items.len();
        let mut i: usize = 0;
        assert(parts.take(0) =~= Seq::<Seq<Seq<char>>>::empty());
        while i < n
            invariant
                n == self.items@.len(),
                parts == rendered_items(self.item_views()),
                i <= n,
                r.deep_view() == parts.take(i as int).flatten(),
            decreases n - i,
        {
            let ghost prev = r.deep_view();
            let mut rows = self.items[i].to_string_vec();
            let ghost added = rows.deep_view();
            assert(added == parts[i as int]);
            r.append(&mut rows);
            assert(r.deep_view() =~= prev + added);
            assert(parts.take(i + 1) =~= parts.take(i as int).push(parts[i as int]));
            proof {
                parts.take(i as int).lemma_flatten_push(parts[i as int]);
            }
            i = i + 1;
        }
        assert(parts.take(n as int) =~= parts);
        r
    }

    /// The index of the one selected commit; none where no commit or more
    /// than one is selected.
    fn get_selected_item_index(items: &[ItemType]) -> (r: Option<usize>)
        ensures
            match r {
                Some(i) => only_selected_at(items_view(items@), i as int),
                None => !exists|i: int| only_selected_at(items_view(items@), i),
            },
    {
        let ghost views = items_view(items@);
        let n = items.len();
        let mut found: Option<usize> = None;
        let mut i: usize = 0;
        while i < n
            invariant
                n == items@.len(),
                views == items_view(items@),
                i <= n,
                match found {
                    Some(f) => f < i && selected_at(views, f as int) && forall|j: int|
                        0 <= j < i && #[trigger] selected_at(views, j) ==> j == f,
                    None => forall|j: int| 0 <= j < i ==> !#[trigger] selected_at(views, j),
                },
            decreases n - i,
        {
            let selected = match &items[i] {
                ItemType::Commit(commit) => commit.selected,
                ItemType::Glyph(_) => false,
            };
            assert(selected == selected_at(views, i as int));
            if selected {
                if found.is_some() {
                    return None;
                }
                found = Some(i);
            }
            i = i + 1;
        }
        found
    }
}

} // verus!
