//! The editor state machine: it owns the authored code, the current mode, a
//! cursor and a viewport offset, lays the displayed text out again after every
//! mutation, and keeps the line under the cursor inside the viewport.
//!
//! The state is a value: every action produces the next snapshot. Executing
//! the code on a switch into run mode is the job of an outside collaborator;
//! its response — the result values' display strings, or a failure's text —
//! is handed in as an argument, so the machine itself stays pure.
//!
//! The cursor is kept within `0 ..= code.len()` in every mode, and deleting
//! backward with the cursor at 0 is a guaranteed no-op.

use vstd::prelude::*;

use crate::layout::Character;
use crate::layout::Characters;
use crate::layout::cell_ok;
use crate::layout::cells_adjacent_ok;
use crate::layout::cells_of;
use crate::layout::chars_of;
use crate::layout::find_at;
use crate::layout::first_of_line;
use crate::layout::first_pos_of_line;
use crate::layout::last_of_line;
use crate::layout::last_pos_of_line;
use crate::layout::layout;
use crate::layout::lemma_cell_bounds;
use crate::layout::lemma_cells_adjacent;
use crate::layout::lemma_cells_indexed;
use crate::layout::lemma_cells_of_push;
use crate::layout::lemma_emit_one;
use crate::layout::adjacent_ok;
use crate::layout::lemma_find_at_indexed;
use crate::layout::lemma_layout_head;
use crate::layout::lemma_padded_visible;
use crate::layout::lemma_replaced_len;
use crate::layout::lemma_same_line_block;
use crate::layout::lemma_first_pos_of_line;
use crate::layout::lemma_last_pos_of_line;
use crate::layout::lemma_padded_head;
use crate::layout::padded;
use crate::layout::replace_breaks;
use crate::layout::start_state;
use crate::layout::visible_count;

verus! {

/// Columns a line holds before wrapping.
pub const WRAP_WIDTH: usize = 15;

/// Lines the viewport shows at once.
pub const WINDOW_HEIGHT: usize = 7;

/// What the display shows: the authored code, or the last run's output.
#[derive(Debug, Clone, Copy, PartialEq, Eq, Structural, Hash, Default)]
pub enum EditorMode {
    #[default]
    Edit,
    Run,
}

/// One input action of the device.
#[derive(Debug, Clone, Copy, PartialEq, Eq, Structural, Hash, Default)]
pub enum MoveAction {
    #[default]
    Invalid,
    Mode,
    Home,
    End,
    Left,
    Right,
    Up,
    Down,
    Enter,
    Delete,
}

/// How `set_cursor` interprets its argument.
#[derive(Debug, Clone, Copy, PartialEq, Eq, Structural, Hash)]
pub enum SetCursor {
    Assign,
    Increment,
    Decrement,
}

/// The editor's state: one immutable snapshot of the device.
#[derive(Debug, Clone, PartialEq, Eq, Hash, Default)]
pub struct Editor {
    pub cursor: usize,
    pub line_offset: usize,
    pub code_result: Vec<char>,
    pub code: Vec<char>,
    pub chars: Characters,
    pub buffer: Vec<char>,
    pub mode: EditorMode,
}

/// The text the display is built from: the code in edit mode, the last run's
/// output in run mode.
pub open spec fn active_text(e: Editor) -> Seq<char> {
    if e.mode == EditorMode::Edit {
        e.code@
    } else {
        e.code_result@
    }
}

/// The buffer and the placed characters follow from the active text.
pub open spec fn refreshed(e: Editor) -> bool {
    &&& e.buffer@ == padded(active_text(e))
    &&& e.chars@ == layout(e.buffer@, WRAP_WIDTH as int)
}

/// The line holding the cursor's cell, or line 0 when no cell carries the
/// cursor's flat index.
pub open spec fn cursor_line(e: Editor) -> int {
    match find_at(e.chars@, e.cursor as int) {
        Some(c) => c.line,
        None => 0,
    }
}

/// The given line lies inside a viewport that starts at `off`.
pub open spec fn in_window(off: int, line: int) -> bool {
    off <= line < off + WINDOW_HEIGHT as int
}

/// The editor's invariant: the cursor stays within the code, the display is
/// laid out from the active text, and the cursor's line is in the viewport.
pub open spec fn wf(e: Editor) -> bool {
    &&& e.cursor <= e.code@.len()
    &&& refreshed(e)
    &&& in_window(e.line_offset as int, cursor_line(e))
}

/// The viewport offset after the cursor moved to `line`: it snaps up to a
/// line above it, scrolls down just enough for a line below it, and stays
/// put otherwise.
pub open spec fn scrolled(off: int, line: int) -> int {
    if line < off {
        line
    } else if line >= off + WINDOW_HEIGHT as int {
        line - (WINDOW_HEIGHT as int - 1)
    } else {
        off
    }
}

/// Scrolling puts the line inside the viewport.
pub proof fn lemma_scrolled_in_window(off: int, line: int)
    ensures
        in_window(scrolled(off, line), line),
{
}

/// The views of a sequence of display strings.
pub open spec fn string_views(items: Seq<String>) -> Seq<Seq<char>> {
    items.map_values(|s: String| s@)
}

/// Display strings joined with a comma and a blank, in order.
pub open spec fn joined(items: Seq<Seq<char>>) -> Seq<char>
    decreases items.len(),
{
    if items.len() == 0 {
        Seq::<char>::empty()
    } else if items.len() == 1 {
        items[0]
    } else {
        joined(items.drop_last()) + seq![',', ' '] + items.last()
    }
}

/// The collaborator's response, over views.
pub open spec fn run_view(run: Result<Vec<String>, String>) -> Result<Seq<Seq<char>>, Seq<char>> {
    match run {
        Ok(items) => Ok(string_views(items@)),
        Err(e) => Err(e@),
    }
}

/// The text a run's response is displayed as: the results joined with commas
/// on success, the failure's text otherwise.
pub open spec fn run_display(run: Result<Seq<Seq<char>>, Seq<char>>) -> Seq<char> {
    match run {
        Ok(items) => joined(items),
        Err(e) => e,
    }
}

/// Appends every character of `src` to `dst`.
fn push_all(dst: &mut Vec<char>, src: &Vec<char>)
    ensures
        final(dst)@ == old(dst)@ + src@,
{
    let n = src.len();
    let mut k: usize = 0;
    while k < n
        invariant
            k <= n,
            n == src@.len(),
            dst@ == old(dst)@ + src@.subrange(0, k as int),
        decreases n - k,
    {
        dst.push(src[k]);
        proof {
            assert(dst@ =~= old(dst)@ + src@.subrange(0, k as int + 1));
        }
        k = k + 1;
    }
    proof {
        assert(old(dst)@ + src@.subrange(0, n as int) =~= old(dst)@ + src@);
    }
}

/// Joins display strings with a comma and a blank.
pub fn join_displayed(items: &Vec<String>) -> (r: Vec<char>)
    ensures
        r@ == joined(string_views(items@)),
{
    let n = items.len();
    let mut r: Vec<char> = Vec::new();
    let mut i: usize = 0;
    while i < n
        invariant
            i <= n,
            n == items@.len(),
            r@ == joined(string_views(items@.subrange(0, i as int))),
        decreases n - i,
    {
        let ghost pref = string_views(items@.subrange(0, i as int));
        if i > 0 {
            r.push(',');
            r.push(' ');
        }
        let cs = chars_of(items[i].as_str());
        push_all(&mut r, &cs);
        proof {
            let all = string_views(items@.subrange(0, i as int + 1));
            assert(items@.subrange(0, i as int + 1) =~= items@.subrange(0, i as int).push(
                items@[i as int],
            ));
            assert(all =~= pref.push(items@[i as int]@));
            if i == 0 {
                assert(all.len() == 1);
                assert(r@ =~= joined(all));
            } else {
                assert(all.drop_last() =~= pref);
                assert(all.last() == cs@);
                assert(r@ =~= joined(all));
            }
        }
        i = i + 1;
    }
    proof {
        assert(items@.subrange(0, n as int) =~= items@);
    }
    r
}

/// The characters a run's response is displayed as.
pub fn render_run(run: Result<Vec<String>, String>) -> (r: Vec<char>)
    ensures
        r@ == run_display(run_view(run)),
{
    match run {
        Ok(items) => join_displayed(&items),
        Err(e) => chars_of(e.as_str()),
    }
}


/// What holds of a layout the editor refreshed: cell indexes are the
/// positions themselves, neighbours relate as the wrap rules say, and every
/// cell's line and column are within bounds.
pub proof fn lemma_editor_cells(e: Editor)
    requires
        refreshed(e),
    ensures
        e.chars@.len() == visible_count(e.buffer@),
        forall|k: int| 0 <= k < e.chars@.len() ==> (#[trigger] e.chars@[k]).index == k,
        cells_adjacent_ok(WRAP_WIDTH as int, e.chars@),
        forall|k: int|
            0 <= k < e.chars@.len() ==> cell_ok(
                WRAP_WIDTH as int,
                start_state(),
                #[trigger] e.chars@[k],
            ),
{
    lemma_cells_indexed(e.buffer@, WRAP_WIDTH as int, start_state());
    lemma_cells_adjacent(e.buffer@, WRAP_WIDTH as int, start_state());
    lemma_cell_bounds(e.buffer@, WRAP_WIDTH as int, start_state());
}

/// No cell lies on a line number beyond what a machine word holds.
proof fn lemma_no_line_past_max(chars: &Characters, line: int)
    requires
        line > usize::MAX as int,
    ensures
        first_of_line(chars@, line) is None,
{
    lemma_first_pos_of_line(chars@, line);
    match first_pos_of_line(chars@, line) {
        Some(p) => {
            assert(chars@[p] == chars.chars@[p]@);
        },
        None => {},
    }
}

/// A freshly refreshed editor with the cursor at 0 shows line 0 on top.
proof fn lemma_cursor0_in_window(e: Editor)
    requires
        refreshed(e),
        e.cursor == 0,
    ensures
        cursor_line(e) == 0,
{
    lemma_padded_head(active_text(e));
    let text = e.buffer@;
    lemma_emit_one(start_state(), WRAP_WIDTH as int, text[0]);
    assert(e.chars@.len() > 0);
    lemma_cells_indexed(text, WRAP_WIDTH as int, start_state());
    lemma_find_at_indexed(e.chars@, 0, 0);
    assert(e.chars@[0].line == 0);
}

/// The cursor value a plain navigation action yields.
pub open spec fn clamped(e: Editor, v: int) -> int {
    if v < e.code@.len() as int {
        v
    } else {
        e.code@.len() as int
    }
}

/// Where a vertical move lands: the target line's first cell advanced by the
/// cursor's column, clamped to the target line's last cell — or nothing, when
/// the cursor has no cell or the target line does not exist.
pub open spec fn vertical_target(e: Editor, target_line: int) -> Option<int> {
    match (find_at(e.chars@, e.cursor as int), first_of_line(e.chars@, target_line), last_of_line(
        e.chars@,
        target_line,
    )) {
        (Some(cur), Some(f), Some(l)) => Some(
            if f.index + cur.line_index < l.index {
                f.index + cur.line_index
            } else {
                l.index
            },
        ),
        _ => None,
    }
}

/// The cursor after each pure navigation action.
pub open spec fn nav_cursor(e: Editor, action: MoveAction) -> int {
    match action {
        MoveAction::Left => Editor::set_cursor_spec(e, SetCursor::Decrement, 1),
        MoveAction::Right => Editor::set_cursor_spec(e, SetCursor::Increment, 1),
        MoveAction::Up => if cursor_line(e) == 0 {
            0
        } else {
            match vertical_target(e, cursor_line(e) - 1) {
                Some(t) => clamped(e, t),
                None => 0,
            }
        },
        MoveAction::Down => match vertical_target(e, cursor_line(e) + 1) {
            Some(t) => clamped(e, t),
            None => clamped(e, e.buffer@.len() as int),
        },
        MoveAction::Home => match first_of_line(e.chars@, cursor_line(e)) {
            Some(f) => clamped(e, f.index),
            None => clamped(e, 0),
        },
        MoveAction::End => match (first_of_line(e.chars@, cursor_line(e) + 1), last_of_line(
            e.chars@,
            cursor_line(e),
        )) {
            (Some(f), Some(l)) => clamped(e, l.index),
            _ => clamped(e, e.buffer@.len() as int),
        },
        _ => e.cursor as int,
    }
}

/// A pure navigation action: only the cursor moves, then the viewport follows.
pub open spec fn moved(pre: Editor, action: MoveAction, post: Editor) -> bool {
    &&& post.code == pre.code
    &&& post.code_result == pre.code_result
    &&& post.mode == pre.mode
    &&& post.buffer == pre.buffer
    &&& post.chars == pre.chars
    &&& post.cursor as int == nav_cursor(pre, action)
    &&& post.line_offset as int == scrolled(pre.line_offset as int, cursor_line(post))
}

/// One character was inserted at the cursor, the cursor advanced past it, the
/// display was laid out again, and the viewport followed the cursor.
pub open spec fn inserted(pre: Editor, c: char, post: Editor) -> bool {
    &&& post.code@ == pre.code@.insert(pre.cursor as int, c)
    &&& post.cursor == pre.cursor + 1
    &&& post.code_result == pre.code_result
    &&& post.mode == pre.mode
    &&& refreshed(post)
    &&& post.line_offset as int == scrolled(pre.line_offset as int, cursor_line(post))
}

/// The character before the cursor was removed — or, with the cursor at 0,
/// nothing happened at all.
pub open spec fn deleted(pre: Editor, post: Editor) -> bool {
    if pre.cursor == 0 {
        post == pre
    } else {
        &&& post.code@ == pre.code@.remove(pre.cursor as int - 1)
        &&& post.cursor == pre.cursor - 1
        &&& post.code_result == pre.code_result
        &&& post.mode == pre.mode
        &&& refreshed(post)
        &&& post.line_offset as int == scrolled(pre.line_offset as int, cursor_line(post))
    }
}

/// What a mode switch leaves behind: the mode is set; entering run mode the
/// collaborator's response becomes the stored output; the display is laid out
/// again from the now-active text; code and cursor stay; the viewport follows.
pub open spec fn set_mode_post(
    pre: Editor,
    mode: EditorMode,
    run: Result<Vec<String>, String>,
    post: Editor,
) -> bool {
    &&& post.mode == mode
    &&& post.code == pre.code
    &&& post.cursor == pre.cursor
    &&& (mode == EditorMode::Run ==> post.code_result@ == run_display(run_view(run)))
    &&& (mode != EditorMode::Run ==> post.code_result == pre.code_result)
    &&& refreshed(post)
    &&& post.line_offset as int == scrolled(pre.line_offset as int, cursor_line(post))
}

/// The other mode.
pub open spec fn toggled_mode(pre: Editor) -> EditorMode {
    if pre.mode == EditorMode::Edit {
        EditorMode::Run
    } else {
        EditorMode::Edit
    }
}

/// The position of the first cell of the viewport's top line, or 0 when that
/// line has no cell.
pub open spec fn window_start(e: Editor) -> int {
    match first_of_line(e.chars@, e.line_offset as int) {
        Some(f) => f.index,
        None => 0,
    }
}


/// Law: the cursor never leaves the code's bounds, and in edit mode it always
/// has a cell in the displayed text. Together with each action's contract,
/// which returns only well-formed states, the bound holds along any sequence
/// of actions.
pub proof fn lemma_cursor_in_bounds(e: Editor)
    requires
        wf(e),
    ensures
        e.cursor <= e.code@.len(),
        e.mode == EditorMode::Edit ==> e.cursor < e.buffer@.len(),
{
    lemma_replaced_len(e.code@);
}

/// Law: the line holding the cursor lies inside the viewport window. Each
/// action returns only well-formed states, so this holds after any action.
pub proof fn lemma_cursor_line_in_viewport(e: Editor)
    requires
        wf(e),
    ensures
        in_window(e.line_offset as int, cursor_line(e)),
{
}

/// Law: switching into run mode and straight back, with no edit in between,
/// restores the displayed text and its layout.
pub proof fn lemma_mode_round_trip(
    e0: Editor,
    run1: Result<Vec<String>, String>,
    run2: Result<Vec<String>, String>,
    e1: Editor,
    e2: Editor,
)
    requires
        wf(e0),
        e0.mode == EditorMode::Edit,
        set_mode_post(e0, EditorMode::Run, run1, e1),
        set_mode_post(e1, EditorMode::Edit, run2, e2),
    ensures
        e2.buffer@ == e0.buffer@,
        e2.chars@ == e0.chars@,
        e2.code == e0.code,
{
}

/// The up move from the cursor's cell keeps its column: the line above
/// reaches at least as far as the cursor's column.
pub open spec fn up_unclamped(e: Editor) -> bool {
    match (find_at(e.chars@, e.cursor as int), first_of_line(
        e.chars@,
        cursor_line(e) - 1,
    ), last_of_line(e.chars@, cursor_line(e) - 1)) {
        (Some(cur), Some(f), Some(l)) => f.index + cur.line_index <= l.index,
        _ => false,
    }
}

/// In a refreshed layout, a line's cells are exactly the block between its
/// first and last positions, and the column of each is its distance from the
/// line's first cell.
proof fn lemma_line_geometry(e: Editor, ln: int, p1: int, p2: int)
    requires
        refreshed(e),
        first_pos_of_line(e.chars@, ln) == Some(p1),
        last_pos_of_line(e.chars@, ln) == Some(p2),
    ensures
        0 <= p1 <= p2 < e.chars@.len(),
        forall|m: int|
            p1 <= m <= p2 ==> (#[trigger] e.chars@[m]).line == ln && e.chars@[m].line_index == m
                - p1,
        forall|m: int|
            0 <= m < e.chars@.len() && (#[trigger] e.chars@[m]).line == ln ==> p1 <= m <= p2,
{
    let cells = e.chars@;
    let max = WRAP_WIDTH as int;
    lemma_editor_cells(e);
    lemma_first_pos_of_line(cells, ln);
    lemma_last_pos_of_line(cells, ln);
    assert(p1 <= p2);
    if p1 > 0 {
        assert(adjacent_ok(max, cells[p1 - 1], cells[(p1 - 1) + 1]));
    } else {
        lemma_layout_head(e.buffer@, max);
    }
    assert(cells[p1].line_index == 0);
    lemma_same_line_block(cells, max, p1, p2);
    assert forall|m: int| p1 <= m <= p2 implies (#[trigger] cells[m]).line == ln
        && cells[m].line_index == m - p1 by {
        lemma_same_line_block(cells, max, p1, m);
    }
}

/// Law: moving up and then down returns the cursor to its exact flat index,
/// whenever the up move preserves the column without clamping — that is, the
/// line above the cursor reaches at least as far as the cursor's column.
pub proof fn lemma_up_down_round_trip(e0: Editor, e1: Editor, e2: Editor)
    requires
        wf(e0),
        e0.mode == EditorMode::Edit,
        cursor_line(e0) >= 1,
        up_unclamped(e0),
        moved(e0, MoveAction::Up, e1),
        moved(e1, MoveAction::Down, e2),
    ensures
        e2.cursor == e0.cursor,
{
    let cells = e0.chars@;
    lemma_editor_cells(e0);
    lemma_padded_visible(e0.code@);
    let p = e0.cursor as int;
    lemma_find_at_indexed(cells, p, 0);
    let a = cells[p];
    let above = a.line - 1;
    lemma_first_pos_of_line(cells, above);
    lemma_last_pos_of_line(cells, above);
    match (first_pos_of_line(cells, above), last_pos_of_line(cells, above)) {
        (Some(p1), Some(p2)) => {
            lemma_line_geometry(e0, above, p1, p2);
            let t = p1 + a.line_index;
            assert(t <= p2);
            assert(cells[t].line == above && cells[t].line_index == a.line_index);
            assert(e1.cursor as int == t);
            lemma_find_at_indexed(cells, t, 0);
            assert(cursor_line(e1) == above);
            lemma_first_pos_of_line(cells, a.line);
            lemma_last_pos_of_line(cells, a.line);
            match (first_pos_of_line(cells, a.line), last_pos_of_line(cells, a.line)) {
                (Some(q1), Some(q2)) => {
                    lemma_line_geometry(e0, a.line, q1, q2);
                    assert(q1 <= p <= q2);
                    assert(a.line_index == p - q1);
                    assert(e2.cursor as int == p);
                },
                _ => {
                    assert(false);
                },
            }
        },
        _ => {
            assert(false);
        },
    }
}

impl Editor {
    /// A fresh editor: empty code, edit mode, cursor and viewport at 0.
    pub fn new() -> (r: Self)
        ensures
            wf(r),
            r.cursor == 0,
            r.line_offset == 0,
            r.mode == EditorMode::Edit,
            r.code@ == Seq::<char>::empty(),
            r.code_result@ == Seq::<char>::empty(),
    {
        let mut e = Editor {
            cursor: 0,
            line_offset: 0,
            code_result: Vec::new(),
            code: Vec::new(),
            chars: Characters { chars: Vec::new() },
            buffer: Vec::new(),
            mode: EditorMode::Edit,
        };
        e.refresh_chars();
        proof {
            lemma_cursor0_in_window(e);
        }
        e
    }

    /// The editor with its code replaced and the display laid out anew; a
    /// cursor past the new code's end is clamped to it.
    pub fn with_code(self, code: String) -> (r: Self)
        requires
            wf(self),
        ensures
            wf(r),
            r.code@ == code@,
            r.mode == self.mode,
            r.code_result == self.code_result,
            r.cursor <= code@.len(),
            self.cursor <= code@.len() ==> r.cursor == self.cursor,
            refreshed(r),
            r.line_offset as int == scrolled(self.line_offset as int, cursor_line(r)),
    {
        let mut e = self;
        e.code = chars_of(code.as_str());
        let cur = e.cursor;
        e.set_cursor(SetCursor::Assign, cur);
        e.refresh_chars();
        let ghost off0 = e.line_offset as int;
        e.scroll_to_cursor();
        proof {
            lemma_scrolled_in_window(off0, cursor_line(e));
        }
        e
    }

    /// Inserts a character at the cursor and advances the cursor past it.
    pub fn write(&mut self, char: char)
        requires
            wf(*old(self)),
        ensures
            wf(*final(self)),
            inserted(*old(self), char, *final(self)),
    {
        let cur = self.cursor;
        self.code.insert(cur, char);
        let n = self.code.len();
        self.cursor = if cur < n {
            cur + 1
        } else {
            n
        };
        self.refresh_chars();
        self.scroll_to_cursor();
        proof {
            lemma_scrolled_in_window(old(self).line_offset as int, cursor_line(*self));
        }
    }

    /// Switches the mode. Entering run mode takes the collaborator's response
    /// to running the code — the results' display strings, or the failure's
    /// text — and shows it; entering edit mode shows the code again.
    pub fn set_mode(&mut self, mode: EditorMode, run: Result<Vec<String>, String>)
        requires
            wf(*old(self)),
        ensures
            wf(*final(self)),
            set_mode_post(*old(self), mode, run, *final(self)),
    {
        self.mode = mode;
        if mode == EditorMode::Run {
            self.code_result = render_run(run);
        }
        self.refresh_chars();
        self.scroll_to_cursor();
        proof {
            lemma_scrolled_in_window(old(self).line_offset as int, cursor_line(*self));
        }
    }

    /// Applies one action. The `run` argument is the collaborator's response
    /// to running the current code; only a mode switch into run mode reads it.
    #[verifier::rlimit(60)]
    pub fn navigate(&mut self, action: MoveAction, run: Result<Vec<String>, String>)
        requires
            wf(*old(self)),
        ensures
            wf(*final(self)),
            action == MoveAction::Mode ==> set_mode_post(
                *old(self),
                toggled_mode(*old(self)),
                run,
                *final(self),
            ),
            action == MoveAction::Enter ==> inserted(*old(self), '\n', *final(self)),
            action == MoveAction::Delete ==> deleted(*old(self), *final(self)),
            action == MoveAction::Invalid ==> *final(self) == *old(self),
            (action == MoveAction::Left || action == MoveAction::Right || action == MoveAction::Up
                || action == MoveAction::Down || action == MoveAction::Home || action
                == MoveAction::End) ==> moved(*old(self), action, *final(self)),
    {
        match action {
            MoveAction::Mode => {
                let m = if self.mode == EditorMode::Edit {
                    EditorMode::Run
                } else {
                    EditorMode::Edit
                };
                self.set_mode(m, run);
            },
            MoveAction::Left => {
                self.set_cursor(SetCursor::Decrement, 1);
                self.scroll_to_cursor();
                proof {
                    lemma_scrolled_in_window(old(self).line_offset as int, cursor_line(*self));
                }
            },
            MoveAction::Right => {
                self.set_cursor(SetCursor::Increment, 1);
                self.scroll_to_cursor();
                proof {
                    lemma_scrolled_in_window(old(self).line_offset as int, cursor_line(*self));
                }
            },
            MoveAction::Up => {
                let (has_cur, cur_line, cur_col) = match self.chars.char_at_index(self.cursor) {
                    Some(c) => (true, c.line, c.line_index),
                    None => (false, 0usize, 0usize),
                };
                if !has_cur || cur_line == 0 {
                    self.cursor = 0;
                } else {
                    let target = cur_line - 1;
                    let f = match self.chars.char_at_line_start(target) {
                        Some(c) => Some(c.index),
                        None => None,
                    };
                    let l = match self.chars.char_at_line_end(target) {
                        Some(c) => Some(c.index),
                        None => None,
                    };
                    match (f, l) {
                        (Some(fi), Some(li)) => {
                            proof {
                                lemma_editor_cells(*self);
                                lemma_first_pos_of_line(self.chars@, target as int);
                                lemma_last_pos_of_line(self.chars@, target as int);
                            }
                            let t = if li - fi > cur_col {
                                fi + cur_col
                            } else {
                                li
                            };
                            self.set_cursor(SetCursor::Assign, t);
                        },
                        _ => {
                            self.cursor = 0;
                        },
                    }
                }
                self.scroll_to_cursor();
                proof {
                    lemma_scrolled_in_window(old(self).line_offset as int, cursor_line(*self));
                }
            },
            MoveAction::Down => {
                let (has_cur, cur_line, cur_col) = match self.chars.char_at_index(self.cursor) {
                    Some(c) => (true, c.line, c.line_index),
                    None => (false, 0usize, 0usize),
                };
                let blen = self.buffer.len();
                if !has_cur {
                    self.set_cursor(SetCursor::Assign, blen);
                } else if cur_line == usize::MAX {
                    proof {
                        lemma_no_line_past_max(&self.chars, cur_line as int + 1);
                    }
                    self.set_cursor(SetCursor::Assign, blen);
                } else {
                    let target = cur_line + 1;
                    let f = match self.chars.char_at_line_start(target) {
                        Some(c) => Some(c.index),
                        None => None,
                    };
                    let l = match self.chars.char_at_line_end(target) {
                        Some(c) => Some(c.index),
                        None => None,
                    };
                    match (f, l) {
                        (Some(fi), Some(li)) => {
                            proof {
                                lemma_editor_cells(*self);
                                lemma_first_pos_of_line(self.chars@, target as int);
                                lemma_last_pos_of_line(self.chars@, target as int);
                            }
                            let t = if li - fi > cur_col {
                                fi + cur_col
                            } else {
                                li
                            };
                            self.set_cursor(SetCursor::Assign, t);
                        },
                        _ => {
                            self.set_cursor(SetCursor::Assign, blen);
                        },
                    }
                }
                self.scroll_to_cursor();
                proof {
                    lemma_scrolled_in_window(old(self).line_offset as int, cursor_line(*self));
                }
            },
            MoveAction::Home => {
                let (has_cur, cur_line, _cur_col) = match self.chars.char_at_index(self.cursor) {
                    Some(c) => (true, c.line, c.line_index),
                    None => (false, 0usize, 0usize),
                };
                let f = match self.chars.char_at_line_start(cur_line) {
                    Some(c) => Some(c.index),
                    None => None,
                };
                match f {
                    Some(fi) => {
                        self.set_cursor(SetCursor::Assign, fi);
                    },
                    None => {
                        self.set_cursor(SetCursor::Assign, 0);
                    },
                }
                self.scroll_to_cursor();
                proof {
                    lemma_scrolled_in_window(old(self).line_offset as int, cursor_line(*self));
                }
            },
            MoveAction::End => {
                let (has_cur, cur_line, _cur_col) = match self.chars.char_at_index(self.cursor) {
                    Some(c) => (true, c.line, c.line_index),
                    None => (false, 0usize, 0usize),
                };
                let blen = self.buffer.len();
                let l = match self.chars.char_at_line_end(cur_line) {
                    Some(c) => Some(c.index),
                    None => None,
                };
                let next_exists = if cur_line == usize::MAX {
                    proof {
                        lemma_no_line_past_max(&self.chars, cur_line as int + 1);
                    }
                    false
                } else {
                    match self.chars.char_at_line_start(cur_line + 1) {
                        Some(_) => true,
                        None => false,
                    }
                };
                match (l, next_exists) {
                    (Some(li), true) => {
                        self.set_cursor(SetCursor::Assign, li);
                    },
                    _ => {
                        self.set_cursor(SetCursor::Assign, blen);
                    },
                }
                self.scroll_to_cursor();
                proof {
                    lemma_scrolled_in_window(old(self).line_offset as int, cursor_line(*self));
                }
            },
            MoveAction::Enter => {
                self.write('\n');
            },
            MoveAction::Delete => {
                if self.cursor > 0 {
                    let cur = self.cursor - 1;
                    self.cursor = cur;
                    self.code.remove(cur);
                    self.refresh_chars();
                    self.scroll_to_cursor();
                    proof {
                        lemma_scrolled_in_window(old(self).line_offset as int, cursor_line(*self));
                    }
                }
            },
            MoveAction::Invalid => {},
        }
    }

    /// The placed characters from the viewport's top line to the end; the
    /// renderer clips to the window height itself.
    pub fn chars_window(&self) -> (r: Vec<Character>)
        requires
            wf(*self),
        ensures
            cells_of(r@) == self.chars@.skip(window_start(*self)),
    {
        let start = match self.chars.char_at_line_start(self.line_offset) {
            Some(c) => c.index,
            None => 0,
        };
        proof {
            lemma_editor_cells(*self);
            lemma_first_pos_of_line(self.chars@, self.line_offset as int);
        }
        let n = self.chars.chars.len();
        let mut r: Vec<Character> = Vec::new();
        let mut j: usize = start;
        while j < n
            invariant
                start <= j <= n,
                n == self.chars.chars@.len(),
                cells_of(r@) == self.chars@.subrange(start as int, j as int),
            decreases n - j,
        {
            let ghost pre = r@;
            let ch = self.chars.chars[j];
            r.push(ch);
            proof {
                lemma_cells_of_push(pre, ch);
                assert(cells_of(r@) =~= self.chars@.subrange(start as int, j as int + 1));
            }
            j = j + 1;
        }
        proof {
            assert(self.chars@.subrange(start as int, n as int) =~= self.chars@.skip(
                start as int,
            ));
        }
        r
    }
}

impl Editor {
    /// The cursor after a `set_cursor` call: set values and increments are
    /// clamped to the code's length, decrements saturate at 0.
    pub open spec fn set_cursor_spec(e: Editor, action: SetCursor, cursor: int) -> int {
        let max = e.code@.len() as int;
        match action {
            SetCursor::Assign => if cursor < max {
                cursor
            } else {
                max
            },
            SetCursor::Increment => if e.cursor + 1 < max {
                e.cursor + 1
            } else {
                max
            },
            SetCursor::Decrement => if e.cursor >= cursor {
                e.cursor - cursor
            } else {
                0
            },
        }
    }

    /// Moves the cursor: to a given position, one right, or some steps left;
    /// never below 0 nor past the code's end.
    pub fn set_cursor(&mut self, action: SetCursor, cursor: usize)
        ensures
            final(self).cursor as int == Editor::set_cursor_spec(*old(self), action, cursor as int),
            final(self).line_offset == old(self).line_offset,
            final(self).code == old(self).code,
            final(self).code_result == old(self).code_result,
            final(self).chars == old(self).chars,
            final(self).buffer == old(self).buffer,
            final(self).mode == old(self).mode,
    {
        let max = self.code.len();
        match action {
            SetCursor::Assign => {
                self.cursor = if cursor < max {
                    cursor
                } else {
                    max
                };
            },
            SetCursor::Increment => {
                self.cursor = if self.cursor < max {
                    self.cursor + 1
                } else {
                    max
                };
            },
            SetCursor::Decrement => {
                self.cursor = if self.cursor >= cursor {
                    self.cursor - cursor
                } else {
                    0
                };
            },
        }
    }

    /// Lays the active text out again: the buffer becomes the break-padded
    /// active text with a trailing blank, and the placed characters its
    /// layout at the wrap width.
    pub fn refresh_chars(&mut self)
        ensures
            refreshed(*final(self)),
            final(self).cursor == old(self).cursor,
            final(self).line_offset == old(self).line_offset,
            final(self).code == old(self).code,
            final(self).code_result == old(self).code_result,
            final(self).mode == old(self).mode,
    {
        let mut buffer = if self.mode == EditorMode::Edit {
            replace_breaks(&self.code)
        } else {
            replace_breaks(&self.code_result)
        };
        buffer.push(' ');
        proof {
            assert(buffer@ =~= padded(active_text(*old(self))));
        }
        self.buffer = buffer;
        self.chars = Characters::from_chars(&self.buffer, WRAP_WIDTH);
    }

    /// Brings the viewport to the cursor: snap up when the cursor's line is
    /// above it, scroll down when it fell off the bottom, else stay.
    fn scroll_to_cursor(&mut self)
        ensures
            final(self).line_offset as int == scrolled(
                old(self).line_offset as int,
                cursor_line(*old(self)),
            ),
            final(self).cursor == old(self).cursor,
            final(self).code == old(self).code,
            final(self).code_result == old(self).code_result,
            final(self).chars == old(self).chars,
            final(self).buffer == old(self).buffer,
            final(self).mode == old(self).mode,
    {
        let line = match self.chars.char_at_index(self.cursor) {
            Some(c) => c.line,
            None => 0,
        };
        if line < self.line_offset {
            self.line_offset = line;
        } else if line - self.line_offset >= WINDOW_HEIGHT {
            self.line_offset = line - (WINDOW_HEIGHT - 1);
        }
    }
}

} // verus!
