//! The layout engine: scans a text scalar-by-scalar and places every visible
//! character into a cell with a flat index, a line number, a column within the
//! line, and a flag saying whether the line was created by a forced wrap.
//!
//! An explicit line-break character opens a new line and is consumed without
//! occupying a cell. A line that fills up to the wrap width is continued on a
//! forced-wrap line; such a continuation line accepts exactly one more column
//! than the wrap width before wrapping again.

use vstd::prelude::*;

verus! {

/// The mathematical model of one placed character.
#[verifier::ext_equal]
pub struct CharCell {
    pub char: char,
    pub index: int,
    pub line: int,
    pub line_index: int,
    pub wrapped: bool,
}

/// The scanner's running state: current line, column within the line, whether
/// the current line is a forced-wrap continuation, and how many cells have
/// been emitted so far.
#[verifier::ext_equal]
pub struct ScanState {
    pub line: int,
    pub col: int,
    pub wrapping: bool,
    pub count: int,
}

/// Number of columns a line accepts before the next character wraps: a
/// forced-wrap continuation line accepts one more than the wrap width.
pub open spec fn wrap_limit(max: int, wrapping: bool) -> int {
    if wrapping {
        max + 1
    } else {
        max
    }
}

/// The scanner's state after consuming one character.
pub open spec fn step(st: ScanState, max: int, c: char) -> ScanState {
    if c == '\n' {
        ScanState { line: st.line + 1, col: 0, wrapping: false, count: st.count }
    } else if st.col >= wrap_limit(max, st.wrapping) {
        ScanState { line: st.line + 1, col: 1, wrapping: true, count: st.count + 1 }
    } else {
        ScanState { line: st.line, col: st.col + 1, wrapping: st.wrapping, count: st.count + 1 }
    }
}

/// The cells emitted for one character: none for a line break, one otherwise.
pub open spec fn emit(st: ScanState, max: int, c: char) -> Seq<CharCell> {
    if c == '\n' {
        Seq::<CharCell>::empty()
    } else if st.col >= wrap_limit(max, st.wrapping) {
        seq![(CharCell { char: c, index: st.count, line: st.line + 1, line_index: 0, wrapped: true })]
    } else {
        seq![(CharCell {
            char: c,
            index: st.count,
            line: st.line,
            line_index: st.col,
            wrapped: st.wrapping,
        })]
    }
}

/// All cells emitted while scanning `text` from state `st`.
pub open spec fn layout_from(text: Seq<char>, max: int, st: ScanState) -> Seq<CharCell>
    decreases text.len(),
{
    if text.len() == 0 {
        Seq::<CharCell>::empty()
    } else {
        emit(st, max, text[0]) + layout_from(text.drop_first(), max, step(st, max, text[0]))
    }
}

/// The scanner's state after consuming all of `text` from state `st`.
pub open spec fn scan(text: Seq<char>, max: int, st: ScanState) -> ScanState
    decreases text.len(),
{
    if text.len() == 0 {
        st
    } else {
        scan(text.drop_first(), max, step(st, max, text[0]))
    }
}

/// The scanner's initial state: line 0, column 0, not wrapping, no cells.
pub open spec fn start_state() -> ScanState {
    ScanState { line: 0, col: 0, wrapping: false, count: 0 }
}

/// The layout of a whole text at a given wrap width.
pub open spec fn layout(text: Seq<char>, max: int) -> Seq<CharCell> {
    layout_from(text, max, start_state())
}

/// Scanning one more character extends the emitted cells by that character's
/// own emission, taken at the state reached after the prefix.
pub proof fn lemma_layout_snoc(text: Seq<char>, max: int, st: ScanState, c: char)
    ensures
        layout_from(text.push(c), max, st) == layout_from(text, max, st) + emit(
            scan(text, max, st),
            max,
            c,
        ),
        scan(text.push(c), max, st) == step(scan(text, max, st), max, c),
    decreases text.len(),
{
    if text.len() == 0 {
        let one = text.push(c);
        assert(one.len() == 1);
        assert(one[0] == c);
        assert(one.drop_first() =~= Seq::<char>::empty());
        assert(scan(one.drop_first(), max, step(st, max, c)) == step(st, max, c));
        assert(scan(one, max, st) == step(st, max, c));
        assert(layout_from(one.drop_first(), max, step(st, max, c)) =~= Seq::<CharCell>::empty());
        assert(layout_from(one, max, st) =~= emit(st, max, c));
        assert(scan(text, max, st) == st);
        assert(layout_from(text, max, st) =~= Seq::<CharCell>::empty());
        assert(layout_from(text.push(c), max, st) =~= layout_from(text, max, st) + emit(
            scan(text, max, st),
            max,
            c,
        ));
    } else {
        assert(text.push(c)[0] == text[0]);
        assert(text.push(c).drop_first() =~= text.drop_first().push(c));
        lemma_layout_snoc(text.drop_first(), max, step(st, max, text[0]), c);
        assert(layout_from(text.push(c), max, st) =~= layout_from(text, max, st) + emit(
            scan(text, max, st),
            max,
            c,
        ));
    }
}

/// Mapping placed characters to their models commutes with appending one.
pub proof fn lemma_cells_of_push(chars: Seq<Character>, c: Character)
    ensures
        cells_of(chars.push(c)) == cells_of(chars).push(c@),
{
    assert(cells_of(chars.push(c)) =~= cells_of(chars).push(c@));
}


/// For a character other than a line break, exactly one cell is emitted, at
/// the position the scanner's state dictates.
pub proof fn lemma_emit_one(st: ScanState, max: int, c: char)
    requires
        c != '\n',
    ensures
        emit(st, max, c).len() == 1,
        emit(st, max, c)[0] == (if st.col >= wrap_limit(max, st.wrapping) {
            CharCell { char: c, index: st.count, line: st.line + 1, line_index: 0, wrapped: true }
        } else {
            CharCell {
                char: c,
                index: st.count,
                line: st.line,
                line_index: st.col,
                wrapped: st.wrapping,
            }
        }),
{
}


/// Count of the characters of a text that occupy a cell: all but the breaks.
pub open spec fn visible_count(text: Seq<char>) -> int
    decreases text.len(),
{
    if text.len() == 0 {
        0
    } else {
        (if text[0] == '\n' {
            0int
        } else {
            1int
        }) + visible_count(text.drop_first())
    }
}

/// Cells are emitted one per visible character, and their flat indexes are
/// dense: the k-th emitted cell carries index `st.count + k`.
pub proof fn lemma_cells_indexed(text: Seq<char>, max: int, st: ScanState)
    ensures
        layout_from(text, max, st).len() == visible_count(text),
        forall|k: int|
            0 <= k < layout_from(text, max, st).len() ==> (#[trigger] layout_from(
                text,
                max,
                st,
            )[k]).index == st.count + k,
    decreases text.len(),
{
    if text.len() == 0 {
    } else {
        let c = text[0];
        let rest = text.drop_first();
        let st2 = step(st, max, c);
        lemma_cells_indexed(rest, max, st2);
        if c == '\n' {
            assert(layout_from(text, max, st) =~= layout_from(rest, max, st2));
        } else {
            lemma_emit_one(st, max, c);
            assert forall|k: int| 0 <= k < layout_from(text, max, st).len() implies (
            #[trigger] layout_from(text, max, st)[k]).index == st.count + k by {
                if k > 0 {
                    assert(layout_from(text, max, st)[k] == layout_from(rest, max, st2)[k - 1]);
                }
            }
        }
    }
}

/// What every cell satisfies, relative to the state the scan began in.
pub open spec fn cell_ok(max: int, st: ScanState, cl: CharCell) -> bool {
    &&& cl.line >= st.line
    &&& 0 <= cl.line_index
    &&& cl.line_index < wrap_limit(max, cl.wrapped)
}

/// Every cell lies on or below the starting line, at a column within the
/// limit of its own line kind: below the wrap width on an ordinary line, at
/// most the wrap width on a forced-wrap continuation line.
pub proof fn lemma_cell_bounds(text: Seq<char>, max: int, st: ScanState)
    requires
        max >= 1,
        0 <= st.col,
    ensures
        forall|k: int|
            0 <= k < layout_from(text, max, st).len() ==> cell_ok(
                max,
                st,
                #[trigger] layout_from(text, max, st)[k],
            ),
    decreases text.len(),
{
    if text.len() == 0 {
    } else {
        let c = text[0];
        let rest = text.drop_first();
        let st2 = step(st, max, c);
        lemma_cell_bounds(rest, max, st2);
        if c == '\n' {
            assert(layout_from(text, max, st) =~= layout_from(rest, max, st2));
            assert forall|k: int| 0 <= k < layout_from(text, max, st).len() implies cell_ok(
                max,
                st,
                #[trigger] layout_from(text, max, st)[k],
            ) by {
                assert(cell_ok(max, st2, layout_from(rest, max, st2)[k]));
            }
        } else {
            lemma_emit_one(st, max, c);
            assert forall|k: int| 0 <= k < layout_from(text, max, st).len() implies cell_ok(
                max,
                st,
                #[trigger] layout_from(text, max, st)[k],
            ) by {
                if k > 0 {
                    assert(layout_from(text, max, st)[k] == layout_from(rest, max, st2)[k - 1]);
                    assert(cell_ok(max, st2, layout_from(rest, max, st2)[k - 1]));
                }
            }
        }
    }
}

/// The shapes the first emitted cell can take: the pending position itself, a
/// forced wrap directly past a full line, or the start of a later line opened
/// by explicit breaks.
pub open spec fn first_cell_ok(max: int, st: ScanState, f: CharCell) -> bool {
    ||| (st.col < wrap_limit(max, st.wrapping) && f.line == st.line && f.line_index == st.col
        && f.wrapped == st.wrapping)
    ||| (f.wrapped && f.line == st.line + 1 && f.line_index == 0 && st.col == wrap_limit(
        max,
        st.wrapping,
    ))
    ||| (!f.wrapped && f.line > st.line && f.line_index == 0)
}

/// The first emitted cell, if any, takes one of the shapes of `first_cell_ok`.
pub proof fn lemma_first_cell(text: Seq<char>, max: int, st: ScanState)
    requires
        max >= 1,
        0 <= st.col <= wrap_limit(max, st.wrapping),
    ensures
        layout_from(text, max, st).len() > 0 ==> first_cell_ok(
            max,
            st,
            layout_from(text, max, st)[0],
        ),
    decreases text.len(),
{
    if text.len() == 0 {
    } else {
        let c = text[0];
        let rest = text.drop_first();
        let st2 = step(st, max, c);
        if c == '\n' {
            lemma_first_cell(rest, max, st2);
            assert(layout_from(text, max, st) =~= layout_from(rest, max, st2));
        } else {
            lemma_emit_one(st, max, c);
        }
    }
}

/// The relation every two neighbouring cells satisfy: lines never decrease;
/// within one line the column advances by one and the wrap flag is shared; a
/// new line starts at column 0; and a new line flagged as a forced wrap sits
/// directly under a line that was exactly full.
pub open spec fn adjacent_ok(max: int, a: CharCell, b: CharCell) -> bool {
    &&& a.line <= b.line
    &&& (b.line == a.line ==> b.line_index == a.line_index + 1 && b.wrapped == a.wrapped)
    &&& (b.line != a.line ==> b.line_index == 0)
    &&& (b.line != a.line && b.wrapped ==> b.line == a.line + 1 && a.line_index + 1 == wrap_limit(
        max,
        a.wrapped,
    ))
}

/// All neighbouring pairs of a cell sequence satisfy `adjacent_ok`.
pub open spec fn cells_adjacent_ok(max: int, cells: Seq<CharCell>) -> bool {
    forall|m: int|
        0 <= m && m + 1 < cells.len() ==> adjacent_ok(max, #[trigger] cells[m], cells[m + 1])
}

/// Neighbouring emitted cells satisfy `adjacent_ok`.
pub proof fn lemma_cells_adjacent(text: Seq<char>, max: int, st: ScanState)
    requires
        max >= 1,
        0 <= st.col <= wrap_limit(max, st.wrapping),
    ensures
        cells_adjacent_ok(max, layout_from(text, max, st)),
    decreases text.len(),
{
    if text.len() == 0 {
    } else {
        let c = text[0];
        let rest = text.drop_first();
        let st2 = step(st, max, c);
        let r = layout_from(text, max, st);
        let r2 = layout_from(rest, max, st2);
        if c == '\n' {
            lemma_cells_adjacent(rest, max, st2);
            assert(r =~= r2);
            assert forall|m: int| 0 <= m && m + 1 < r.len() implies adjacent_ok(
                max,
                #[trigger] r[m],
                r[m + 1],
            ) by {
                assert(adjacent_ok(max, r2[m], r2[m + 1]));
            }
        } else {
            lemma_emit_one(st, max, c);
            lemma_cells_adjacent(rest, max, st2);
            lemma_first_cell(rest, max, st2);
            assert forall|m: int| 0 <= m && m + 1 < r.len() implies adjacent_ok(
                max,
                #[trigger] r[m],
                r[m + 1],
            ) by {
                if m == 0 {
                    assert(r[1] == r2[0]);
                    assert(first_cell_ok(max, st2, r2[0]));
                } else {
                    assert(r[m] == r2[m - 1]);
                    assert(r[m + 1] == r2[m]);
                    assert(adjacent_ok(max, r2[m - 1], r2[m]));
                }
            }
        }
    }
}

/// From a state that is not inside a forced-wrap line, every cell flagged as
/// wrapped lies strictly below the starting line.
pub proof fn lemma_unwrapped_start(text: Seq<char>, max: int, st: ScanState)
    requires
        max >= 1,
        0 <= st.col,
        !st.wrapping,
    ensures
        forall|k: int|
            0 <= k < layout_from(text, max, st).len() && (#[trigger] layout_from(
                text,
                max,
                st,
            )[k]).wrapped ==> layout_from(text, max, st)[k].line > st.line,
    decreases text.len(),
{
    if text.len() == 0 {
    } else {
        let c = text[0];
        let rest = text.drop_first();
        let st2 = step(st, max, c);
        let r = layout_from(text, max, st);
        let r2 = layout_from(rest, max, st2);
        if c == '\n' {
            lemma_unwrapped_start(rest, max, st2);
            assert(r =~= r2);
            assert forall|k: int| 0 <= k < r.len() && (#[trigger] r[k]).wrapped implies r[k].line
                > st.line by {
                assert(r2[k].wrapped && r2[k].line > st2.line);
            }
        } else if st.col >= wrap_limit(max, st.wrapping) {
            lemma_emit_one(st, max, c);
            lemma_cell_bounds(rest, max, st2);
            assert forall|k: int| 0 <= k < r.len() && (#[trigger] r[k]).wrapped implies r[k].line
                > st.line by {
                if k > 0 {
                    assert(r[k] == r2[k - 1]);
                    assert(cell_ok(max, st2, r2[k - 1]));
                }
            }
        } else {
            lemma_emit_one(st, max, c);
            lemma_unwrapped_start(rest, max, st2);
            assert forall|k: int| 0 <= k < r.len() && (#[trigger] r[k]).wrapped implies r[k].line
                > st.line by {
                if k > 0 {
                    assert(r[k] == r2[k - 1]);
                }
            }
        }
    }
}

/// Along any neighbour-respecting cell sequence, line numbers never decrease.
pub proof fn lemma_line_monotone(cells: Seq<CharCell>, max: int, j: int, k: int)
    requires
        cells_adjacent_ok(max, cells),
        0 <= j <= k < cells.len(),
    ensures
        cells[j].line <= cells[k].line,
    decreases k - j,
{
    if j < k {
        lemma_line_monotone(cells, max, j, k - 1);
        assert(adjacent_ok(max, cells[k - 1], cells[k]));
    }
}

/// Two cells on one line enclose only cells of that line, at consecutive
/// columns, all sharing the wrap flag.
pub proof fn lemma_same_line_block(cells: Seq<CharCell>, max: int, j: int, k: int)
    requires
        cells_adjacent_ok(max, cells),
        0 <= j <= k < cells.len(),
        cells[j].line == cells[k].line,
    ensures
        cells[k].line_index == cells[j].line_index + (k - j),
        cells[k].wrapped == cells[j].wrapped,
        forall|m: int| j <= m <= k ==> (#[trigger] cells[m]).line == cells[j].line,
    decreases k - j,
{
    if j < k {
        lemma_line_monotone(cells, max, j, k - 1);
        lemma_line_monotone(cells, max, k - 1, k);
        assert(adjacent_ok(max, cells[k - 1], cells[k]));
        assert(cells[k - 1].line == cells[j].line);
        lemma_same_line_block(cells, max, j, k - 1);
    }
}

/// Scanning a concatenation first scans the left part, then the right part
/// from the state the left part ends in.
pub proof fn lemma_layout_split(a: Seq<char>, b: Seq<char>, max: int, st: ScanState)
    ensures
        layout_from(a + b, max, st) == layout_from(a, max, st) + layout_from(
            b,
            max,
            scan(a, max, st),
        ),
        scan(a + b, max, st) == scan(b, max, scan(a, max, st)),
    decreases b.len(),
{
    if b.len() == 0 {
        assert(a + b =~= a);
        assert(layout_from(a + b, max, st) =~= layout_from(a, max, st) + layout_from(
            b,
            max,
            scan(a, max, st),
        ));
    } else {
        let b0 = b.drop_last();
        let c = b.last();
        assert(a + b =~= (a + b0).push(c));
        assert(b =~= b0.push(c));
        lemma_layout_split(a, b0, max, st);
        lemma_layout_snoc(a + b0, max, st, c);
        lemma_layout_snoc(b0, max, scan(a, max, st), c);
        assert(layout_from(a + b, max, st) =~= layout_from(a, max, st) + layout_from(
            b,
            max,
            scan(a, max, st),
        ));
    }
}

/// The first cell emitted after an explicit break starts its line at column 0
/// and is not marked as a forced wrap; its position in the layout is the
/// number of visible characters up to and including the break.
pub proof fn lemma_break_starts_line_unwrapped(text: Seq<char>, max: int, i: int)
    requires
        max >= 1,
        0 <= i < text.len(),
        text[i] == '\n',
    ensures
        visible_count(text.subrange(0, i + 1)) < layout(text, max).len() ==> {
            let f = layout(text, max)[visible_count(text.subrange(0, i + 1))];
            f.line_index == 0 && !f.wrapped
        },
{
    let pre = text.subrange(0, i + 1);
    let suf = text.subrange(i + 1, text.len() as int);
    assert(text =~= pre + suf);
    lemma_layout_split(pre, suf, max, start_state());
    lemma_cells_indexed(pre, max, start_state());
    let st1 = scan(pre, max, start_state());
    assert(pre =~= text.subrange(0, i).push('\n'));
    lemma_layout_snoc(text.subrange(0, i), max, start_state(), '\n');
    assert(st1.col == 0 && !st1.wrapping);
    lemma_first_cell(suf, max, st1);
    let k = visible_count(pre);
    if k < layout(text, max).len() {
        assert(layout(text, max)[k] == layout_from(suf, max, st1)[0]);
        assert(first_cell_ok(max, st1, layout_from(suf, max, st1)[0]));
    }
}


/// The first cell carrying the given flat index, scanning forward.
pub open spec fn find_at(cells: Seq<CharCell>, index: int) -> Option<CharCell>
    decreases cells.len(),
{
    if cells.len() == 0 {
        None
    } else if cells[0].index == index {
        Some(cells[0])
    } else {
        find_at(cells.drop_first(), index)
    }
}

/// Position of the first cell on the given line, scanning forward.
pub open spec fn first_pos_of_line(cells: Seq<CharCell>, line: int) -> Option<int>
    decreases cells.len(),
{
    if cells.len() == 0 {
        None
    } else if cells[0].line == line {
        Some(0int)
    } else {
        match first_pos_of_line(cells.drop_first(), line) {
            Some(p) => Some(p + 1),
            None => None,
        }
    }
}

/// The first cell on the given line, scanning forward.
pub open spec fn first_of_line(cells: Seq<CharCell>, line: int) -> Option<CharCell> {
    match first_pos_of_line(cells, line) {
        Some(p) => Some(cells[p]),
        None => None,
    }
}

/// Position of the last cell on the given line, scanning backward.
pub open spec fn last_pos_of_line(cells: Seq<CharCell>, line: int) -> Option<int>
    decreases cells.len(),
{
    if cells.len() == 0 {
        None
    } else if cells.last().line == line {
        Some(cells.len() - 1)
    } else {
        last_pos_of_line(cells.drop_last(), line)
    }
}

/// The last cell on the given line, scanning backward.
pub open spec fn last_of_line(cells: Seq<CharCell>, line: int) -> Option<CharCell> {
    match last_pos_of_line(cells, line) {
        Some(p) => Some(cells[p]),
        None => None,
    }
}

/// What the position of the first cell of a line means: it lies on the line,
/// everything before it does not; a `None` means the line has no cell.
pub proof fn lemma_first_pos_of_line(cells: Seq<CharCell>, line: int)
    ensures
        match first_pos_of_line(cells, line) {
            Some(p) => 0 <= p < cells.len() && cells[p].line == line && (forall|m: int|
                0 <= m < p ==> (#[trigger] cells[m]).line != line),
            None => forall|m: int| 0 <= m < cells.len() ==> (#[trigger] cells[m]).line != line,
        },
    decreases cells.len(),
{
    if cells.len() == 0 {
    } else if cells[0].line == line {
    } else {
        lemma_first_pos_of_line(cells.drop_first(), line);
        match first_pos_of_line(cells.drop_first(), line) {
            Some(p) => {
                assert forall|m: int| 0 <= m < p + 1 implies (#[trigger] cells[m]).line
                    != line by {
                    if m > 0 {
                        assert(cells.drop_first()[m - 1].line != line);
                    }
                }
            },
            None => {
                assert forall|m: int| 0 <= m < cells.len() implies (#[trigger] cells[m]).line
                    != line by {
                    if m > 0 {
                        assert(cells.drop_first()[m - 1].line != line);
                    }
                }
            },
        }
    }
}

/// What the position of the last cell of a line means: it lies on the line,
/// everything after it does not; a `None` means the line has no cell.
pub proof fn lemma_last_pos_of_line(cells: Seq<CharCell>, line: int)
    ensures
        match last_pos_of_line(cells, line) {
            Some(p) => 0 <= p < cells.len() && cells[p].line == line && (forall|m: int|
                p < m < cells.len() ==> (#[trigger] cells[m]).line != line),
            None => forall|m: int| 0 <= m < cells.len() ==> (#[trigger] cells[m]).line != line,
        },
    decreases cells.len(),
{
    if cells.len() == 0 {
    } else if cells.last().line == line {
    } else {
        lemma_last_pos_of_line(cells.drop_last(), line);
        match last_pos_of_line(cells.drop_last(), line) {
            Some(p) => {
                assert(cells.drop_last()[p] == cells[p]);
                assert forall|m: int| p < m < cells.len() implies (#[trigger] cells[m]).line
                    != line by {
                    if m < cells.len() - 1 {
                        assert(cells.drop_last()[m].line != line);
                        assert(cells.drop_last()[m] == cells[m]);
                    }
                }
            },
            None => {
                assert forall|m: int| 0 <= m < cells.len() implies (#[trigger] cells[m]).line
                    != line by {
                    if m < cells.len() - 1 {
                        assert(cells.drop_last()[m].line != line);
                        assert(cells.drop_last()[m] == cells[m]);
                    }
                }
            },
        }
    }
}

/// Searching for a flat index in cells whose indexes run consecutively from
/// `off` finds exactly the cell at the matching position.
pub proof fn lemma_find_at_indexed(cells: Seq<CharCell>, index: int, off: int)
    requires
        forall|k: int| 0 <= k < cells.len() ==> (#[trigger] cells[k]).index == off + k,
    ensures
        find_at(cells, index) == (if off <= index < off + cells.len() {
            Some(cells[index - off])
        } else {
            Option::<CharCell>::None
        }),
    decreases cells.len(),
{
    if cells.len() == 0 {
    } else if cells[0].index == index {
    } else {
        assert forall|k: int| 0 <= k < cells.drop_first().len() implies (
        #[trigger] cells.drop_first()[k]).index == off + 1 + k by {
            assert(cells.drop_first()[k] == cells[k + 1]);
        }
        lemma_find_at_indexed(cells.drop_first(), index, off + 1);
        if off <= index < off + cells.len() {
            assert(cells.drop_first()[index - off - 1] == cells[index - off]);
        }
    }
}


/// Scanning for a flat index past a prefix that does not carry it finds the
/// same cell as scanning the whole sequence.
pub proof fn lemma_find_at_skip(cells: Seq<CharCell>, index: int, j: int)
    requires
        0 <= j <= cells.len(),
        forall|m: int| 0 <= m < j ==> (#[trigger] cells[m]).index != index,
    ensures
        find_at(cells, index) == find_at(cells.subrange(j, cells.len() as int), index),
    decreases j,
{
    if j > 0 {
        assert(cells[0].index != index);
        assert forall|m: int| 0 <= m < j - 1 implies (#[trigger] cells.drop_first()[m]).index
            != index by {
            assert(cells.drop_first()[m] == cells[m + 1]);
        }
        lemma_find_at_skip(cells.drop_first(), index, j - 1);
        assert(cells.drop_first().subrange(j - 1, cells.drop_first().len() as int) =~= cells
            .subrange(j, cells.len() as int));
    } else {
        assert(cells.subrange(0, cells.len() as int) =~= cells);
    }
}

/// Scanning for a line past a prefix that does not touch it finds the same
/// position as scanning the whole sequence, shifted by the prefix.
pub proof fn lemma_first_pos_skip(cells: Seq<CharCell>, line: int, j: int)
    requires
        0 <= j <= cells.len(),
        forall|m: int| 0 <= m < j ==> (#[trigger] cells[m]).line != line,
    ensures
        first_pos_of_line(cells, line) == match first_pos_of_line(
            cells.subrange(j, cells.len() as int),
            line,
        ) {
            Some(p) => Some(p + j),
            None => Option::<int>::None,
        },
    decreases j,
{
    if j > 0 {
        assert(cells[0].line != line);
        assert forall|m: int| 0 <= m < j - 1 implies (#[trigger] cells.drop_first()[m]).line
            != line by {
            assert(cells.drop_first()[m] == cells[m + 1]);
        }
        lemma_first_pos_skip(cells.drop_first(), line, j - 1);
        assert(cells.drop_first().subrange(j - 1, cells.drop_first().len() as int) =~= cells
            .subrange(j, cells.len() as int));
    } else {
        assert(cells.subrange(0, cells.len() as int) =~= cells);
    }
}

/// Scanning backward for a line above a suffix that does not touch it finds
/// the same position as scanning the whole sequence.
pub proof fn lemma_last_pos_take(cells: Seq<CharCell>, line: int, j: int)
    requires
        0 <= j <= cells.len(),
        forall|m: int| j <= m < cells.len() ==> (#[trigger] cells[m]).line != line,
    ensures
        last_pos_of_line(cells, line) == last_pos_of_line(cells.subrange(0, j), line),
    decreases cells.len() - j,
{
    if j == cells.len() {
        assert(cells.subrange(0, j) =~= cells);
    } else {
        assert(cells.last().line != line);
        assert forall|m: int| j <= m < cells.drop_last().len() implies (
        #[trigger] cells.drop_last()[m]).line != line by {
            assert(cells.drop_last()[m] == cells[m]);
        }
        lemma_last_pos_take(cells.drop_last(), line, j);
        assert(cells.drop_last().subrange(0, j) =~= cells.subrange(0, j));
    }
}

/// A text with every explicit break preceded by a padding blank, so that each
/// break is announced by a visible cell.
pub open spec fn replaced(text: Seq<char>) -> Seq<char>
    decreases text.len(),
{
    if text.len() == 0 {
        Seq::<char>::empty()
    } else {
        (if text[0] == '\n' {
            seq![' ', '\n']
        } else {
            seq![text[0]]
        }) + replaced(text.drop_first())
    }
}

/// Padding breaks commutes with appending one character.
pub proof fn lemma_replaced_snoc(text: Seq<char>, c: char)
    ensures
        replaced(text.push(c)) == replaced(text) + (if c == '\n' {
            seq![' ', '\n']
        } else {
            seq![c]
        }),
    decreases text.len(),
{
    if text.len() == 0 {
        let one = text.push(c);
        assert(one.len() == 1);
        assert(one[0] == c);
        assert(one.drop_first() =~= Seq::<char>::empty());
        assert(replaced(one.drop_first()) =~= Seq::<char>::empty());
        assert(replaced(text) =~= Seq::<char>::empty());
        assert(replaced(text.push(c)) =~= replaced(text) + (if c == '\n' {
            seq![' ', '\n']
        } else {
            seq![c]
        }));
    } else {
        assert(text.push(c)[0] == text[0]);
        assert(text.push(c).drop_first() =~= text.drop_first().push(c));
        lemma_replaced_snoc(text.drop_first(), c);
        assert(replaced(text.push(c)) =~= replaced(text) + (if c == '\n' {
            seq![' ', '\n']
        } else {
            seq![c]
        }));
    }
}

/// Copies the characters of a string slice into a vector.
pub fn chars_of(text: &str) -> (r: Vec<char>)
    ensures
        r@ == text@,
{
    let n = text.unicode_len();
    let mut r: Vec<char> = Vec::new();
    let mut i: usize = 0;
    while i < n
        invariant
            i <= n,
            n == text@.len(),
            r@ == text@.subrange(0, i as int),
        decreases n - i,
    {
        let c = text.get_char(i);
        r.push(c);
        proof {
            assert(r@ =~= text@.subrange(0, i as int + 1));
        }
        i = i + 1;
    }
    proof {
        assert(text@.subrange(0, n as int) =~= text@);
    }
    r
}

/// Builds the break-padded copy of a text: a blank before every explicit
/// break, other characters unchanged.
pub fn replace_breaks(text: &Vec<char>) -> (r: Vec<char>)
    ensures
        r@ == replaced(text@),
{
    let n = text.len();
    let mut r: Vec<char> = Vec::new();
    let mut i: usize = 0;
    while i < n
        invariant
            i <= n,
            n == text@.len(),
            r@ == replaced(text@.subrange(0, i as int)),
        decreases n - i,
    {
        let c = text[i];
        proof {
            lemma_replaced_snoc(text@.subrange(0, i as int), c);
            assert(text@.subrange(0, i as int + 1) =~= text@.subrange(0, i as int).push(c));
        }
        if c == '\n' {
            r.push(' ');
            r.push('\n');
        } else {
            r.push(c);
        }
        proof {
            assert(r@ =~= replaced(text@.subrange(0, i as int + 1)));
        }
        i = i + 1;
    }
    proof {
        assert(text@.subrange(0, n as int) =~= text@);
    }
    r
}

/// Lays a string out at the given wrap width, after padding its breaks as the
/// display device shows them: one visible blank cell ahead of each break.
pub fn string_to_chars(string: String, max_chars: usize) -> (r: Vec<Character>)
    requires
        max_chars >= 1,
    ensures
        cells_of(r@) == layout(replaced(string@), max_chars as int),
{
    let text = chars_of(string.as_str());
    let padded_text = replace_breaks(&text);
    Characters::from_chars(&padded_text, max_chars).chars
}


/// The text a buffer is displayed as: its break-padded copy with one trailing
/// blank, so that a cursor at the very end still has a cell to sit on.
pub open spec fn padded(text: Seq<char>) -> Seq<char> {
    replaced(text) + seq![' ']
}

/// A padded text always starts with a visible character.
pub proof fn lemma_padded_head(text: Seq<char>)
    ensures
        padded(text).len() > 0,
        padded(text)[0] != '\n',
{
    if text.len() == 0 {
        assert(replaced(text) =~= Seq::<char>::empty());
        assert(padded(text)[0] == ' ');
    } else if text[0] == '\n' {
        assert(padded(text)[0] == ' ');
    } else {
        assert(padded(text)[0] == text[0]);
    }
}


/// Law: a layout assigns flat indexes exactly `0 .. n`, in order, where `n`
/// is the count of the text's visible characters.
pub proof fn lemma_flat_indexes_dense(text: Seq<char>, max: int)
    ensures
        layout(text, max).len() == visible_count(text),
        forall|k: int|
            0 <= k < layout(text, max).len() ==> (#[trigger] layout(text, max)[k]).index == k,
{
    lemma_cells_indexed(text, max, start_state());
}

/// Law: line numbers never decrease along a layout; within a line the column
/// advances by one, and every cell that opens a new line sits at column 0.
pub proof fn lemma_lines_monotone(text: Seq<char>, max: int)
    requires
        max >= 1,
    ensures
        forall|k: int|
            0 < k < layout(text, max).len() ==> (#[trigger] layout(text, max)[k]).line >= layout(
                text,
                max,
            )[k - 1].line,
        forall|k: int|
            0 < k < layout(text, max).len() && (#[trigger] layout(text, max)[k]).line == layout(
                text,
                max,
            )[k - 1].line ==> layout(text, max)[k].line_index == layout(text, max)[k
                - 1].line_index + 1,
        forall|k: int|
            0 < k < layout(text, max).len() && (#[trigger] layout(text, max)[k]).line != layout(
                text,
                max,
            )[k - 1].line ==> layout(text, max)[k].line_index == 0,
{
    lemma_cells_adjacent(text, max, start_state());
    assert forall|k: int| 0 < k < layout(text, max).len() implies adjacent_ok(
        max,
        layout(text, max)[k - 1],
        #[trigger] layout(text, max)[k],
    ) by {
        assert(adjacent_ok(max, layout(text, max)[k - 1], layout(text, max)[(k - 1) + 1]));
    }
}

/// Law: no cell on line 0 is flagged as a forced wrap; cells of one line all
/// share the flag; and a cell that opens a line under the flag sits directly
/// below a line that was exactly full — a line created by exceeding the wrap
/// width, not by a break.
pub proof fn lemma_wrap_flags(text: Seq<char>, max: int)
    requires
        max >= 1,
    ensures
        forall|k: int|
            0 <= k < layout(text, max).len() && (#[trigger] layout(text, max)[k]).line == 0
                ==> !layout(text, max)[k].wrapped,
        forall|j: int, k: int|
            0 <= j <= k < layout(text, max).len() && (#[trigger] layout(text, max)[j]).line == (
            #[trigger] layout(text, max)[k]).line ==> layout(text, max)[j].wrapped == layout(
                text,
                max,
            )[k].wrapped,
        forall|k: int|
            0 < k < layout(text, max).len() && (#[trigger] layout(text, max)[k]).line != layout(
                text,
                max,
            )[k - 1].line && layout(text, max)[k].wrapped ==> layout(text, max)[k].line == layout(
                text,
                max,
            )[k - 1].line + 1 && layout(text, max)[k - 1].line_index + 1 == wrap_limit(
                max,
                layout(text, max)[k - 1].wrapped,
            ),
{
    lemma_unwrapped_start(text, max, start_state());
    lemma_cells_adjacent(text, max, start_state());
    assert forall|j: int, k: int|
        0 <= j <= k < layout(text, max).len() && (#[trigger] layout(text, max)[j]).line == (
        #[trigger] layout(text, max)[k]).line implies layout(text, max)[j].wrapped == layout(
        text,
        max,
    )[k].wrapped by {
        lemma_same_line_block(layout(text, max), max, j, k);
    }
    assert forall|k: int|
        0 < k < layout(text, max).len() && (#[trigger] layout(text, max)[k]).line != layout(
            text,
            max,
        )[k - 1].line && layout(text, max)[k].wrapped implies layout(text, max)[k].line == layout(
        text,
        max,
    )[k - 1].line + 1 && layout(text, max)[k - 1].line_index + 1 == wrap_limit(
        max,
        layout(text, max)[k - 1].wrapped,
    ) by {
        assert(adjacent_ok(max, layout(text, max)[k - 1], layout(text, max)[(k - 1) + 1]));
    }
}

/// Law: an ordinary line holds at most the wrap width of columns, a
/// forced-wrap continuation line exactly one more.
pub proof fn lemma_line_capacity(text: Seq<char>, max: int)
    requires
        max >= 1,
    ensures
        forall|k: int|
            0 <= k < layout(text, max).len() && (#[trigger] layout(text, max)[k]).wrapped
                ==> layout(text, max)[k].line_index <= max,
        forall|k: int|
            0 <= k < layout(text, max).len() && !(#[trigger] layout(text, max)[k]).wrapped
                ==> layout(text, max)[k].line_index <= max - 1,
{
    lemma_cell_bounds(text, max, start_state());
    assert forall|k: int| 0 <= k < layout(text, max).len() implies cell_ok(
        max,
        start_state(),
        #[trigger] layout(text, max)[k],
    ) by {}
}

/// Padding breaks never shortens a text.
pub proof fn lemma_replaced_len(text: Seq<char>)
    ensures
        replaced(text).len() >= text.len(),
    decreases text.len(),
{
    if text.len() > 0 {
        lemma_replaced_len(text.drop_first());
    }
}

/// Visible characters count up over a concatenation.
pub proof fn lemma_visible_count_split(a: Seq<char>, b: Seq<char>)
    ensures
        visible_count(a + b) == visible_count(a) + visible_count(b),
    decreases a.len(),
{
    if a.len() == 0 {
        assert(a + b =~= b);
    } else {
        assert((a + b).drop_first() =~= a.drop_first() + b);
        lemma_visible_count_split(a.drop_first(), b);
    }
}


/// One character shows one cell, unless it is a break.
pub proof fn lemma_visible_one(c: char)
    ensures
        visible_count(seq![c]) == (if c == '\n' {
            0int
        } else {
            1int
        }),
{
    assert(seq![c].len() == 1);
    assert(seq![c][0] == c);
    assert(seq![c].drop_first() =~= Seq::<char>::empty());
    assert(visible_count(Seq::<char>::empty()) == 0);
}

/// A break-padded text shows exactly one cell per original character: breaks
/// lose their cell but gain the padding blank.
pub proof fn lemma_replaced_visible(text: Seq<char>)
    ensures
        visible_count(replaced(text)) == text.len(),
    decreases text.len(),
{
    if text.len() > 0 {
        lemma_replaced_visible(text.drop_first());
        if text[0] == '\n' {
            lemma_visible_count_split(seq![' ', '\n'], replaced(text.drop_first()));
            assert(seq![' ', '\n'] =~= seq![' '] + seq!['\n']);
            lemma_visible_count_split(seq![' '], seq!['\n']);
            lemma_visible_one(' ');
            lemma_visible_one('\n');
            assert(visible_count(seq![' ', '\n']) == 1);
        } else {
            lemma_visible_count_split(seq![text[0]], replaced(text.drop_first()));
            lemma_visible_one(text[0]);
            assert(visible_count(seq![text[0]]) == 1);
        }
    }
}

/// A buffer padded from a text shows one cell per character plus the
/// trailing blank.
pub proof fn lemma_padded_visible(text: Seq<char>)
    ensures
        visible_count(padded(text)) == text.len() + 1,
{
    lemma_replaced_visible(text);
    lemma_visible_count_split(replaced(text), seq![' ']);
    lemma_visible_one(' ');
    assert(visible_count(seq![' ']) == 1);
}

/// A layout's first cell sits at column 0.
pub proof fn lemma_layout_head(text: Seq<char>, max: int)
    requires
        max >= 1,
    ensures
        layout(text, max).len() > 0 ==> layout(text, max)[0].line_index == 0,
{
    lemma_first_cell(text, max, start_state());
}

/// One placed character, as the engine hands it out.
#[derive(Debug, Clone, Copy, PartialEq, Eq, PartialOrd, Ord, Hash, Default)]
pub struct Character {
    pub char: char,
    pub index: usize,
    pub line_index: usize,
    pub line: usize,
    pub wrapped: bool,
}

impl View for Character {
    type V = CharCell;

    open spec fn view(&self) -> CharCell {
        CharCell {
            char: self.char,
            index: self.index as int,
            line: self.line as int,
            line_index: self.line_index as int,
            wrapped: self.wrapped,
        }
    }
}

/// The models of a sequence of placed characters.
pub open spec fn cells_of(chars: Seq<Character>) -> Seq<CharCell> {
    chars.map_values(|c: Character| c@)
}

/// A laid-out text: placed characters in document order.
#[derive(Debug, Clone, PartialEq, Eq, PartialOrd, Ord, Hash, Default)]
pub struct Characters {
    pub chars: Vec<Character>,
}

impl View for Characters {
    type V = Seq<CharCell>;

    open spec fn view(&self) -> Seq<CharCell> {
        cells_of(self.chars@)
    }
}

impl Characters {
    pub fn new(chars: Vec<Character>) -> (r: Self)
        ensures
            r.chars == chars,
    {
        Self { chars }
    }

    /// Lays `text` out at wrap width `max_chars`.
    pub fn from_chars(text: &Vec<char>, max_chars: usize) -> (r: Self)
        requires
            max_chars >= 1,
        ensures
            r@ == layout(text@, max_chars as int),
    {
        let mut chars: Vec<Character> = Vec::new();
        let mut line: usize = 0;
        let mut line_index: usize = 0;
        let mut wrapping: bool = false;
        let mut count: usize = 0;
        let n = text.len();
        let mut i: usize = 0;
        while i < n
            invariant
                i <= n,
                n == text@.len(),
                max_chars >= 1,
                line <= i,
                line_index <= i,
                count <= i,
                count == chars@.len(),
                cells_of(chars@) == layout_from(
                    text@.subrange(0, i as int),
                    max_chars as int,
                    start_state(),
                ),
                scan(text@.subrange(0, i as int), max_chars as int, start_state()) == (ScanState {
                    line: line as int,
                    col: line_index as int,
                    wrapping: wrapping,
                    count: count as int,
                }),
            decreases n - i,
        {
            let c = text[i];
            let ghost prefix = text@.subrange(0, i as int);
            let ghost st = ScanState {
                line: line as int,
                col: line_index as int,
                wrapping: wrapping,
                count: count as int,
            };
            proof {
                lemma_layout_snoc(prefix, max_chars as int, start_state(), c);
                assert(text@.subrange(0, i as int + 1) =~= prefix.push(c));
            }
            if c == '\n' {
                line_index = 0;
                line = line + 1;
                wrapping = false;
                proof {
                    assert(emit(st, max_chars as int, c) =~= Seq::<CharCell>::empty());
                    assert(cells_of(chars@) =~= layout_from(
                        prefix.push(c),
                        max_chars as int,
                        start_state(),
                    ));
                }
            } else {
                let wrap_now = if wrapping {
                    line_index > max_chars
                } else {
                    line_index >= max_chars
                };
                if wrap_now {
                    line_index = 0;
                    line = line + 1;
                    wrapping = true;
                }
                let ghost old_chars = chars@;
                let placed = Character {
                    char: c,
                    index: count,
                    line: line,
                    line_index: line_index,
                    wrapped: wrapping,
                };
                chars.push(placed);
                line_index = line_index + 1;
                count = count + 1;
                proof {
                    lemma_cells_of_push(old_chars, placed);
                    assert(chars@ == old_chars.push(placed));
                    lemma_emit_one(st, max_chars as int, c);
                    assert(emit(st, max_chars as int, c)[0] == placed@);
                    assert(emit(st, max_chars as int, c) =~= seq![placed@]);
                    assert(cells_of(chars@) =~= layout_from(
                        prefix.push(c),
                        max_chars as int,
                        start_state(),
                    ));
                }
            }
            i = i + 1;
        }
        proof {
            assert(text@.subrange(0, n as int) =~= text@);
        }
        Self { chars }
    }

    /// Lays a string out at the given wrap width.
    pub fn from_string(string: &str, max_chars: usize) -> (r: Self)
        requires
            max_chars >= 1,
        ensures
            r@ == layout(string@, max_chars as int),
    {
        let text = chars_of(string);
        Self::from_chars(&text, max_chars)
    }

    /// The first placed character carrying the given flat index, if any.
    pub fn char_at_index(&self, index: usize) -> (r: Option<&Character>)
        ensures
            match r {
                Some(c) => find_at(self@, index as int) == Some(c@),
                None => find_at(self@, index as int) is None,
            },
    {
        let n = self.chars.len();
        let mut j: usize = 0;
        while j < n
            invariant
                j <= n,
                n == self.chars.len(),
                forall|m: int| 0 <= m < j ==> (#[trigger] self@[m]).index != index as int,
            decreases n - j,
        {
            if self.chars[j].index == index {
                proof {
                    lemma_find_at_skip(self@, index as int, j as int);
                    assert(self@.subrange(j as int, self@.len() as int)[0] == self@[j as int]);
                }
                return Some(&self.chars[j]);
            }
            proof {
                assert(self@[j as int] == self.chars@[j as int]@);
            }
            j = j + 1;
        }
        proof {
            lemma_find_at_skip(self@, index as int, n as int);
            assert(self@.subrange(n as int, self@.len() as int) =~= Seq::<CharCell>::empty());
        }
        None
    }

    /// The first placed character of the given line, if the line exists.
    pub fn char_at_line_start(&self, line: usize) -> (r: Option<&Character>)
        ensures
            match r {
                Some(c) => first_of_line(self@, line as int) == Some(c@),
                None => first_of_line(self@, line as int) is None,
            },
    {
        let n = self.chars.len();
        let mut j: usize = 0;
        while j < n
            invariant
                j <= n,
                n == self.chars.len(),
                forall|m: int| 0 <= m < j ==> (#[trigger] self@[m]).line != line as int,
            decreases n - j,
        {
            if self.chars[j].line == line {
                proof {
                    lemma_first_pos_skip(self@, line as int, j as int);
                    assert(self@.subrange(j as int, self@.len() as int)[0] == self@[j as int]);
                }
                return Some(&self.chars[j]);
            }
            proof {
                assert(self@[j as int] == self.chars@[j as int]@);
            }
            j = j + 1;
        }
        proof {
            lemma_first_pos_skip(self@, line as int, n as int);
            assert(self@.subrange(n as int, self@.len() as int) =~= Seq::<CharCell>::empty());
        }
        None
    }

    /// The last placed character of the given line, if the line exists.
    pub fn char_at_line_end(&self, line: usize) -> (r: Option<&Character>)
        ensures
            match r {
                Some(c) => last_of_line(self@, line as int) == Some(c@),
                None => last_of_line(self@, line as int) is None,
            },
    {
        let n = self.chars.len();
        let mut j: usize = n;
        while j > 0
            invariant
                j <= n,
                n == self.chars.len(),
                forall|m: int| j <= m < n ==> (#[trigger] self@[m]).line != line as int,
            decreases j,
        {
            j = j - 1;
            if self.chars[j].line == line {
                proof {
                    lemma_last_pos_take(self@, line as int, j as int + 1);
                    assert(self@.subrange(0, j as int + 1).last() == self@[j as int]);
                }
                return Some(&self.chars[j]);
            }
            proof {
                assert(self@[j as int] == self.chars@[j as int]@);
            }
        }
        proof {
            lemma_last_pos_take(self@, line as int, 0);
            assert(self@.subrange(0, 0) =~= Seq::<CharCell>::empty());
        }
        None
    }
}

} // verus!

