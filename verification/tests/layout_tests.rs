use charpad::layout::Character;
use charpad::layout::Characters;
use charpad::layout::chars_of;
use charpad::layout::replace_breaks;
use charpad::layout::string_to_chars;

fn chars(s: &str) -> Vec<char> {
    s.chars().collect()
}

fn cells(s: &str, w: usize) -> Vec<Character> {
    Characters::from_string(s, w).chars
}

#[test]
fn empty_text_yields_empty_layout() {
    assert_eq!(cells("", 15).len(), 0);
}

#[test]
fn flat_indexes_are_dense_and_skip_breaks() {
    let r = cells("ab\ncd\n\ne", 15);
    assert_eq!(r.len(), 5);
    for (k, c) in r.iter().enumerate() {
        assert_eq!(c.index, k);
    }
    let letters: Vec<char> = r.iter().map(|c| c.char).collect();
    assert_eq!(letters, vec!['a', 'b', 'c', 'd', 'e']);
}

#[test]
fn lines_non_decreasing_and_columns_reset() {
    let r = cells("abc\ndefghij", 4);
    for k in 1..r.len() {
        assert!(r[k].line >= r[k - 1].line);
        if r[k].line == r[k - 1].line {
            assert_eq!(r[k].line_index, r[k - 1].line_index + 1);
        } else {
            assert_eq!(r[k].line_index, 0);
        }
    }
}

#[test]
fn explicit_break_opens_line_without_cell() {
    let r = cells("2 2 +\nh", 15);
    assert_eq!(r.len(), 6);
    let line0: Vec<char> = r.iter().filter(|c| c.line == 0).map(|c| c.char).collect();
    let line1: Vec<char> = r.iter().filter(|c| c.line == 1).map(|c| c.char).collect();
    assert_eq!(line0, vec!['2', ' ', '2', ' ', '+']);
    assert_eq!(line1, vec!['h']);
    assert!(r.iter().all(|c| !c.wrapped));
}

#[test]
fn forced_wrap_line_takes_one_extra_column() {
    // 35 letters at width 15: a full first line of 15, then a continuation
    // line that accepts 16 columns, then the remaining 4.
    let r = cells(&"a".repeat(35), 15);
    assert_eq!(r.len(), 35);
    let count = |ln: usize| r.iter().filter(|c| c.line == ln).count();
    assert_eq!(count(0), 15);
    assert_eq!(count(1), 16);
    assert_eq!(count(2), 4);
    assert!(r.iter().filter(|c| c.line == 0).all(|c| !c.wrapped));
    assert!(r.iter().filter(|c| c.line > 0).all(|c| c.wrapped));
}

#[test]
fn twenty_letters_fill_line_then_continue() {
    let r = cells(&"a".repeat(20), 15);
    let count = |ln: usize| r.iter().filter(|c| c.line == ln).count();
    assert_eq!(count(0), 15);
    assert_eq!(count(1), 5);
}

#[test]
fn line_after_explicit_break_is_not_wrapped() {
    // The first line wraps twice; the explicit break then resets the flag.
    let r = cells("aaaaaaa\nb", 2);
    let b = r.iter().find(|c| c.char == 'b').unwrap();
    assert!(!b.wrapped);
    assert_eq!(b.line_index, 0);
    // lines 1 and 2 were created by exceeding the width
    assert!(r.iter().filter(|c| c.line == 1 || c.line == 2).all(|c| c.wrapped));
    // a continuation line holds width + 1 columns
    assert_eq!(r.iter().filter(|c| c.line == 1).count(), 3);
}

#[test]
fn char_at_index_finds_cell_or_nothing() {
    let cs = Characters::from_string("ab\ncd", 15);
    assert_eq!(cs.char_at_index(2).unwrap().char, 'c');
    assert_eq!(cs.char_at_index(0).unwrap().char, 'a');
    assert!(cs.char_at_index(4).is_none());
}

#[test]
fn line_start_and_end_lookups() {
    let cs = Characters::from_string("ab\ncde", 15);
    assert_eq!(cs.char_at_line_start(0).unwrap().char, 'a');
    assert_eq!(cs.char_at_line_end(0).unwrap().char, 'b');
    assert_eq!(cs.char_at_line_start(1).unwrap().char, 'c');
    assert_eq!(cs.char_at_line_end(1).unwrap().char, 'e');
    assert!(cs.char_at_line_start(2).is_none());
    assert!(cs.char_at_line_end(2).is_none());
}

#[test]
fn replace_breaks_pads_each_break() {
    let r = replace_breaks(&chars("a\nb\n"));
    assert_eq!(r, chars("a \nb \n"));
    assert_eq!(replace_breaks(&chars("")), chars(""));
}

#[test]
fn chars_of_copies_string() {
    assert_eq!(chars_of("he 1o"), vec!['h', 'e', ' ', '1', 'o']);
    assert_eq!(chars_of(""), Vec::<char>::new());
}

#[test]
fn string_to_chars_pads_breaks_before_layout() {
    let r = string_to_chars("a\nb".to_string(), 5);
    // the break gains a visible blank: cells are 'a', ' ' on line 0, 'b' on 1
    let shown: Vec<(char, usize, usize)> =
        r.iter().map(|c| (c.char, c.line, c.line_index)).collect();
    assert_eq!(shown, vec![('a', 0, 0), (' ', 0, 1), ('b', 1, 0)]);
}

#[test]
fn new_wraps_given_cells() {
    let cs = Characters::from_string("xy", 15);
    let again = Characters::new(cs.chars.clone());
    assert_eq!(again.chars.len(), 2);
    assert_eq!(again.chars[1].char, 'y');
}
