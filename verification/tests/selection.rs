use orangu::selection::{
    clear, drag, finish_frame, highlight, is_active, is_word_symbol, notice, notice_remaining,
    press, release, select_word, set_notice, text, word_at, Screen, Selection, State, Tile,
    NOTICE_DURATION,
};
use unicode_width::{UnicodeWidthChar, UnicodeWidthStr};

/// The screen that shows these rows: a wide character takes two cells, the second a blank.
fn screen(rows: &[&str]) -> Screen {
    let width = rows.iter().map(|r| UnicodeWidthStr::width(*r)).max().unwrap_or(0);
    let tile = |symbol: &str| Tile { symbol: symbol.to_string(), reversed: false };
    let rows: Vec<Vec<Tile>> = rows
        .iter()
        .map(|row| {
            let mut tiles = Vec::new();
            for c in row.chars() {
                tiles.push(tile(&c.to_string()));
                if UnicodeWidthChar::width(c).unwrap_or(1) > 1 {
                    tiles.push(tile(" "));
                }
            }
            while tiles.len() < width {
                tiles.push(tile(" "));
            }
            tiles
        })
        .collect();
    Screen { left: 0, top: 0, width: width as u16, height: rows.len() as u16, rows }
}

#[test]
fn bounds_are_in_reading_order_whichever_end_is_the_anchor() {
    let mut forward = Selection::begin((5, 1));
    forward.extend((2, 3));
    let mut backward = Selection::begin((2, 3));
    backward.extend((5, 1));
    assert_eq!(forward.bounds(), ((5, 1), (2, 3)));
    assert_eq!(backward.bounds(), ((5, 1), (2, 3)));
}

#[test]
fn contains_follows_the_stream_not_the_rectangle() {
    let selection = Selection::span((5, 1), (2, 3));
    assert!(selection.contains((5, 1)));
    assert!(selection.contains((79, 1)));
    assert!(selection.contains((0, 2)));
    assert!(selection.contains((2, 3)));
    assert!(!selection.contains((4, 1)));
    assert!(!selection.contains((3, 3)));
    assert!(!selection.contains((0, 0)));
    assert!(!selection.contains((0, 4)));
}

#[test]
fn text_takes_whole_rows_between_the_ends_and_trims_each_row() {
    let screen = screen(&["first row  ", "second     ", "third row  "]);
    let selection = Selection::span((6, 0), (4, 2));
    assert_eq!(text(&screen, &selection), "row\nsecond\nthird");
}

#[test]
fn text_on_one_row_is_the_cells_between_the_ends() {
    let screen = screen(&["hello world"]);
    let selection = Selection::span((2, 0), (6, 0));
    assert_eq!(text(&screen, &selection), "llo w");
}

#[test]
fn text_reassembles_wide_characters() {
    let screen = screen(&["a日本b"]);
    let selection = Selection::span((0, 0), (5, 0));
    assert_eq!(text(&screen, &selection), "a日本b");
}

#[test]
fn text_clips_to_the_buffer() {
    let screen = screen(&["abc", "def"]);
    let selection = Selection::span((1, 0), (40, 7));
    assert_eq!(text(&screen, &selection), "bc\ndef");
}

#[test]
fn highlight_reverses_exactly_the_selected_cells() {
    let mut screen = screen(&["abcd", "efgh"]);
    highlight(&mut screen, &Selection::span((2, 0), (0, 1)));
    let reversed = |x: usize, y: usize| screen.rows[y][x].reversed;
    assert!(!reversed(1, 0));
    assert!(reversed(2, 0));
    assert!(reversed(3, 0));
    assert!(reversed(0, 1));
    assert!(!reversed(1, 1));
}

#[test]
fn word_at_takes_paths_and_identifiers_whole() {
    let screen = screen(&["see src/tui/screen.rs:12 (snake_case-name)"]);
    let word = |col| word_at(&screen, (col, 0)).map(|s| text(&screen, &s));
    assert_eq!(word(0).as_deref(), Some("see"));
    assert_eq!(word(9).as_deref(), Some("src/tui/screen.rs"));
    assert_eq!(word(21).as_deref(), None);
    assert_eq!(word(23).as_deref(), Some("12"));
    assert_eq!(word(25).as_deref(), None);
    assert_eq!(word(30).as_deref(), Some("snake_case-name"));
}

#[test]
fn word_at_outside_the_screen_or_on_a_blank_is_nothing() {
    let screen = screen(&["ab cd"]);
    assert_eq!(word_at(&screen, (2, 0)), None);
    assert_eq!(word_at(&screen, (9, 0)), None);
    assert_eq!(word_at(&screen, (0, 3)), None);
}

#[test]
fn word_at_includes_wide_characters_from_either_cell() {
    let screen = screen(&["x日本y z"]);
    assert_eq!(
        word_at(&screen, (2, 0)).map(|s| text(&screen, &s)).as_deref(),
        Some("x日本y")
    );
    assert_eq!(
        word_at(&screen, (5, 0)).map(|s| text(&screen, &s)).as_deref(),
        Some("x日本y")
    );
}

#[test]
fn a_click_without_a_drag_is_empty() {
    let mut selection = Selection::begin((3, 3));
    assert!(selection.is_empty());
    selection.extend((3, 3));
    assert!(selection.is_empty());
    selection.extend((4, 3));
    assert!(!selection.is_empty());
}

#[test]
fn a_drag_copies_what_it_covers() {
    let mut state = State::default();
    let mut frame = screen(&["hello world"]);
    finish_frame(&mut state, &mut frame);
    assert!(!frame.rows[0][2].reversed);
    assert!(!press(&mut state, (2, 0)));
    assert!(!drag(&mut state, (2, 0)));
    assert!(drag(&mut state, (6, 0)));
    finish_frame(&mut state, &mut frame);
    assert!(frame.rows[0][2].reversed);
    assert_eq!(release(&mut state).as_deref(), Some("llo w"));
    assert!(is_active(&state));
    // A second release finds nothing being dragged.
    assert_eq!(release(&mut state), None);
    assert!(!drag(&mut state, (7, 0)));
    assert!(press(&mut state, (1, 0)));
    assert_eq!(release(&mut state), None);
    assert!(!is_active(&state));
}

#[test]
fn a_double_click_selects_a_word() {
    let mut state = State::default();
    assert_eq!(select_word(&mut state, (0, 0)), None);
    finish_frame(&mut state, &mut screen(&["ab cd"]));
    assert_eq!(select_word(&mut state, (3, 0)).as_deref(), Some("cd"));
    assert!(is_active(&state));
    assert_eq!(release(&mut state), None);
    assert!(is_active(&state));
    assert!(clear(&mut state));
    assert!(!clear(&mut state));
    assert_eq!(select_word(&mut state, (2, 0)), None);
}

#[test]
fn a_notice_lasts_three_seconds() {
    let mut state = State::default();
    assert_eq!(notice(&mut state, 0), None);
    assert_eq!(notice_remaining(&state, 0), None);
    set_notice(&mut state, "Copied".to_string(), 5);
    assert_eq!(notice(&mut state, 5).as_deref(), Some("Copied"));
    assert_eq!(notice_remaining(&state, 6), Some(NOTICE_DURATION - 1));
    assert_eq!(notice_remaining(&state, 5 + NOTICE_DURATION + 1), Some(0));
    assert_eq!(notice(&mut state, 5 + NOTICE_DURATION), None);
    assert_eq!(notice_remaining(&state, 6), None);
    set_notice(&mut state, "Copied".to_string(), 5);
    press(&mut state, (0, 0));
    assert_eq!(notice(&mut state, 5), None);
}

#[test]
fn words_are_made_of_letters_of_any_script() {
    assert!(is_word_symbol("é"));
    assert!(is_word_symbol("日"));
    assert!(is_word_symbol("~"));
    assert!(!is_word_symbol(" "));
    assert!(!is_word_symbol(""));
    assert!(!is_word_symbol("("));
}
