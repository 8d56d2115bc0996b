use orangu::session_picker::{
    body_rows, padded, picker_entries, table_lines, Input, PickerChoice, PickerEntry, PickerState,
    SessionMetadata, Step, StoredSession, NEW_ROW_TEXT,
};

fn entry(uuid: &str, workspace: &str, branch: &str, date: &str) -> PickerEntry {
    PickerEntry {
        uuid: uuid.to_string(),
        workspace: workspace.to_string(),
        branch: branch.to_string(),
        date: date.to_string(),
    }
}

fn entries(count: usize) -> Vec<PickerEntry> {
    (0..count)
        .map(|i| entry(&format!("uuid-{i}"), "/ws", "main", "2026-01-01 00:00"))
        .collect()
}

#[test]
fn selection_stays_inside_the_list_new_row_included() {
    // Three sessions and the `New` row: four rows, 0..=3.
    let mut state = PickerState::new(entries(3));
    state.select_prev();
    assert_eq!(state.selected, 0);
    for _ in 0..5 {
        state.select_next();
    }
    assert_eq!(state.selected, 3);
    assert_eq!(state.picked(), PickerChoice::New);
    state.page_up(10);
    assert_eq!(state.selected, 0);
    state.page_down(10);
    assert_eq!(state.selected, 3);
    state.select_first();
    assert_eq!(state.selected, 0);
    state.select_last();
    assert_eq!(state.selected, 3);
}

#[test]
fn scroll_follows_the_highlight_both_ways() {
    let mut state = PickerState::new(entries(10));
    state.clamp(4);
    assert_eq!(state.scroll, 0);
    state.page_down(6);
    state.clamp(4);
    // Row 6 is the last of the four shown: rows 3..=6.
    assert_eq!((state.selected, state.scroll), (6, 3));
    state.select_first();
    state.clamp(4);
    assert_eq!(state.scroll, 0);
}

#[test]
fn picked_carries_the_workspace_only_when_known() {
    let mut state = PickerState::new(vec![
        entry("a", "/home/u/p", "main", "2026-01-01 00:00"),
        entry("b", "-", "-", "-"),
    ]);
    assert_eq!(
        state.picked(),
        PickerChoice::Resume {
            uuid: "a".to_string(),
            workspace: Some("/home/u/p".to_string()),
        }
    );
    state.select_next();
    assert_eq!(
        state.picked(),
        PickerChoice::Resume {
            uuid: "b".to_string(),
            workspace: None,
        }
    );
    state.select_next();
    assert_eq!(state.picked(), PickerChoice::New);
}

#[test]
fn an_empty_store_offers_only_the_new_row() {
    let state = PickerState::new(Vec::new());
    assert_eq!(state.row_count(), 1);
    assert_eq!(state.picked(), PickerChoice::New);
    let (_, rows) = table_lines(&[]);
    assert_eq!(rows, vec!["New      Start a new session".to_string()]);
}

#[test]
fn table_columns_are_sized_to_the_widest_value() {
    let (header, rows) = table_lines(&[
        entry(
            "550e8400-e29b-41d4-a716-446655440000",
            "/home/user/project",
            "main",
            "2026-06-26 11:04",
        ),
        entry(
            "6ba7b810-9dad-11d1-80b4-00c04fd430c8",
            "/home/user/other",
            "feature/login",
            "2026-06-26 03:27",
        ),
    ]);
    assert_eq!(
        header,
        "SESSION                               WORKSPACE           BRANCH         DATE"
    );
    assert_eq!(
        rows[0],
        "550e8400-e29b-41d4-a716-446655440000  /home/user/project  main           2026-06-26 11:04"
    );
    assert_eq!(
        rows[1],
        "6ba7b810-9dad-11d1-80b4-00c04fd430c8  /home/user/other    feature/login  2026-06-26 03:27"
    );
    // The `New` row closes the list, its label in the SESSION column.
    assert_eq!(rows[2], "New                                   Start a new session");
    assert_eq!(rows.len(), 3);
}

fn stored(uuid: &str, workspace: &str, at: u64) -> StoredSession {
    StoredSession {
        uuid: uuid.to_string(),
        meta: Some(SessionMetadata {
            workspace: workspace.to_string(),
            branch: String::new(),
            last_updated_at: at,
            date: format!("day {at}"),
        }),
    }
}

#[test]
fn newest_sessions_come_first_and_unknown_ones_last() {
    let rows = picker_entries(vec![
        StoredSession { uuid: "x".to_string(), meta: None },
        stored("a", "/a", 5),
        stored("b", "", 9),
        stored("c", "/c", 5),
    ]);
    let uuids: Vec<&str> = rows.iter().map(|r| r.uuid.as_str()).collect();
    assert_eq!(uuids, vec!["b", "a", "c", "x"]);
    assert_eq!(rows[0], entry("b", "-", "-", "day 9"));
    assert_eq!(rows[0].workspace_path(), None);
    assert_eq!(rows[1].workspace_path(), Some("/a".to_string()));
    assert_eq!(rows[3], entry("x", "-", "-", "-"));
}

#[test]
fn a_session_without_metadata_stands_behind_the_oldest() {
    let unknown = StoredSession { uuid: "x".to_string(), meta: None };
    let rows = picker_entries(vec![unknown, stored("z", "/z", 0)]);
    assert_eq!(rows[0].uuid, "z");
    assert_eq!(rows[1].uuid, "x");
}

#[test]
fn keys_and_the_wheel_drive_the_picker() {
    let mut state = PickerState::new(entries(3));
    assert_eq!(state.on_input(Input::Down, false, 2), Step::Stay);
    assert_eq!(state.on_input(Input::Letter('j'), false, 2), Step::Stay);
    assert_eq!(state.selected, 2);
    assert_eq!(state.status(), "Session 3 of 3");
    state.on_input(Input::Letter('j'), true, 2);
    assert_eq!(state.selected, 2);
    state.on_input(Input::WheelDown, false, 2);
    assert_eq!(state.selected, 3);
    assert_eq!(state.status(), NEW_ROW_TEXT);
    assert_eq!(state.on_input(Input::Enter, false, 2), Step::Picked(PickerChoice::New));
    state.on_input(Input::PageUp, false, 2);
    assert_eq!(state.selected, 1);
    state.on_input(Input::Letter('k'), false, 2);
    assert_eq!(state.selected, 0);
    state.on_input(Input::End, false, 2);
    state.on_input(Input::WheelUp, false, 2);
    assert_eq!(state.selected, 2);
    state.on_input(Input::Home, false, 2);
    state.on_input(Input::PageDown, false, 0);
    assert_eq!(state.selected, 1);
    state.on_input(Input::Up, false, 0);
    assert_eq!(state.on_input(Input::Other, false, 0), Step::Stay);
    assert_eq!(state.selected, 0);
    assert_eq!(state.on_input(Input::Escape, true, 2), Step::Cancelled);
    assert_eq!(state.on_input(Input::Letter('q'), false, 2), Step::Cancelled);
    assert_eq!(state.on_input(Input::Letter('q'), true, 2), Step::Stay);
    assert_eq!(state.on_input(Input::Letter('c'), true, 2), Step::Cancelled);
}

#[test]
fn the_body_shows_what_fits() {
    assert_eq!(body_rows(0), 1);
    assert_eq!(body_rows(4), 1);
    assert_eq!(body_rows(24), 21);
    let mut state = PickerState::new(entries(3));
    state.select_last();
    state.clamp(2);
    assert_eq!(state.row_at(0), Some(2));
    assert_eq!(state.row_at(1), Some(3));
    assert_eq!(state.row_at(2), None);
    assert_eq!(padded("é", 3), "é  ");
    assert_eq!(padded("wider", 3), "wider");
}
