use notemancy::select::{
    display_line, display_lines, parse_selection, resolve_selection, resolved_path, NoteRecord,
};
use notemancy::SelectError;

#[test]
fn display_line_joins_with_the_fixed_delimiter() {
    let line = display_line("Meeting Notes", "projects/meeting.md");
    assert_eq!(line, "Meeting Notes | projects/meeting.md");
}

#[test]
fn display_lines_render_in_enumeration_order() {
    let notes = vec![
        NoteRecord { title: "A".to_string(), relpath: "a.md".to_string() },
        NoteRecord { title: "B".to_string(), relpath: "sub/b.md".to_string() },
    ];
    let lines = display_lines(&notes);
    assert_eq!(lines, vec!["A | a.md".to_string(), "B | sub/b.md".to_string()]);
}

#[test]
fn selection_line_parses_to_title_and_relpath() {
    let p = parse_selection("Meeting Notes | projects/meeting.md").unwrap();
    assert_eq!(p.title, "Meeting Notes");
    assert_eq!(p.relpath, "projects/meeting.md");
}

#[test]
fn line_without_delimiter_is_malformed() {
    let r = parse_selection("no delimiter here");
    assert_eq!(r.unwrap_err(), SelectError::MalformedSelection);
}

#[test]
fn line_with_two_delimiters_is_malformed() {
    let r = parse_selection("a | b | c");
    assert_eq!(r.unwrap_err(), SelectError::MalformedSelection);
}

#[test]
fn empty_line_is_malformed() {
    let r = parse_selection("");
    assert_eq!(r.unwrap_err(), SelectError::MalformedSelection);
}

#[test]
fn cancelled_selection_is_no_selection() {
    let r = resolve_selection(None);
    assert_eq!(r.unwrap_err(), SelectError::NoSelection);
}

#[test]
fn committed_selection_resolves() {
    let p = resolve_selection(Some("T | notes/t.md".to_string())).unwrap();
    assert_eq!(p.title, "T");
    assert_eq!(p.relpath, "notes/t.md");
}

#[test]
fn resolved_path_joins_with_one_separator() {
    assert_eq!(resolved_path("/vaults/main", "a/b.md"), "/vaults/main/a/b.md");
    assert_eq!(resolved_path("/vaults/main/", "a/b.md"), "/vaults/main/a/b.md");
}

#[test]
fn rendering_then_resolving_gives_the_note_back() {
    let line = display_line("Shopping List", "lists/shopping.md");
    let p = parse_selection(line.as_str()).unwrap();
    assert_eq!(p.title, "Shopping List");
    assert_eq!(p.relpath, "lists/shopping.md");
}

#[test]
fn select_error_messages_are_fixed() {
    assert_eq!(SelectError::NoSelection.message(), "no note selected");
    assert_eq!(
        SelectError::MalformedSelection.message(),
        "invalid selection format"
    );
}
