use rano::definitions::{EditorFlags, PositionEntry};
use rano::editor::{Editor, Options};

fn opts() -> Options {
    Options {
        line_numbers: false,
        mouse: false,
        constant_show: false,
        autoindent: false,
        softwrap: false,
        tabsize: 4,
        tabs_to_spaces: false,
        no_wrap: false,
        no_help: false,
        bold_text: false,
        view: false,
        no_newlines: false,
        backup: false,
    }
}

fn editor_with(text: &str) -> Editor {
    Editor::new(&opts(), 80, 24, vec![("f.txt".to_string(), Some(text.to_string()))])
}

#[test]
fn display_string_expands_tabs_and_controls() {
    let ed = editor_with("");
    assert_eq!(ed.make_display_string("a\tb", 80), "a   b");
    assert_eq!(ed.make_display_string("x\u{1}y", 80), "x^Ay");
    assert_eq!(ed.make_display_string("abcdef", 3), "abc");
    assert_eq!(ed.make_display_string("a中", 2), "a");
    assert_eq!(ed.make_display_string("ab\u{1}c", 3), "abc");
}

#[test]
fn cursor_placement_scrolls_the_window() {
    let text: Vec<String> = (0..50).map(|i| format!("line {}", i)).collect();
    let mut ed = editor_with(&text.join("\n"));
    ed.buffers[0].current = 30;
    ed.buffers[0].current_x = 2;
    let (row, col, adjusted) = ed.place_the_cursor();
    assert!(adjusted);
    assert_eq!(ed.buffers[0].edittop, 11);
    assert_eq!(row, 20);
    assert_eq!(col, 2);
    let (row2, _, adjusted2) = ed.place_the_cursor();
    assert!(!adjusted2);
    assert_eq!(row2, 20);
    ed.buffers[0].current = 5;
    let (row3, _, _) = ed.place_the_cursor();
    assert_eq!(ed.buffers[0].edittop, 5);
    assert_eq!(row3, 1);
}

#[test]
fn resizing_recomputes_the_window() {
    let mut ed = editor_with("x");
    ed.handle_resize(100, 40);
    assert_eq!(ed.term_cols, 100);
    assert_eq!(ed.editwinrows, 36);
    assert_eq!(ed.editwincols, 100);
    ed.flags.insert(EditorFlags::NO_HELP);
    ed.handle_resize(100, 1);
    assert_eq!(ed.editwinrows, 0);
    ed.set_interface_colorpairs();
    assert!(ed.have_palette);
}

#[test]
fn history_file_round_trip() {
    let mut ed = editor_with("x");
    ed.load_history("foo\nbar\n\nbaz\n\nqux\n");
    assert_eq!(ed.search_history, vec!["foo".to_string(), "bar".to_string()]);
    assert_eq!(ed.replace_history, vec!["baz".to_string(), "qux".to_string()]);
    assert_eq!(ed.history_text(), "foo\nbar\n\nbaz\nqux\n");
}

#[test]
fn position_log_round_trip() {
    let ed = editor_with("x");
    let entries = ed.load_positionlog("/a/b 3 4 \nshort 1\n/c 9 x extra words\n");
    assert_eq!(entries.len(), 2);
    assert_eq!(entries[0].filename, "/a/b");
    assert_eq!((entries[0].linenumber, entries[0].columnnumber), (3, 4));
    assert_eq!(entries[0].anchors, "");
    assert_eq!((entries[1].linenumber, entries[1].columnnumber), (9, 1));
    assert_eq!(entries[1].anchors, "extra words");
    let saved = ed.save_positionlog(&vec![PositionEntry {
        filename: "/f".to_string(),
        linenumber: 2,
        columnnumber: 5,
        anchors: String::new(),
    }]);
    assert_eq!(saved, "/f 2 5 \n");
}

#[test]
fn an_empty_prompt() {
    let ed = editor_with("x");
    let st = ed.do_prompt();
    assert_eq!(st.answer, "");
    assert_eq!(st.typing_x, 0);
}
