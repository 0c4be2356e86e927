use rano::commands::Command;
use rano::definitions::{AskResult, Direction, EditorFlags, FormatType, KeyCode, MessageType};
use rano::editor::{Editor, Options};

fn opts() -> Options {
    Options {
        line_numbers: false,
        mouse: false,
        constant_show: false,
        autoindent: false,
        softwrap: false,
        tabsize: 8,
        tabs_to_spaces: false,
        no_wrap: false,
        no_help: false,
        bold_text: false,
        view: false,
        no_newlines: false,
        backup: false,
    }
}

fn editor_with(text: &str) -> Editor {
    Editor::new(&opts(), 80, 24, vec![("f.txt".to_string(), Some(text.to_string()))])
}

fn texts(ed: &Editor) -> Vec<String> {
    ed.buffers[ed.current_buf].lines.iter().map(|l| l.data.clone()).collect()
}

#[test]
fn new_without_files_has_one_empty_buffer() {
    let ed = Editor::new(&opts(), 80, 24, vec![]);
    assert_eq!(ed.buffers.len(), 1);
    assert_eq!(texts(&ed), vec![String::new()]);
    assert_eq!(ed.editwinrows, 20);
    assert_eq!(ed.editwincols, 80);
    assert!(ed.running);
}

#[test]
fn new_with_no_help_leaves_two_more_rows() {
    let mut o = opts();
    o.no_help = true;
    o.line_numbers = true;
    let ed = Editor::new(&o, 80, 24, vec![]);
    assert_eq!(ed.editwinrows, 22);
    assert!(ed.flags.contains(EditorFlags::NO_HELP));
    assert!(ed.flags.contains(EditorFlags::LINE_NUMBERS));
    // one line: a margin of one digit and a space
    assert_eq!(ed.margin, 2);
    assert_eq!(ed.editwincols, 78);
}

#[test]
fn opening_a_file_splits_its_lines() {
    let ed = editor_with("alpha\nbeta");
    assert_eq!(texts(&ed), vec!["alpha".to_string(), "beta".to_string()]);
    assert_eq!(ed.statusmsg, "Read 2 lines (f.txt)");
    assert_eq!(ed.buffers[0].format, FormatType::Unix);
    assert_eq!(ed.buffers[0].lines[1].lineno, 2);
}

#[test]
fn opening_a_dos_file_normalizes_line_endings() {
    let ed = editor_with("a\r\nb\r\n");
    assert_eq!(texts(&ed), vec!["a".to_string(), "b".to_string(), String::new()]);
    assert_eq!(ed.buffers[0].format, FormatType::Dos);
    assert_eq!(ed.buffers[0].totsize, 6);
}

#[test]
fn opening_a_missing_file_makes_a_new_buffer() {
    let ed = Editor::new(&opts(), 80, 24, vec![("/no/such/new.txt".to_string(), None)]);
    assert_eq!(texts(&ed), vec![String::new()]);
    assert_eq!(ed.statusmsg, "New File (new.txt)");
}

#[test]
fn file_text_writes_each_line_with_its_ending() {
    let ed = editor_with("a\nb");
    assert_eq!(ed.file_text(), "a\nb\n");
    let dos = editor_with("a\r\nb");
    assert_eq!(dos.file_text(), "a\r\nb\r\n");
}

#[test]
fn file_text_without_final_newline() {
    let mut ed = editor_with("a\n");
    assert_eq!(ed.file_text(), "a\n");
    ed.flags.insert(EditorFlags::NO_NEWLINES);
    assert_eq!(ed.file_text(), "a\n");
    let mut bare = editor_with("a");
    bare.flags.insert(EditorFlags::NO_NEWLINES);
    assert_eq!(bare.file_text(), "a");
}

#[test]
fn note_written_clears_modified() {
    let mut ed = editor_with("abc");
    ed.do_char('x');
    assert!(ed.buffers[0].modified);
    ed.note_written("dir/f.txt");
    assert!(!ed.buffers[0].modified);
    assert_eq!(ed.statusmsg, "Wrote 1 lines (f.txt)");
}

#[test]
fn start_position_moves_the_cursor() {
    let mut ed = editor_with("one\ntwo\nthree");
    ed.go_to_start_position("2,3");
    assert_eq!(ed.buffers[0].current, 1);
    assert_eq!(ed.buffers[0].current_x, 2);
    // column 1 of a line is its start
    ed.go_to_start_position("99");
    assert_eq!(ed.buffers[0].current, 2);
    assert_eq!(ed.buffers[0].current_x, 0);
}

#[test]
fn insert_file_puts_its_lines_at_the_cursor() {
    let mut ed = editor_with("ab");
    ed.buffers[0].current_x = 1;
    ed.do_insertfile("x.txt", Ok("X\nY".to_string()));
    assert_eq!(texts(&ed), vec!["aX".to_string(), "Yb".to_string()]);
    assert_eq!(ed.buffers[0].current, 1);
    assert_eq!(ed.buffers[0].current_x, 1);
    assert_eq!(ed.statusmsg, "Inserted 2 lines");
    assert!(ed.buffers[0].modified);
}

#[test]
fn insert_file_reports_errors_and_cancels() {
    let mut ed = editor_with("ab");
    ed.do_insertfile("x.txt", Err("No such file".to_string()));
    assert_eq!(ed.statusmsg, "Error reading x.txt: No such file");
    assert_eq!(ed.lastmessage, MessageType::Alert);
    let mut ed2 = editor_with("ab");
    ed2.do_insertfile("", Ok(String::new()));
    assert_eq!(ed2.statusmsg, "Cancelled");
    assert_eq!(texts(&ed2), vec!["ab".to_string()]);
}

#[test]
fn exit_closes_an_unmodified_last_buffer() {
    let mut ed = editor_with("ab");
    ed.do_exit(AskResult::Yes);
    assert!(!ed.running);
}

#[test]
fn exit_of_a_modified_buffer_follows_the_answer() {
    let mut ed = editor_with("ab");
    ed.do_char('z');
    ed.do_exit(AskResult::Cancel);
    assert!(ed.running);
    assert_eq!(ed.statusmsg, "Cancelled");
    ed.do_exit(AskResult::Yes);
    assert!(ed.running);
    ed.do_exit(AskResult::No);
    assert!(!ed.running);
}

#[test]
fn closing_one_of_two_buffers_keeps_the_other() {
    let mut ed = Editor::new(
        &opts(),
        80,
        24,
        vec![("a".to_string(), Some("1".to_string())), ("b".to_string(), Some("2".to_string()))],
    );
    assert_eq!(ed.current_buf, 1);
    ed.close_current_buffer();
    assert_eq!(ed.buffers.len(), 1);
    assert_eq!(ed.current_buf, 0);
    assert!(ed.running);
    assert_eq!(texts(&ed), vec!["1".to_string()]);
}

#[test]
fn switching_buffers_wraps_around() {
    let mut ed = Editor::new(
        &opts(),
        80,
        24,
        vec![("a".to_string(), Some("1".to_string())), ("b".to_string(), Some("2".to_string()))],
    );
    ed.switch_to_next_buffer();
    assert_eq!(ed.current_buf, 0);
    assert_eq!(ed.statusmsg, "Switched to a");
    ed.switch_to_prev_buffer();
    assert_eq!(ed.current_buf, 1);
}

#[test]
fn typing_inserts_at_the_cursor() {
    let mut ed = editor_with("abc");
    ed.do_char('x');
    assert_eq!(texts(&ed), vec!["xabc".to_string()]);
    assert_eq!(ed.buffers[0].current_x, 1);
}

#[test]
fn delete_then_undo_restores_the_text() {
    let mut ed = editor_with("abc");
    ed.do_delete();
    assert_eq!(texts(&ed), vec!["bc".to_string()]);
    ed.do_undo();
    assert_eq!(texts(&ed), vec!["abc".to_string()]);
    ed.do_redo();
    assert_eq!(texts(&ed), vec!["bc".to_string()]);
}

#[test]
fn backspace_then_undo_restores_the_text() {
    let mut ed = editor_with("abc");
    ed.buffers[0].current_x = 2;
    ed.do_backspace();
    assert_eq!(texts(&ed), vec!["ac".to_string()]);
    assert_eq!(ed.buffers[0].current_x, 1);
    ed.do_undo();
    assert_eq!(texts(&ed), vec!["abc".to_string()]);
    assert_eq!(ed.buffers[0].current_x, 2);
}

#[test]
fn enter_then_undo_restores_the_text() {
    let mut ed = editor_with("abcd");
    ed.buffers[0].current_x = 2;
    ed.do_enter();
    assert_eq!(texts(&ed), vec!["ab".to_string(), "cd".to_string()]);
    assert_eq!(ed.buffers[0].current, 1);
    ed.do_undo();
    assert_eq!(texts(&ed), vec!["abcd".to_string()]);
}

#[test]
fn cut_then_paste_restores_the_text() {
    let mut ed = editor_with("one\ntwo\nthree");
    ed.buffers[0].current = 1;
    let cut = ed.cut_text();
    assert!(cut);
    assert_eq!(texts(&ed), vec!["one".to_string(), "three".to_string()]);
    assert_eq!(ed.cutbuffer_to_string(), "two\n");
    ed.paste_text(None);
    assert_eq!(texts(&ed), vec!["one".to_string(), "two".to_string(), "three".to_string()]);
}

#[test]
fn paste_with_an_empty_cutbuffer_takes_the_clipboard() {
    let mut ed = editor_with("ab");
    ed.buffers[0].current_x = 1;
    ed.paste_text(Some("X\nY".to_string()));
    assert_eq!(texts(&ed), vec!["aX".to_string(), "Yb".to_string()]);
    let mut empty = editor_with("ab");
    empty.paste_text(None);
    assert_eq!(empty.statusmsg, "Cutbuffer is empty");
}

#[test]
fn view_mode_refuses_edits() {
    let mut o = opts();
    o.view = true;
    let mut ed = Editor::new(&o, 80, 24, vec![("f".to_string(), Some("abc".to_string()))]);
    ed.do_delete();
    assert_eq!(texts(&ed), vec!["abc".to_string()]);
    assert_eq!(ed.statusmsg, "Key invalid in view mode");
}

#[test]
fn search_finds_the_next_occurrence() {
    let mut ed = editor_with("hello world\nfoo");
    ed.do_search(Direction::Forward, "World");
    assert_eq!(ed.buffers[0].current, 0);
    assert_eq!(ed.buffers[0].current_x, 6);
    assert_eq!(ed.last_search, "World");
}

#[test]
fn search_with_a_regular_expression() {
    let mut ed = editor_with("abc\nxyz 123");
    ed.flags.insert(EditorFlags::USE_REGEXP);
    ed.do_search(Direction::Forward, "[0-9]+");
    assert_eq!(ed.buffers[0].current, 1);
    assert_eq!(ed.buffers[0].current_x, 4);
}

#[test]
fn goto_line_and_column() {
    let mut ed = editor_with("one\ntwo\nthree");
    ed.do_gotolinecolumn("3,2");
    assert_eq!(ed.buffers[0].current, 2);
    assert_eq!(ed.buffers[0].current_x, 1);
}

#[test]
fn replace_all_occurrences() {
    let mut ed = editor_with("a b a\na");
    ed.do_replace("a", "zz");
    assert_eq!(texts(&ed), vec!["zz b zz".to_string(), "zz".to_string()]);
}

#[test]
fn histories_keep_the_latest_copy_last() {
    let mut ed = editor_with("x");
    ed.add_to_search_history("a");
    ed.add_to_search_history("b");
    ed.add_to_search_history("a");
    assert_eq!(ed.search_history, vec!["b".to_string(), "a".to_string()]);
    ed.add_to_replace_history("");
    assert!(ed.replace_history.is_empty());
}

#[test]
fn moving_down_and_to_line_ends() {
    let mut ed = editor_with("abc\nde");
    ed.do_end();
    assert_eq!(ed.buffers[0].current_x, 3);
    ed.do_down();
    assert_eq!(ed.buffers[0].current, 1);
    assert_eq!(ed.buffers[0].current_x, 2);
    ed.do_home();
    assert_eq!(ed.buffers[0].current_x, 0);
    ed.to_first_line();
    assert_eq!(ed.buffers[0].current, 0);
}

#[test]
fn word_movement() {
    let mut ed = editor_with("foo bar baz");
    ed.to_next_word();
    assert_eq!(ed.buffers[0].current_x, 4);
    ed.to_next_word();
    assert_eq!(ed.buffers[0].current_x, 8);
    ed.to_prev_word();
    assert_eq!(ed.buffers[0].current_x, 4);
}

#[test]
fn ctrl_x_asks_to_exit_and_letters_are_typed() {
    let mut ed = editor_with("ab");
    assert!(matches!(ed.process_key(&KeyCode::Ctrl('x')), Command::Exit));
    assert!(matches!(ed.process_key(&KeyCode::Char('q')), Command::Handled));
    assert_eq!(texts(&ed), vec!["qab".to_string()]);
    assert!(matches!(ed.process_key(&KeyCode::Ctrl('g')), Command::Help));
}

#[test]
fn report_cursor_position_message() {
    let mut ed = editor_with("ab\ncd");
    ed.buffers[0].current = 1;
    ed.buffers[0].current_x = 1;
    ed.report_cursor_position();
    assert_eq!(ed.statusmsg, "line 2/2 (100%), col 2");
}

#[test]
fn backward_regular_expression_search_takes_the_last_match() {
    let mut ed = editor_with("ab12 cd34\nxx");
    ed.flags.insert(EditorFlags::USE_REGEXP);
    ed.buffers[0].current_x = 9;
    ed.do_search(Direction::Backward, "[0-9]+");
    assert_eq!(ed.buffers[0].current, 0);
    assert_eq!(ed.buffers[0].current_x, 7);
}

#[test]
fn regular_expression_replace() {
    let mut ed = editor_with("a1b22\nxyz");
    ed.flags.insert(EditorFlags::USE_REGEXP);
    ed.do_replace("[0-9]+", "#");
    assert_eq!(texts(&ed), vec!["a#b#".to_string(), "xyz".to_string()]);
    assert_eq!(ed.statusmsg, "Replaced in 1 line");
}

#[test]
fn search_that_finds_nothing_says_so() {
    let mut ed = editor_with("abc");
    ed.do_search(Direction::Forward, "zzz");
    assert_eq!(ed.statusmsg, "\"zzz\" not found");
    assert_eq!(ed.buffers[0].current_x, 0);
}
