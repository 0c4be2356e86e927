use rano::chars::actual_x;
use rano::definitions::{EditorFlags, EditorFunction, KeyCode, Menu};
use rano::global::{build_keybindings, func_from_key};
use rano::editor::{Editor, Options};

fn opts() -> Options {
    Options {
        line_numbers: false,
        mouse: false,
        constant_show: false,
        autoindent: false,
        softwrap: false,
        tabsize: 8,
        tabs_to_spaces: false,
        no_wrap: false,
        no_help: false,
        bold_text: false,
        view: false,
        no_newlines: false,
        backup: false,
    }
}

fn editor_with(text: &str) -> Editor {
    Editor::new(&opts(), 80, 24, vec![("f.txt".to_string(), Some(text.to_string()))])
}

fn texts(ed: &Editor) -> Vec<String> {
    ed.buffers[ed.current_buf].lines.iter().map(|l| l.data.clone()).collect()
}

#[test]
fn indent_then_unindent_gives_the_lines_back() {
    let mut ed = editor_with("  one\n\ntwo");
    ed.buffers[0].mark = Some(0);
    ed.buffers[0].current = 2;
    ed.do_indent();
    assert_eq!(texts(&ed), vec!["\t  one".to_string(), String::new(), "\ttwo".to_string()]);
    ed.do_unindent();
    assert_eq!(texts(&ed), vec!["  one".to_string(), String::new(), "two".to_string()]);
}

#[test]
fn indent_with_spaces_then_unindent() {
    let mut o = opts();
    o.tabs_to_spaces = true;
    o.tabsize = 4;
    let mut ed = Editor::new(&o, 80, 24, vec![("f".to_string(), Some("x".to_string()))]);
    ed.do_indent();
    assert_eq!(texts(&ed), vec!["    x".to_string()]);
    ed.do_unindent();
    assert_eq!(texts(&ed), vec!["x".to_string()]);
}

#[test]
fn comment_twice_gives_the_lines_back() {
    let mut ed = editor_with("  code\n# note");
    ed.buffers[0].mark = Some(0);
    ed.buffers[0].current = 1;
    ed.do_comment();
    assert_eq!(texts(&ed), vec!["  #code".to_string(), "## note".to_string()]);
    ed.do_comment();
    assert_eq!(texts(&ed), vec!["  code".to_string(), "# note".to_string()]);
}

#[test]
fn comment_twice_of_commented_lines_moves_the_mark() {
    // All lines already commented: the first toggle uncomments, the second
    // comments again after the leading blanks.
    let mut ed = editor_with("  # x");
    ed.do_comment();
    assert_eq!(texts(&ed), vec!["   x".to_string()]);
    ed.do_comment();
    assert_eq!(texts(&ed), vec!["   #x".to_string()]);
}

#[test]
fn typing_the_same_character_then_undo() {
    let mut ed = editor_with("aa");
    ed.buffers[0].current_x = 1;
    ed.do_char('a');
    assert_eq!(texts(&ed), vec!["aaa".to_string()]);
    ed.do_undo();
    assert_eq!(texts(&ed), vec!["aa".to_string()]);
}

#[test]
fn undo_of_typing_takes_the_typed_character() {
    let mut ed = editor_with("abc");
    ed.buffers[0].current_x = 1;
    ed.do_char('x');
    assert_eq!(texts(&ed), vec!["axbc".to_string()]);
    ed.do_undo();
    assert_eq!(texts(&ed), vec!["abc".to_string()]);
    assert_eq!(ed.buffers[0].current_x, 1);
    ed.do_redo();
    assert_eq!(texts(&ed), vec!["axbc".to_string()]);
    assert_eq!(ed.buffers[0].current_x, 2);
}

#[test]
fn undo_of_a_joining_backspace_splits_the_line_again() {
    let mut ed = editor_with("ab\ncd");
    ed.buffers[0].current = 1;
    ed.buffers[0].current_x = 0;
    ed.do_backspace();
    assert_eq!(texts(&ed), vec!["abcd".to_string()]);
    ed.do_undo();
    assert_eq!(texts(&ed), vec!["ab".to_string(), "cd".to_string()]);
    assert_eq!((ed.buffers[0].current, ed.buffers[0].current_x), (1, 0));
    ed.do_redo();
    assert_eq!(texts(&ed), vec!["abcd".to_string()]);
    assert_eq!((ed.buffers[0].current, ed.buffers[0].current_x), (0, 2));
}

#[test]
fn set_then_unset_clears_the_flag() {
    let mut ed = editor_with("x");
    ed.flags.insert(EditorFlags::SMART_HOME);
    ed.parse_set_option("smarthome");
    ed.parse_unset_option("smarthome");
    assert!(!ed.flags.contains(EditorFlags::SMART_HOME));
    assert_eq!(ed.tabsize, 8);
}

#[test]
fn prompt_type_then_backspace() {
    let mut ed = editor_with("x");
    let mut st = ed.start_prompt("ab");
    ed.do_prompt_with_default(&mut st, &KeyCode::Left);
    ed.do_prompt_with_default(&mut st, &KeyCode::Char('z'));
    assert_eq!(st.answer, "azb");
    ed.do_prompt_with_default(&mut st, &KeyCode::Backspace);
    assert_eq!(st.answer, "ab");
    assert_eq!(st.typing_x, 1);
    ed.do_prompt_with_default(&mut st, &KeyCode::Left);
    ed.do_prompt_with_default(&mut st, &KeyCode::Right);
    assert_eq!(st.typing_x, 1);
}

#[test]
fn open_then_write_adds_a_final_newline() {
    let ed = editor_with("one\ntwo");
    assert_eq!(ed.file_text(), "one\ntwo\n");
    let mut o = opts();
    o.no_newlines = true;
    let kept = Editor::new(&o, 80, 24, vec![("f".to_string(), Some("one\ntwo\n".to_string()))]);
    assert_eq!(kept.file_text(), "one\ntwo\n");
    let empty = Editor::new(&o, 80, 24, vec![("f".to_string(), Some(String::new()))]);
    assert_eq!(empty.file_text(), "");
    let unedited = editor_with("one\ntwo\n");
    assert_eq!(unedited.file_text(), "one\ntwo\n");
}

#[test]
fn next_then_previous_buffer_returns() {
    let mut ed = Editor::new(
        &opts(),
        80,
        24,
        vec![
            ("a".to_string(), Some("1".to_string())),
            ("b".to_string(), Some("2".to_string())),
            ("c".to_string(), Some("3".to_string())),
        ],
    );
    let start = ed.current_buf;
    ed.switch_to_next_buffer();
    ed.switch_to_prev_buffer();
    assert_eq!(ed.current_buf, start);
}

#[test]
fn cut_into_an_empty_cutbuffer_then_paste_region() {
    let mut ed = editor_with("hello world");
    ed.buffers[0].mark = Some(0);
    ed.buffers[0].mark_x = 0;
    ed.buffers[0].current_x = 5;
    assert!(ed.cut_text());
    assert_eq!(texts(&ed), vec![" world".to_string()]);
    ed.paste_text(None);
    assert_eq!(texts(&ed), vec!["hello world".to_string()]);
}

#[test]
fn open_then_write_keeps_dos_and_mac_line_breaks() {
    let dos = editor_with("one\r\ntwo");
    assert_eq!(dos.file_text(), "one\r\ntwo\r\n");
    let mac = editor_with("one\rtwo");
    assert_eq!(texts(&mac), vec!["one".to_string(), "two".to_string()]);
    assert_eq!(mac.file_text(), "one\rtwo\r");
    let mut o = opts();
    o.no_newlines = true;
    let kept = Editor::new(&o, 80, 24, vec![("f".to_string(), Some("one\r\ntwo\r\n".to_string()))]);
    assert_eq!(kept.file_text(), "one\r\ntwo\r\n");
}

#[test]
fn repeated_line_cuts_paste_back_the_lines() {
    let mut ed = editor_with("one\ntwo\nthree\nfour");
    ed.buffers[0].current = 1;
    assert!(ed.cut_text());
    assert!(ed.cut_text());
    assert_eq!(texts(&ed), vec!["one".to_string(), "four".to_string()]);
    assert_eq!(ed.cutbuffer_to_string(), "two\nthree\n");
    ed.paste_text(None);
    assert_eq!(
        texts(&ed),
        vec!["one".to_string(), "two".to_string(), "three".to_string(), "four".to_string()]
    );
}

#[test]
fn search_finds_a_match_that_runs_past_the_cursor() {
    let mut ed = editor_with("xxabc");
    ed.buffers[0].current_x = 3;
    ed.do_search(rano::definitions::Direction::Forward, "abc");
    assert_eq!(ed.buffers[0].current_x, 2);
    let mut back = editor_with("xxabc");
    back.buffers[0].current_x = 3;
    back.do_search(rano::definitions::Direction::Backward, "abc");
    assert_eq!(back.buffers[0].current_x, 2);
}

#[test]
fn home_goes_to_the_start_unless_smart() {
    let mut ed = editor_with("  ab");
    ed.buffers[0].current_x = 3;
    ed.do_home();
    assert_eq!(ed.buffers[0].current_x, 0);
    ed.flags.insert(EditorFlags::SMART_HOME);
    ed.buffers[0].current_x = 3;
    ed.do_home();
    assert_eq!(ed.buffers[0].current_x, 2);
    ed.do_home();
    assert_eq!(ed.buffers[0].current_x, 0);
}

#[test]
fn indenting_an_empty_line_keeps_the_cursor() {
    let mut ed = editor_with("");
    ed.do_indent();
    assert_eq!(texts(&ed), vec![String::new()]);
    assert_eq!(ed.buffers[0].current_x, 0);
    let mut full = editor_with("ab");
    full.buffers[0].current_x = 1;
    full.do_indent();
    assert_eq!(texts(&full), vec!["\tab".to_string()]);
    assert_eq!(full.buffers[0].current_x, 2);
}

#[test]
fn key_table_matches_the_documented_shortcuts() {
    let kb = build_keybindings();
    let main = Menu { bits: Menu::MAIN };
    assert_eq!(func_from_key(&kb, &KeyCode::Ctrl('6'), main), Some(EditorFunction::DoMark));
    assert_eq!(func_from_key(&kb, &KeyCode::Ctrl('z'), main), Some(EditorFunction::DoUndo));
    assert_eq!(func_from_key(&kb, &KeyCode::Ctrl('y'), main), Some(EditorFunction::DoRedo));
    assert_eq!(func_from_key(&kb, &KeyCode::Ctrl('t'), main), Some(EditorFunction::DoSuspend));
}

#[test]
fn column_zero_is_the_start_of_the_text() {
    assert_eq!(actual_x("abc", 0, 8), 0);
    assert_eq!(actual_x("abc", 2, 8), 2);
    assert_eq!(actual_x("a\tb", 5, 8), 1);
    assert_eq!(actual_x("a\tb", 8, 8), 2);
    assert_eq!(actual_x("abc", 10, 8), 3);
}

#[test]
fn unreadable_syntax_line_is_told_apart() {
    assert!(!Editor::rc_line_readable("syntax \"c"));
    assert!(Editor::rc_line_readable("syntax \"c\" \"\\.c$\""));
    assert!(Editor::rc_line_readable("set autoindent"));
}

#[test]
fn try_search_and_replace_say_that_they_ran() {
    let mut ed = editor_with("hello world");
    assert!(ed.try_search(rano::definitions::Direction::Forward, "world"));
    assert_eq!(ed.buffers[0].current_x, 6);
    assert!(ed.try_search_again(false));
    assert!(ed.try_replace("world", "there"));
    assert_eq!(texts(&ed), vec!["hello there".to_string()]);
    let mut blank = editor_with("x");
    assert!(blank.try_search(rano::definitions::Direction::Forward, ""));
    assert_eq!(blank.statusmsg, "Cancelled");
}

#[test]
fn mouse_wheel_scrolls_three_lines() {
    let text: Vec<String> = (0..40).map(|i| format!("line {}", i)).collect();
    let mut ed = editor_with(&text.join("\n"));
    ed.do_mouse_scroll(false);
    assert_eq!(ed.buffers[0].edittop, 3);
    assert!(ed.refresh_needed);
    ed.do_mouse_scroll(true);
    assert_eq!(ed.buffers[0].edittop, 0);
}

#[test]
fn undo_of_deleting_a_newline_character_restores_it() {
    let mut ed = editor_with("x");
    ed.buffers[0].lines[0].data = "a\nb".to_string();
    ed.buffers[0].current_x = 1;
    ed.do_delete();
    assert_eq!(texts(&ed), vec!["ab".to_string()]);
    ed.do_undo();
    assert_eq!(texts(&ed), vec!["a\nb".to_string()]);
    ed.do_redo();
    assert_eq!(texts(&ed), vec!["ab".to_string()]);
    ed.buffers[0].lines[0].data = "a\nb".to_string();
    ed.buffers[0].current_x = 2;
    ed.do_backspace();
    assert_eq!(texts(&ed), vec!["ab".to_string()]);
    ed.do_undo();
    assert_eq!(texts(&ed), vec!["a\nb".to_string()]);
    assert_eq!(ed.buffers[0].current_x, 2);
}

#[test]
fn rc_text_applied_at_start_sets_its_options() {
    let mut ed = Editor::new(&opts(), 80, 24, vec![]);
    assert!(!ed.flags.contains(EditorFlags::AUTOINDENT));
    let lines = rano::help::lines_of_text("# comment\nset autoindent\ninclude \"~/more.nanorc\"\nset smarthome\n");
    let (next, inc) = ed.apply_rc_lines(&lines, 0);
    assert_eq!(next, 3);
    assert_eq!(inc, Some("~/more.nanorc".to_string()));
    assert!(ed.flags.contains(EditorFlags::AUTOINDENT));
    assert!(!ed.flags.contains(EditorFlags::SMART_HOME));
    let (end, none) = ed.apply_rc_lines(&lines, next);
    assert_eq!(end, 4);
    assert_eq!(none, None);
    assert!(ed.flags.contains(EditorFlags::SMART_HOME));
}

#[test]
fn steps_left_and_right_undo_each_other() {
    use_steps("aé\tz");
}

fn use_steps(t: &str) {
    let mut x = 0;
    while x < t.len() {
        let r = rano::chars::step_right(t, x);
        assert_eq!(rano::chars::step_left(t, r), x);
        assert_eq!(rano::chars::step_right(t, rano::chars::step_left(t, r)), r);
        x = r;
    }
    assert_eq!(rano::chars::step_right(t, t.len()), t.len());
}

#[test]
fn wideness_grows_with_the_byte_limit() {
    let t = "a\tbé";
    let mut last = 0;
    for m in 0..=t.len() + 2 {
        let w = rano::chars::wideness(t, m, 8);
        assert!(w >= last);
        last = w;
    }
    assert_eq!(rano::chars::wideness(t, t.len(), 8), rano::chars::breadth(t, 8));
}

#[test]
fn left_after_right_and_up_after_down_return() {
    let mut ed = editor_with("abc\nxy");
    ed.buffers[0].current_x = 1;
    ed.do_right();
    ed.do_left();
    assert_eq!((ed.buffers[0].current, ed.buffers[0].current_x), (0, 1));
    ed.buffers[0].current_x = 3;
    ed.do_right();
    assert_eq!((ed.buffers[0].current, ed.buffers[0].current_x), (1, 0));
    ed.do_left();
    assert_eq!((ed.buffers[0].current, ed.buffers[0].current_x), (0, 3));
    ed.buffers[0].current_x = 2;
    ed.buffers[0].placewewant = 2;
    ed.do_down();
    ed.do_up();
    assert_eq!((ed.buffers[0].current, ed.buffers[0].current_x, ed.buffers[0].placewewant), (0, 2, 2));
}

#[test]
fn commenting_commented_lines_twice_gives_them_back() {
    let mut ed = editor_with("  #x\n#y");
    ed.buffers[0].mark = Some(0);
    ed.buffers[0].current = 1;
    ed.do_comment();
    assert_eq!(texts(&ed), vec!["  x".to_string(), "y".to_string()]);
    ed.do_comment();
    assert_eq!(texts(&ed), vec!["  #x".to_string(), "#y".to_string()]);
}

#[test]
fn history_text_loads_back() {
    let mut ed = editor_with("x");
    ed.add_to_search_history("foo");
    ed.add_to_search_history("bar");
    ed.add_to_replace_history("baz");
    let text = ed.history_text();
    let mut other = editor_with("y");
    other.load_history(&text);
    assert_eq!(other.search_history, vec!["foo".to_string(), "bar".to_string()]);
    assert_eq!(other.replace_history, vec!["baz".to_string()]);
}

#[test]
fn word_moves_land_on_word_starts() {
    let mut ed = editor_with("foo, bar\n  baz");
    ed.to_next_word();
    assert_eq!((ed.buffers[0].current, ed.buffers[0].current_x), (0, 5));
    ed.to_next_word();
    assert_eq!((ed.buffers[0].current, ed.buffers[0].current_x), (1, 2));
    ed.to_prev_word();
    assert_eq!((ed.buffers[0].current, ed.buffers[0].current_x), (0, 5));
    ed.to_prev_word();
    assert_eq!((ed.buffers[0].current, ed.buffers[0].current_x), (0, 0));
}
