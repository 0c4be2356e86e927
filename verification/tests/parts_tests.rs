use rano::browser::{arrange_entries, browser_row_text, browser_status_text, BrowserAction, BrowserEntry, BrowserState};
use rano::chars::{breadth, control_rep, strcasestr, is_word_char};
use rano::color::{extract_quoted_strings, parse_color_name, parse_color_spec};
use rano::definitions::{EditorFlags, KeyCode};
use rano::editor::{Editor, Options};
use rano::help::{help_status_text, lines_of_text};
use rano::prompt::PromptOutcome;
use rano::rcfile::simple_glob_match;
use rano::utils::{digits, expand_tilde, parse_line_column, parse_num, tail};
use rano::winio::{translate_key, KeyPress, RawKey};

fn opts() -> Options {
    Options {
        line_numbers: false,
        mouse: false,
        constant_show: false,
        autoindent: false,
        softwrap: false,
        tabsize: 8,
        tabs_to_spaces: false,
        no_wrap: false,
        no_help: false,
        bold_text: false,
        view: false,
        no_newlines: false,
        backup: false,
    }
}

fn entry(name: &str, is_dir: bool) -> BrowserEntry {
    BrowserEntry { name: name.to_string(), path: format!("/d/{}", name), is_dir, size: 7 }
}

#[test]
fn listing_puts_parent_then_directories_then_files() {
    let found = vec![entry("b", false), entry("Zed", true), entry(".hidden", false), entry("a", false), entry("apps", true)];
    let listed = arrange_entries(Some("/".to_string()), found);
    let names: Vec<&str> = listed.iter().map(|e| e.name.as_str()).collect();
    assert_eq!(names, vec!["..", "apps", "Zed", "a", "b"]);
    assert_eq!(listed[0].path, "/");
    assert!(listed[0].is_dir);
}

#[test]
fn browser_keys_move_and_choose() {
    let mut ed = Editor::new(&opts(), 80, 24, vec![]);
    let mut st = BrowserState {
        entries: arrange_entries(None, vec![entry("sub", true), entry("f.txt", false)]),
        selected: 0,
        top: 0,
    };
    assert!(matches!(ed.do_browser(&mut st, &KeyCode::Down), BrowserAction::Stay));
    assert_eq!(st.selected, 1);
    match ed.do_browser(&mut st, &KeyCode::Enter) {
        BrowserAction::Choose(p) => assert_eq!(p, "/d/f.txt"),
        _ => panic!("expected a chosen file"),
    }
    assert_eq!(browser_status_text(&st), "f.txt (7 bytes)");
    st.selected = 0;
    match ed.do_browser(&mut st, &KeyCode::Enter) {
        BrowserAction::Open(p) => assert_eq!(p, "/d/sub"),
        _ => panic!("expected a directory"),
    }
    assert_eq!(browser_status_text(&st), "Directory: sub");
    assert!(matches!(ed.do_browser(&mut st, &KeyCode::Escape), BrowserAction::Cancel));
    ed.editwinrows = 1;
    ed.do_browser(&mut st, &KeyCode::End);
    assert_eq!(st.selected, 1);
    assert_eq!(st.top, 1);
}

#[test]
fn browser_rows_are_cut_to_the_width() {
    assert_eq!(browser_row_text(&entry("sub", true), 80), "Dir  sub");
    assert_eq!(browser_row_text(&entry("file", false), 7), "     fi");
}

#[test]
fn prompt_edits_the_answer() {
    let mut ed = Editor::new(&opts(), 80, 24, vec![]);
    let mut st = ed.start_prompt("ab");
    assert_eq!(st.typing_x, 2);
    assert!(matches!(ed.do_prompt_with_default(&mut st, &KeyCode::Backspace), PromptOutcome::Continue));
    assert_eq!(st.answer, "a");
    ed.do_prompt_with_default(&mut st, &KeyCode::Char('é'));
    assert_eq!(st.answer, "aé");
    assert_eq!(st.typing_x, 3);
    ed.do_prompt_with_default(&mut st, &KeyCode::Home);
    ed.do_prompt_with_default(&mut st, &KeyCode::Delete);
    assert_eq!(st.answer, "é");
    match ed.do_prompt_with_default(&mut st, &KeyCode::Enter) {
        PromptOutcome::Done(a) => assert_eq!(a, "é"),
        PromptOutcome::Continue => panic!("Enter ends the prompt"),
    }
    match ed.do_prompt_with_default(&mut st, &KeyCode::Escape) {
        PromptOutcome::Done(a) => assert_eq!(a, ""),
        PromptOutcome::Continue => panic!("Escape ends the prompt"),
    }
}

#[test]
fn prompt_ctrl_k_cuts_after_the_cursor() {
    let ed = Editor::new(&opts(), 80, 24, vec![]);
    let mut ed = ed;
    let mut st = ed.start_prompt("hello");
    ed.do_prompt_with_default(&mut st, &KeyCode::Left);
    ed.do_prompt_with_default(&mut st, &KeyCode::Left);
    ed.do_prompt_with_default(&mut st, &KeyCode::Ctrl('k'));
    assert_eq!(st.answer, "hel");
    ed.do_prompt_with_default(&mut st, &KeyCode::Ctrl('k'));
    assert_eq!(st.answer, "");
}

#[test]
fn yes_no_answers() {
    let ed = Editor::new(&opts(), 80, 24, vec![]);
    assert_eq!(ed.ask_yes_no(&KeyCode::Char('Y')), Some(rano::definitions::AskResult::Yes));
    assert_eq!(ed.ask_yes_no(&KeyCode::Char('n')), Some(rano::definitions::AskResult::No));
    assert_eq!(ed.ask_yes_no(&KeyCode::Ctrl('c')), Some(rano::definitions::AskResult::Cancel));
    assert_eq!(ed.ask_yes_no(&KeyCode::Char('x')), None);
}

#[test]
fn help_text_and_keys() {
    let mut ed = Editor::new(&opts(), 80, 24, vec![]);
    let text = ed.build_help_text();
    assert!(text.starts_with(" rano help text\n\n The main shortcuts are:\n\n"));
    assert!(text.contains("         ^G   Help\n"));
    let mut st = ed.start_help();
    assert!(ed.inhelp);
    assert_eq!(st.lines[0], " rano help text");
    assert_eq!(st.lines[1], "");
    assert!(!ed.do_help(&mut st, &KeyCode::Down));
    assert_eq!(st.top, 1);
    assert_eq!(help_status_text(&st), format!("[ line 2/{} ({}%) ]", st.lines.len(), 200 / st.lines.len()));
    assert!(ed.do_help(&mut st, &KeyCode::Char('q')));
    assert!(!ed.inhelp);
}

#[test]
fn text_lines_like_str_lines() {
    assert_eq!(lines_of_text("a\r\nb\n"), vec!["a".to_string(), "b".to_string()]);
    assert_eq!(lines_of_text("a\n\nb"), vec!["a".to_string(), String::new(), "b".to_string()]);
    assert!(lines_of_text("").is_empty());
}

#[test]
fn rc_set_and_unset() {
    let mut ed = Editor::new(&opts(), 80, 24, vec![]);
    assert_eq!(ed.parse_rc_line("  set tabsize 4"), None);
    assert_eq!(ed.tabsize, 4);
    ed.parse_rc_line("set tabsize 0");
    assert_eq!(ed.tabsize, 4);
    ed.parse_rc_line("set tabsize +9000");
    assert_eq!(ed.tabsize, 4);
    ed.parse_rc_line("set linenumbers");
    assert!(ed.flags.contains(EditorFlags::LINE_NUMBERS));
    ed.parse_rc_line("unset linenumbers");
    assert!(!ed.flags.contains(EditorFlags::LINE_NUMBERS));
    ed.parse_rc_line("set wordchars \"_-\"");
    assert_eq!(ed.word_chars, Some("_-".to_string()));
    ed.parse_rc_line("# set mouse");
    assert!(!ed.flags.contains(EditorFlags::USE_MOUSE));
    assert_eq!(ed.parse_rc_line("include \"~/syntax/*.nanorc\""), Some("~/syntax/*.nanorc".to_string()));
}

#[test]
fn rc_syntax_directives_build_a_definition() {
    let mut ed = Editor::new(&opts(), 80, 24, vec![("main.rs".to_string(), Some("fn main() {}".to_string()))]);
    ed.parse_rc_line("syntax rust \"\\.rs$\"");
    ed.parse_rc_line("color brightred,blue \"fn\" \"main\"");
    ed.parse_rc_line("icolor green start=\"/\\*\" end=\"\\*/\"");
    ed.parse_rc_line("comment \"//\"");
    ed.parse_rc_line("linter \"cargo clippy\"");
    assert_eq!(ed.syntaxes.len(), 1);
    let syn = &ed.syntaxes[0];
    assert_eq!(syn.name, "rust");
    assert_eq!(syn.extensions.len(), 1);
    assert_eq!(syn.colors.len(), 3);
    assert_eq!((syn.colors[0].fg, syn.colors[0].bg, syn.colors[0].bold, syn.colors[0].id), (9, 4, true, 0));
    assert_eq!(syn.colors[2].id, 2);
    assert!(syn.colors[2].end.is_some());
    assert_eq!(syn.comment, Some("//".to_string()));
    assert_eq!(syn.linter, Some("cargo clippy".to_string()));
    ed.find_and_apply_syntax();
    assert_eq!(ed.buffers[0].syntax, Some(0));
    assert_eq!(ed.color_line("fn main", 0), vec![(0, 2, 0), (3, 7, 1)]);
}

#[test]
fn syntax_by_header_and_default() {
    let mut ed = Editor::new(&opts(), 80, 24, vec![("script".to_string(), Some("#!/bin/sh\necho".to_string()))]);
    ed.parse_rc_line("syntax \"default\"");
    ed.parse_rc_line("syntax sh \"\\.sh$\"");
    ed.parse_rc_line("header \"^#!.*sh\"");
    ed.find_and_apply_syntax();
    assert_eq!(ed.buffers[0].syntax, Some(1));
    let mut plain = Editor::new(&opts(), 80, 24, vec![("notes".to_string(), Some("hello".to_string()))]);
    plain.parse_rc_line("syntax \"default\"");
    plain.parse_rc_line("syntax sh \"\\.sh$\"");
    plain.find_and_apply_syntax();
    assert_eq!(plain.buffers[0].syntax, Some(0));
}

#[test]
fn color_names_and_specs() {
    assert_eq!(parse_color_name("brightgreen"), (10, true));
    assert_eq!(parse_color_name(" normal "), (-1, false));
    assert_eq!(parse_color_name("boldpurple"), (-1, true));
    assert_eq!(parse_color_spec("yellow,red"), (3, 1, false));
    assert_eq!(parse_color_spec("brightwhite"), (15, -1, true));
}

#[test]
fn quoted_strings_and_globs() {
    assert_eq!(extract_quoted_strings("\"a\" x \"b c\" \"d"), vec!["a".to_string(), "b c".to_string(), "d".to_string()]);
    assert!(extract_quoted_strings("none").is_empty());
    assert!(simple_glob_match("*.nanorc", "rust.nanorc"));
    assert!(simple_glob_match("r?st.*", "rust.nanorc"));
    assert!(!simple_glob_match("?.rs", "ab.rs"));
    assert!(simple_glob_match("*", ""));
}

#[test]
fn utilities() {
    assert_eq!(digits(0), 1);
    assert_eq!(digits(100), 3);
    assert_eq!(parse_num(" 42 "), Some(42));
    assert_eq!(parse_num("x"), None);
    assert_eq!(parse_line_column("3,4"), (Some(3), Some(4)));
    assert_eq!(parse_line_column(",7"), (None, Some(7)));
    assert_eq!(tail("/a/b.txt"), "b.txt");
    assert_eq!(expand_tilde("~/x", &Some("/home/u".to_string())), "/home/u/x");
    assert_eq!(expand_tilde("~user/x", &Some("/home/u".to_string())), "~user/x");
}

#[test]
fn characters_and_widths() {
    assert_eq!(control_rep('\u{1}'), 'A');
    assert_eq!(control_rep('\u{7f}'), '?');
    assert!(is_word_char('a', false, &None));
    assert!(!is_word_char('-', false, &None));
    assert!(is_word_char('-', false, &Some("-".to_string())));
    assert_eq!(breadth("a\tb", 8), 9);
    assert_eq!(breadth("中", 8), 2);
    assert_eq!(strcasestr("Hello", "ELL"), Some(1));
}

#[test]
fn key_presses_become_key_codes() {
    let ctrl_a = KeyPress { code: RawKey::Char('A'), ctrl: true, alt: false, shift: false };
    assert!(matches!(translate_key(ctrl_a), KeyCode::Ctrl('a')));
    let alt_x = KeyPress { code: RawKey::Char('x'), ctrl: false, alt: true, shift: false };
    assert!(matches!(translate_key(alt_x), KeyCode::Alt('x')));
    let up = KeyPress { code: RawKey::Up, ctrl: false, alt: false, shift: false };
    assert!(matches!(translate_key(up), KeyCode::Up));
}
