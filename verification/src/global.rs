//! The default function table and key bindings, and lookups in them.
use vstd::prelude::*;

use crate::definitions::{
    EditorFlags, EditorFunction, FuncEntry, KeyBinding, KeyCode, KeyView, Menu, SpecialKey,
    SpecialKeyView,
};
use crate::textseq::copy_text;

verus! {

/// The default function table, entry by entry: the function, its tag, the
/// phrase that describes it, and the menus it shows in.
pub open spec fn func_table_spec() -> Seq<(EditorFunction, Seq<char>, Seq<char>, u16)> {
    seq![
        (EditorFunction::DoHelp, "Help"@, "Invoke the help viewer"@, Menu::MOST),
        (EditorFunction::DoExit, "Exit"@, "Close the current buffer / Exit from rano"@, Menu::MAIN),
        (EditorFunction::DoWriteOut, "Write Out"@, "Write the current buffer to disk"@, Menu::MAIN),
        (EditorFunction::DoSearch, "Where Is"@, "Search for a string or a regular expression"@, Menu::MAIN),
        (EditorFunction::CutText, "Cut"@, "Cut current line (or marked region) and store it"@, Menu::MAIN),
        (EditorFunction::PasteText, "Paste"@, "Paste the stored text into the current buffer"@, Menu::MAIN),
        (EditorFunction::DoReplace, "Replace"@, "Search for and replace a string"@, Menu::MAIN),
        (EditorFunction::DoGotoLineColumn, "Go To Line"@, "Go to a specific line and column number"@, Menu::MAIN),
        (EditorFunction::DoInsertFile, "Read File"@, "Insert another file into current buffer"@, Menu::MAIN),
        (EditorFunction::DoSearchForward, "Where Next"@, "Search next occurrence forward"@, Menu::MAIN),
        (EditorFunction::DoSearchBackward, "Where Previous"@, "Search next occurrence backward"@, Menu::MAIN),
        (EditorFunction::DoSaveFile, "Save"@, "Save file without prompting"@, Menu::MAIN),
        (EditorFunction::DoUndo, "Undo"@, "Undo the last operation"@, Menu::MAIN),
        (EditorFunction::DoRedo, "Redo"@, "Redo the last undone operation"@, Menu::MAIN),
        (EditorFunction::DoMark, "Set Mark"@, "Mark text starting from the cursor position"@, Menu::MAIN),
        (EditorFunction::CopyText, "Copy"@, "Copy current line (or marked region)"@, Menu::MAIN),
        (EditorFunction::DoIndent, "Indent"@, "Indent the current line (or marked lines)"@, Menu::MAIN),
        (EditorFunction::DoUnindent, "Unindent"@, "Unindent the current line (or marked lines)"@, Menu::MAIN),
        (EditorFunction::DoComment, "Comment"@, "Comment/uncomment the current line (or marked lines)"@, Menu::MAIN),
        (EditorFunction::DoVerbatimInput, "Verbatim"@, "Insert the next keystroke verbatim"@, Menu::MAIN),
        (EditorFunction::DoTab, "Tab"@, "Insert a tab at the cursor position"@, Menu::MAIN),
        (EditorFunction::DoEnter, "Enter"@, "Insert a newline at the cursor position"@, Menu::MAIN),
        (EditorFunction::DoDelete, "Delete"@, "Delete the character under the cursor"@, Menu::MAIN),
        (EditorFunction::DoBackspace, "Backspace"@, "Delete the character before the cursor"@, Menu::MAIN),
        (EditorFunction::CutTillEof, "Cut Till End"@, "Cut from cursor to end of file"@, Menu::MAIN),
        (EditorFunction::ZapText, "Zap"@, "Throw away the current line (or marked region)"@, Menu::MAIN),
        (EditorFunction::DoSpell, "Spell Check"@, "Invoke the spell checker"@, Menu::MAIN),
        (EditorFunction::DoLinter, "Linter"@, "Invoke the linter, if available"@, Menu::MAIN),
        (EditorFunction::DoFormatter, "Formatter"@, "Invoke the formatter, if available"@, Menu::MAIN),
        (EditorFunction::DoUp, "Up"@, "Move up one line"@, Menu::MAIN),
        (EditorFunction::DoDown, "Down"@, "Move down one line"@, Menu::MAIN),
        (EditorFunction::DoLeft, "Left"@, "Move back one character"@, Menu::MAIN),
        (EditorFunction::DoRight, "Right"@, "Move forward one character"@, Menu::MAIN),
        (EditorFunction::DoHome, "Home"@, "Move to the beginning of the line"@, Menu::MAIN),
        (EditorFunction::DoEnd, "End"@, "Move to the end of the line"@, Menu::MAIN),
        (EditorFunction::DoPageUp, "Page Up"@, "Move up one screenful"@, Menu::MAIN),
        (EditorFunction::DoPageDown, "Page Down"@, "Move down one screenful"@, Menu::MAIN),
        (EditorFunction::ToFirstLine, "First Line"@, "Go to the first line of the file"@, Menu::MAIN),
        (EditorFunction::ToLastLine, "Last Line"@, "Go to the last line of the file"@, Menu::MAIN),
        (EditorFunction::ToPrevWord, "Prev Word"@, "Move to the previous word"@, Menu::MAIN),
        (EditorFunction::ToNextWord, "Next Word"@, "Move to the next word"@, Menu::MAIN),
        (EditorFunction::ToPrevBlock, "Prev Block"@, "Move to the previous block of text"@, Menu::MAIN),
        (EditorFunction::ToNextBlock, "Next Block"@, "Move to the next block of text"@, Menu::MAIN),
        (EditorFunction::DoScrollUp, "Scroll Up"@, "Scroll up one line without moving cursor"@, Menu::MAIN),
        (EditorFunction::DoScrollDown, "Scroll Down"@, "Scroll down one line without moving cursor"@, Menu::MAIN),
        (EditorFunction::DoCycle, "Center/Top/Bottom"@, "Center/Top/Bottom the line with the cursor"@, Menu::MAIN),
    ]
}

/// A function table as plain values.
pub open spec fn func_entries(fs: Seq<FuncEntry>) -> Seq<(EditorFunction, Seq<char>, Seq<char>, u16)> {
    Seq::new(fs.len(), |i: int| (fs[i].func, fs[i].tag@, fs[i].phrase@, fs[i].menus.bits))
}

/// Build the default function table (what appears in help and the bottom bars).
pub fn build_func_table() -> (r: Vec<FuncEntry>)
    ensures
        func_entries(r@) == func_table_spec(),
        forall|i: int| 0 <= i < r@.len() ==> !#[trigger] r@[i].blank_after,
{
    let funcs = vec![
        FuncEntry { func: EditorFunction::DoHelp, tag: "Help", phrase: "Invoke the help viewer", blank_after: false, menus: Menu { bits: Menu::MOST } },
        FuncEntry { func: EditorFunction::DoExit, tag: "Exit", phrase: "Close the current buffer / Exit from rano", blank_after: false, menus: Menu { bits: Menu::MAIN } },
        FuncEntry { func: EditorFunction::DoWriteOut, tag: "Write Out", phrase: "Write the current buffer to disk", blank_after: false, menus: Menu { bits: Menu::MAIN } },
        FuncEntry { func: EditorFunction::DoSearch, tag: "Where Is", phrase: "Search for a string or a regular expression", blank_after: false, menus: Menu { bits: Menu::MAIN } },
        FuncEntry { func: EditorFunction::CutText, tag: "Cut", phrase: "Cut current line (or marked region) and store it", blank_after: false, menus: Menu { bits: Menu::MAIN } },
        FuncEntry { func: EditorFunction::PasteText, tag: "Paste", phrase: "Paste the stored text into the current buffer", blank_after: false, menus: Menu { bits: Menu::MAIN } },
        FuncEntry { func: EditorFunction::DoReplace, tag: "Replace", phrase: "Search for and replace a string", blank_after: false, menus: Menu { bits: Menu::MAIN } },
        FuncEntry { func: EditorFunction::DoGotoLineColumn, tag: "Go To Line", phrase: "Go to a specific line and column number", blank_after: false, menus: Menu { bits: Menu::MAIN } },
        FuncEntry { func: EditorFunction::DoInsertFile, tag: "Read File", phrase: "Insert another file into current buffer", blank_after: false, menus: Menu { bits: Menu::MAIN } },
        FuncEntry { func: EditorFunction::DoSearchForward, tag: "Where Next", phrase: "Search next occurrence forward", blank_after: false, menus: Menu { bits: Menu::MAIN } },
        FuncEntry { func: EditorFunction::DoSearchBackward, tag: "Where Previous", phrase: "Search next occurrence backward", blank_after: false, menus: Menu { bits: Menu::MAIN } },
        FuncEntry { func: EditorFunction::DoSaveFile, tag: "Save", phrase: "Save file without prompting", blank_after: false, menus: Menu { bits: Menu::MAIN } },
        FuncEntry { func: EditorFunction::DoUndo, tag: "Undo", phrase: "Undo the last operation", blank_after: false, menus: Menu { bits: Menu::MAIN } },
        FuncEntry { func: EditorFunction::DoRedo, tag: "Redo", phrase: "Redo the last undone operation", blank_after: false, menus: Menu { bits: Menu::MAIN } },
        FuncEntry { func: EditorFunction::DoMark, tag: "Set Mark", phrase: "Mark text starting from the cursor position", blank_after: false, menus: Menu { bits: Menu::MAIN } },
        FuncEntry { func: EditorFunction::CopyText, tag: "Copy", phrase: "Copy current line (or marked region)", blank_after: false, menus: Menu { bits: Menu::MAIN } },
        FuncEntry { func: EditorFunction::DoIndent, tag: "Indent", phrase: "Indent the current line (or marked lines)", blank_after: false, menus: Menu { bits: Menu::MAIN } },
        FuncEntry { func: EditorFunction::DoUnindent, tag: "Unindent", phrase: "Unindent the current line (or marked lines)", blank_after: false, menus: Menu { bits: Menu::MAIN } },
        FuncEntry { func: EditorFunction::DoComment, tag: "Comment", phrase: "Comment/uncomment the current line (or marked lines)", blank_after: false, menus: Menu { bits: Menu::MAIN } },
        FuncEntry { func: EditorFunction::DoVerbatimInput, tag: "Verbatim", phrase: "Insert the next keystroke verbatim", blank_after: false, menus: Menu { bits: Menu::MAIN } },
        FuncEntry { func: EditorFunction::DoTab, tag: "Tab", phrase: "Insert a tab at the cursor position", blank_after: false, menus: Menu { bits: Menu::MAIN } },
        FuncEntry { func: EditorFunction::DoEnter, tag: "Enter", phrase: "Insert a newline at the cursor position", blank_after: false, menus: Menu { bits: Menu::MAIN } },
        FuncEntry { func: EditorFunction::DoDelete, tag: "Delete", phrase: "Delete the character under the cursor", blank_after: false, menus: Menu { bits: Menu::MAIN } },
        FuncEntry { func: EditorFunction::DoBackspace, tag: "Backspace", phrase: "Delete the character before the cursor", blank_after: false, menus: Menu { bits: Menu::MAIN } },
        FuncEntry { func: EditorFunction::CutTillEof, tag: "Cut Till End", phrase: "Cut from cursor to end of file", blank_after: false, menus: Menu { bits: Menu::MAIN } },
        FuncEntry { func: EditorFunction::ZapText, tag: "Zap", phrase: "Throw away the current line (or marked region)", blank_after: false, menus: Menu { bits: Menu::MAIN } },
        FuncEntry { func: EditorFunction::DoSpell, tag: "Spell Check", phrase: "Invoke the spell checker", blank_after: false, menus: Menu { bits: Menu::MAIN } },
        FuncEntry { func: EditorFunction::DoLinter, tag: "Linter", phrase: "Invoke the linter, if available", blank_after: false, menus: Menu { bits: Menu::MAIN } },
        FuncEntry { func: EditorFunction::DoFormatter, tag: "Formatter", phrase: "Invoke the formatter, if available", blank_after: false, menus: Menu { bits: Menu::MAIN } },
        FuncEntry { func: EditorFunction::DoUp, tag: "Up", phrase: "Move up one line", blank_after: false, menus: Menu { bits: Menu::MAIN } },
        FuncEntry { func: EditorFunction::DoDown, tag: "Down", phrase: "Move down one line", blank_after: false, menus: Menu { bits: Menu::MAIN } },
        FuncEntry { func: EditorFunction::DoLeft, tag: "Left", phrase: "Move back one character", blank_after: false, menus: Menu { bits: Menu::MAIN } },
        FuncEntry { func: EditorFunction::DoRight, tag: "Right", phrase: "Move forward one character", blank_after: false, menus: Menu { bits: Menu::MAIN } },
        FuncEntry { func: EditorFunction::DoHome, tag: "Home", phrase: "Move to the beginning of the line", blank_after: false, menus: Menu { bits: Menu::MAIN } },
        FuncEntry { func: EditorFunction::DoEnd, tag: "End", phrase: "Move to the end of the line", blank_after: false, menus: Menu { bits: Menu::MAIN } },
        FuncEntry { func: EditorFunction::DoPageUp, tag: "Page Up", phrase: "Move up one screenful", blank_after: false, menus: Menu { bits: Menu::MAIN } },
        FuncEntry { func: EditorFunction::DoPageDown, tag: "Page Down", phrase: "Move down one screenful", blank_after: false, menus: Menu { bits: Menu::MAIN } },
        FuncEntry { func: EditorFunction::ToFirstLine, tag: "First Line", phrase: "Go to the first line of the file", blank_after: false, menus: Menu { bits: Menu::MAIN } },
        FuncEntry { func: EditorFunction::ToLastLine, tag: "Last Line", phrase: "Go to the last line of the file", blank_after: false, menus: Menu { bits: Menu::MAIN } },
        FuncEntry { func: EditorFunction::ToPrevWord, tag: "Prev Word", phrase: "Move to the previous word", blank_after: false, menus: Menu { bits: Menu::MAIN } },
        FuncEntry { func: EditorFunction::ToNextWord, tag: "Next Word", phrase: "Move to the next word", blank_after: false, menus: Menu { bits: Menu::MAIN } },
        FuncEntry { func: EditorFunction::ToPrevBlock, tag: "Prev Block", phrase: "Move to the previous block of text", blank_after: false, menus: Menu { bits: Menu::MAIN } },
        FuncEntry { func: EditorFunction::ToNextBlock, tag: "Next Block", phrase: "Move to the next block of text", blank_after: false, menus: Menu { bits: Menu::MAIN } },
        FuncEntry { func: EditorFunction::DoScrollUp, tag: "Scroll Up", phrase: "Scroll up one line without moving cursor", blank_after: false, menus: Menu { bits: Menu::MAIN } },
        FuncEntry { func: EditorFunction::DoScrollDown, tag: "Scroll Down", phrase: "Scroll down one line without moving cursor", blank_after: false, menus: Menu { bits: Menu::MAIN } },
        FuncEntry { func: EditorFunction::DoCycle, tag: "Center/Top/Bottom", phrase: "Center/Top/Bottom the line with the cursor", blank_after: false, menus: Menu { bits: Menu::MAIN } },
    ];
    assert(func_entries(funcs@) =~= func_table_spec());
    funcs
}

/// The default key bindings, one by one: the key's name, the key, the menus
/// it works in, and the function it calls.
pub open spec fn keybinding_spec() -> Seq<(Seq<char>, KeyView, u16, EditorFunction)> {
    seq![
        ("^G"@, KeyView::Ctrl('g'), Menu::MAIN, EditorFunction::DoHelp),
        ("^X"@, KeyView::Ctrl('x'), Menu::MAIN, EditorFunction::DoExit),
        ("^O"@, KeyView::Ctrl('o'), Menu::MAIN, EditorFunction::DoWriteOut),
        ("^S"@, KeyView::Ctrl('s'), Menu::MAIN, EditorFunction::DoSaveFile),
        ("^R"@, KeyView::Ctrl('r'), Menu::MAIN, EditorFunction::DoInsertFile),
        ("^W"@, KeyView::Ctrl('w'), Menu::MAIN, EditorFunction::DoSearch),
        ("^\\"@, KeyView::Ctrl('\\'), Menu::MAIN, EditorFunction::DoReplace),
        ("^K"@, KeyView::Ctrl('k'), Menu::MAIN, EditorFunction::CutText),
        ("^U"@, KeyView::Ctrl('u'), Menu::MAIN, EditorFunction::PasteText),
        ("^T"@, KeyView::Ctrl('t'), Menu::MAIN, EditorFunction::DoSuspend),
        ("^J"@, KeyView::Ctrl('j'), Menu::MAIN, EditorFunction::DoJustify),
        ("^C"@, KeyView::Ctrl('c'), Menu::MAIN, EditorFunction::ReportCursorPosition),
        ("^_"@, KeyView::Ctrl('_'), Menu::MAIN, EditorFunction::DoGotoLineColumn),
        ("Up"@, KeyView::Up, Menu::MAIN, EditorFunction::DoUp),
        ("Down"@, KeyView::Down, Menu::MAIN, EditorFunction::DoDown),
        ("Left"@, KeyView::Left, Menu::MAIN, EditorFunction::DoLeft),
        ("Right"@, KeyView::Right, Menu::MAIN, EditorFunction::DoRight),
        ("Home"@, KeyView::Home, Menu::MAIN, EditorFunction::DoHome),
        ("End"@, KeyView::End, Menu::MAIN, EditorFunction::DoEnd),
        ("PgUp"@, KeyView::PageUp, Menu::MAIN, EditorFunction::DoPageUp),
        ("PgDn"@, KeyView::PageDown, Menu::MAIN, EditorFunction::DoPageDown),
        ("^Home"@, KeyView::Special(SpecialKeyView::ControlHome), Menu::MAIN, EditorFunction::ToFirstLine),
        ("^End"@, KeyView::Special(SpecialKeyView::ControlEnd), Menu::MAIN, EditorFunction::ToLastLine),
        ("M-\\"@, KeyView::Alt('\\'), Menu::MAIN, EditorFunction::ToFirstLine),
        ("M-/"@, KeyView::Alt('/'), Menu::MAIN, EditorFunction::ToLastLine),
        ("^Left"@, KeyView::Special(SpecialKeyView::ControlLeft), Menu::MAIN, EditorFunction::ToPrevWord),
        ("^Right"@, KeyView::Special(SpecialKeyView::ControlRight), Menu::MAIN, EditorFunction::ToNextWord),
        ("M-Up"@, KeyView::Special(SpecialKeyView::AltUp), Menu::MAIN, EditorFunction::ToPrevBlock),
        ("M-Down"@, KeyView::Special(SpecialKeyView::AltDown), Menu::MAIN, EditorFunction::ToNextBlock),
        ("M-Up"@, KeyView::Alt('p'), Menu::MAIN, EditorFunction::DoScrollUp),
        ("M-Down"@, KeyView::Alt('n'), Menu::MAIN, EditorFunction::DoScrollDown),
        ("^H"@, KeyView::Backspace, Menu::MAIN, EditorFunction::DoBackspace),
        ("Del"@, KeyView::Delete, Menu::MAIN, EditorFunction::DoDelete),
        ("Tab"@, KeyView::Tab, Menu::MAIN, EditorFunction::DoTab),
        ("Enter"@, KeyView::Enter, Menu::MAIN, EditorFunction::DoEnter),
        ("^V"@, KeyView::Ctrl('v'), Menu::MAIN, EditorFunction::DoVerbatimInput),
        ("M-U"@, KeyView::Alt('u'), Menu::MAIN, EditorFunction::DoUndo),
        ("M-E"@, KeyView::Alt('e'), Menu::MAIN, EditorFunction::DoRedo),
        ("M-A"@, KeyView::Alt('a'), Menu::MAIN, EditorFunction::DoMark),
        ("M-6"@, KeyView::Alt('6'), Menu::MAIN, EditorFunction::CopyText),
        ("M-}"@, KeyView::Alt('}'), Menu::MAIN, EditorFunction::DoIndent),
        ("M-{"@, KeyView::Alt('{'), Menu::MAIN, EditorFunction::DoUnindent),
        ("M-3"@, KeyView::Alt('3'), Menu::MAIN, EditorFunction::DoComment),
        ("^C"@, KeyView::Ctrl('c'), Menu::WHEREIS, EditorFunction::DoCancel),
        ("^C"@, KeyView::Ctrl('c'), Menu::REPLACE, EditorFunction::DoCancel),
        ("^C"@, KeyView::Ctrl('c'), Menu::REPLACEWITH, EditorFunction::DoCancel),
        ("^C"@, KeyView::Ctrl('c'), Menu::GOTOLINE, EditorFunction::DoCancel),
        ("M-C"@, KeyView::Alt('c'), Menu::WHEREIS, EditorFunction::CaseSensVoid),
        ("M-R"@, KeyView::Alt('r'), Menu::WHEREIS, EditorFunction::RegexpVoid),
        ("M-B"@, KeyView::Alt('b'), Menu::WHEREIS, EditorFunction::BackwardsVoid),
        ("^R"@, KeyView::Ctrl('r'), Menu::WHEREIS, EditorFunction::FlipReplace),
        ("M-W"@, KeyView::Alt('w'), Menu::MAIN, EditorFunction::DoFindNext),
        ("M-Q"@, KeyView::Alt('q'), Menu::MAIN, EditorFunction::DoFindPrevious),
        ("M-]"@, KeyView::Alt(']'), Menu::MAIN, EditorFunction::DoFindBracket),
        ("M-<"@, KeyView::Alt('<'), Menu::MAIN, EditorFunction::SwitchToPrevBuffer),
        ("M->"@, KeyView::Alt('>'), Menu::MAIN, EditorFunction::SwitchToNextBuffer),
        ("^Z"@, KeyView::Ctrl('z'), Menu::MAIN, EditorFunction::DoUndo),
        ("^Y"@, KeyView::Ctrl('y'), Menu::MAIN, EditorFunction::DoRedo),
        ("^6"@, KeyView::Ctrl('6'), Menu::MAIN, EditorFunction::DoMark),
        ("^]"@, KeyView::Ctrl(']'), Menu::MAIN, EditorFunction::CompleteAWord),
        ("M-Ins"@, KeyView::Special(SpecialKeyView::AltInsert), Menu::MAIN, EditorFunction::PutOrLiftAnchor),
        ("^C"@, KeyView::Ctrl('c'), Menu::YESNO, EditorFunction::DoCancel),
    ]
}

/// Key bindings as plain values.
pub open spec fn binding_entries(ks: Seq<KeyBinding>) -> Seq<(Seq<char>, KeyView, u16, EditorFunction)> {
    Seq::new(ks.len(), |i: int| (ks[i].keystr@, ks[i].keycode@, ks[i].menus.bits, ks[i].func))
}

/// A key binding with no toggle, ordinal or expansion.
fn plain_binding(keystr: &str, keycode: KeyCode, menus: u16, func: EditorFunction) -> (r: KeyBinding)
    ensures
        r.keystr@ == keystr@,
        r.keycode@ == keycode@,
        r.menus.bits == menus,
        r.func == func,
        r.toggle is None,
        r.ordinal is None,
        r.expansion is None,
{
    KeyBinding {
        keystr: copy_text(keystr),
        keycode,
        menus: Menu { bits: menus },
        func,
        toggle: None,
        ordinal: None,
        expansion: None,
    }
}

/// Build the default key binding table.
pub fn build_keybindings() -> (r: Vec<KeyBinding>)
    ensures
        binding_entries(r@) == keybinding_spec(),
        forall|i: int|
            0 <= i < r@.len() ==> (#[trigger] r@[i]).toggle is None && r@[i].ordinal is None
                && r@[i].expansion is None,
{
    let keys = vec![
        plain_binding("^G", KeyCode::Ctrl('g'), Menu::MAIN, EditorFunction::DoHelp),
        plain_binding("^X", KeyCode::Ctrl('x'), Menu::MAIN, EditorFunction::DoExit),
        plain_binding("^O", KeyCode::Ctrl('o'), Menu::MAIN, EditorFunction::DoWriteOut),
        plain_binding("^S", KeyCode::Ctrl('s'), Menu::MAIN, EditorFunction::DoSaveFile),
        plain_binding("^R", KeyCode::Ctrl('r'), Menu::MAIN, EditorFunction::DoInsertFile),
        plain_binding("^W", KeyCode::Ctrl('w'), Menu::MAIN, EditorFunction::DoSearch),
        plain_binding("^\\", KeyCode::Ctrl('\\'), Menu::MAIN, EditorFunction::DoReplace),
        plain_binding("^K", KeyCode::Ctrl('k'), Menu::MAIN, EditorFunction::CutText),
        plain_binding("^U", KeyCode::Ctrl('u'), Menu::MAIN, EditorFunction::PasteText),
        plain_binding("^T", KeyCode::Ctrl('t'), Menu::MAIN, EditorFunction::DoSuspend),
        plain_binding("^J", KeyCode::Ctrl('j'), Menu::MAIN, EditorFunction::DoJustify),
        plain_binding("^C", KeyCode::Ctrl('c'), Menu::MAIN, EditorFunction::ReportCursorPosition),
        plain_binding("^_", KeyCode::Ctrl('_'), Menu::MAIN, EditorFunction::DoGotoLineColumn),
        plain_binding("Up", KeyCode::Up, Menu::MAIN, EditorFunction::DoUp),
        plain_binding("Down", KeyCode::Down, Menu::MAIN, EditorFunction::DoDown),
        plain_binding("Left", KeyCode::Left, Menu::MAIN, EditorFunction::DoLeft),
        plain_binding("Right", KeyCode::Right, Menu::MAIN, EditorFunction::DoRight),
        plain_binding("Home", KeyCode::Home, Menu::MAIN, EditorFunction::DoHome),
        plain_binding("End", KeyCode::End, Menu::MAIN, EditorFunction::DoEnd),
        plain_binding("PgUp", KeyCode::PageUp, Menu::MAIN, EditorFunction::DoPageUp),
        plain_binding("PgDn", KeyCode::PageDown, Menu::MAIN, EditorFunction::DoPageDown),
        plain_binding("^Home", KeyCode::Special(SpecialKey::ControlHome), Menu::MAIN, EditorFunction::ToFirstLine),
        plain_binding("^End", KeyCode::Special(SpecialKey::ControlEnd), Menu::MAIN, EditorFunction::ToLastLine),
        plain_binding("M-\\", KeyCode::Alt('\\'), Menu::MAIN, EditorFunction::ToFirstLine),
        plain_binding("M-/", KeyCode::Alt('/'), Menu::MAIN, EditorFunction::ToLastLine),
        plain_binding("^Left", KeyCode::Special(SpecialKey::ControlLeft), Menu::MAIN, EditorFunction::ToPrevWord),
        plain_binding("^Right", KeyCode::Special(SpecialKey::ControlRight), Menu::MAIN, EditorFunction::ToNextWord),
        plain_binding("M-Up", KeyCode::Special(SpecialKey::AltUp), Menu::MAIN, EditorFunction::ToPrevBlock),
        plain_binding("M-Down", KeyCode::Special(SpecialKey::AltDown), Menu::MAIN, EditorFunction::ToNextBlock),
        plain_binding("M-Up", KeyCode::Alt('p'), Menu::MAIN, EditorFunction::DoScrollUp),
        plain_binding("M-Down", KeyCode::Alt('n'), Menu::MAIN, EditorFunction::DoScrollDown),
        plain_binding("^H", KeyCode::Backspace, Menu::MAIN, EditorFunction::DoBackspace),
        plain_binding("Del", KeyCode::Delete, Menu::MAIN, EditorFunction::DoDelete),
        plain_binding("Tab", KeyCode::Tab, Menu::MAIN, EditorFunction::DoTab),
        plain_binding("Enter", KeyCode::Enter, Menu::MAIN, EditorFunction::DoEnter),
        plain_binding("^V", KeyCode::Ctrl('v'), Menu::MAIN, EditorFunction::DoVerbatimInput),
        plain_binding("M-U", KeyCode::Alt('u'), Menu::MAIN, EditorFunction::DoUndo),
        plain_binding("M-E", KeyCode::Alt('e'), Menu::MAIN, EditorFunction::DoRedo),
        plain_binding("M-A", KeyCode::Alt('a'), Menu::MAIN, EditorFunction::DoMark),
        plain_binding("M-6", KeyCode::Alt('6'), Menu::MAIN, EditorFunction::CopyText),
        plain_binding("M-}", KeyCode::Alt('}'), Menu::MAIN, EditorFunction::DoIndent),
        plain_binding("M-{", KeyCode::Alt('{'), Menu::MAIN, EditorFunction::DoUnindent),
        plain_binding("M-3", KeyCode::Alt('3'), Menu::MAIN, EditorFunction::DoComment),
        plain_binding("^C", KeyCode::Ctrl('c'), Menu::WHEREIS, EditorFunction::DoCancel),
        plain_binding("^C", KeyCode::Ctrl('c'), Menu::REPLACE, EditorFunction::DoCancel),
        plain_binding("^C", KeyCode::Ctrl('c'), Menu::REPLACEWITH, EditorFunction::DoCancel),
        plain_binding("^C", KeyCode::Ctrl('c'), Menu::GOTOLINE, EditorFunction::DoCancel),
        plain_binding("M-C", KeyCode::Alt('c'), Menu::WHEREIS, EditorFunction::CaseSensVoid),
        plain_binding("M-R", KeyCode::Alt('r'), Menu::WHEREIS, EditorFunction::RegexpVoid),
        plain_binding("M-B", KeyCode::Alt('b'), Menu::WHEREIS, EditorFunction::BackwardsVoid),
        plain_binding("^R", KeyCode::Ctrl('r'), Menu::WHEREIS, EditorFunction::FlipReplace),
        plain_binding("M-W", KeyCode::Alt('w'), Menu::MAIN, EditorFunction::DoFindNext),
        plain_binding("M-Q", KeyCode::Alt('q'), Menu::MAIN, EditorFunction::DoFindPrevious),
        plain_binding("M-]", KeyCode::Alt(']'), Menu::MAIN, EditorFunction::DoFindBracket),
        plain_binding("M-<", KeyCode::Alt('<'), Menu::MAIN, EditorFunction::SwitchToPrevBuffer),
        plain_binding("M->", KeyCode::Alt('>'), Menu::MAIN, EditorFunction::SwitchToNextBuffer),
        plain_binding("^Z", KeyCode::Ctrl('z'), Menu::MAIN, EditorFunction::DoUndo),
        plain_binding("^Y", KeyCode::Ctrl('y'), Menu::MAIN, EditorFunction::DoRedo),
        plain_binding("^6", KeyCode::Ctrl('6'), Menu::MAIN, EditorFunction::DoMark),
        plain_binding("^]", KeyCode::Ctrl(']'), Menu::MAIN, EditorFunction::CompleteAWord),
        plain_binding("M-Ins", KeyCode::Special(SpecialKey::AltInsert), Menu::MAIN, EditorFunction::PutOrLiftAnchor),
        plain_binding("^C", KeyCode::Ctrl('c'), Menu::YESNO, EditorFunction::DoCancel),
    ];
    assert(binding_entries(keys@) =~= keybinding_spec());
    keys
}

} // verus!

verus! {

/// The binding `k` calls `func` in one of the menus of `menu`.
pub open spec fn binds_func(k: KeyBinding, menu: Menu, func: EditorFunction) -> bool {
    k.menus.bits & menu.bits != 0 && k.func == func
}

/// The binding `k` is for the key `key` in one of the menus of `menu`.
pub open spec fn binds_key(k: KeyBinding, key: KeyView, menu: Menu) -> bool {
    k.keycode@ == key && k.menus.bits & menu.bits != 0
}

/// Look up the first binding that calls `func` in one of the menus of `menu`.
pub fn first_shortcut_for(keybindings: &[KeyBinding], menu: Menu, func: EditorFunction) -> (r: Option<&KeyBinding>)
    ensures
        r matches Some(b) ==> exists|i: int|
            0 <= i < keybindings@.len() && keybindings@[i] == *b && binds_func(keybindings@[i], menu, func)
                && forall|j: int| 0 <= j < i ==> !binds_func(#[trigger] keybindings@[j], menu, func),
        r is None ==> forall|j: int| 0 <= j < keybindings@.len() ==> !binds_func(#[trigger] keybindings@[j], menu, func),
{
    let mut i: usize = 0;
    while i < keybindings.len()
        invariant
            i <= keybindings@.len(),
            forall|j: int| 0 <= j < i ==> !binds_func(#[trigger] keybindings@[j], menu, func),
        decreases keybindings@.len() - i,
    {
        let k = &keybindings[i];
        if k.menus.intersects(menu) && k.func == func {
            return Some(k);
        }
        i += 1;
    }
    None
}

/// Number of entries of the function table `fs` among the first `k` that
/// show in one of the menus of `menu`.
pub open spec fn shown_count(fs: Seq<FuncEntry>, menu: Menu, k: int) -> nat
    decreases k,
{
    if k <= 0 || k > fs.len() {
        0
    } else {
        shown_count(fs, menu, k - 1) + if fs[k - 1].menus.bits & menu.bits != 0 {
            1nat
        } else {
            0nat
        }
    }
}

/// Return the number of entries of the function table shown in `menu`.
pub fn shown_entries_for(func_table: &[FuncEntry], menu: Menu) -> (r: usize)
    ensures
        r == shown_count(func_table@, menu, func_table@.len() as int),
{
    let mut count: usize = 0;
    let mut i: usize = 0;
    while i < func_table.len()
        invariant
            i <= func_table@.len(),
            count == shown_count(func_table@, menu, i as int),
            count <= i,
        decreases func_table@.len() - i,
    {
        if func_table[i].menus.intersects(menu) {
            count = count + 1;
        }
        i += 1;
    }
    count
}

/// Look up the function bound to `keycode` in one of the menus of `menu`:
/// that of the first such binding.
pub fn func_from_key(keybindings: &[KeyBinding], keycode: &KeyCode, menu: Menu) -> (r: Option<EditorFunction>)
    ensures
        r matches Some(f) ==> exists|i: int|
            0 <= i < keybindings@.len() && keybindings@[i].func == f && binds_key(keybindings@[i], keycode@, menu)
                && forall|j: int| 0 <= j < i ==> !binds_key(#[trigger] keybindings@[j], keycode@, menu),
        r is None ==> forall|j: int| 0 <= j < keybindings@.len() ==> !binds_key(#[trigger] keybindings@[j], keycode@, menu),
{
    let mut i: usize = 0;
    while i < keybindings.len()
        invariant
            i <= keybindings@.len(),
            forall|j: int| 0 <= j < i ==> !binds_key(#[trigger] keybindings@[j], keycode@, menu),
        decreases keybindings@.len() - i,
    {
        let k = &keybindings[i];
        if crate::definitions::keycode_eq(&k.keycode, keycode) && k.menus.intersects(menu) {
            return Some(k.func);
        }
        i += 1;
    }
    None
}

/// The name of the flag `flag`, as the toggles show it.
pub open spec fn epithet(flag: u64) -> Seq<char> {
    if flag == EditorFlags::CASE_SENSITIVE {
        "Case Sensitive"@
    } else if flag == EditorFlags::CONSTANT_SHOW {
        "Constant Show"@
    } else if flag == EditorFlags::NO_HELP {
        "No Help"@
    } else if flag == EditorFlags::NO_WRAP {
        "No Wrap"@
    } else if flag == EditorFlags::AUTOINDENT {
        "Auto Indent"@
    } else if flag == EditorFlags::VIEW_MODE {
        "View Mode"@
    } else if flag == EditorFlags::USE_MOUSE {
        "Mouse"@
    } else if flag == EditorFlags::USE_REGEXP {
        "Regexp"@
    } else if flag == EditorFlags::SOFTWRAP {
        "Softwrap"@
    } else if flag == EditorFlags::LINE_NUMBERS {
        "Line Numbers"@
    } else if flag == EditorFlags::TABS_TO_SPACES {
        "Tabs to Spaces"@
    } else if flag == EditorFlags::MAKE_BACKUP {
        "Backup"@
    } else {
        "Unknown"@
    }
}

/// Return the human-readable name of an editor flag.
pub fn epithet_of_flag(flag: EditorFlags) -> (r: &'static str)
    ensures
        r@ == epithet(flag.bits),
{
    let f = flag.bits;
    if f == EditorFlags::CASE_SENSITIVE {
        "Case Sensitive"
    } else if f == EditorFlags::CONSTANT_SHOW {
        "Constant Show"
    } else if f == EditorFlags::NO_HELP {
        "No Help"
    } else if f == EditorFlags::NO_WRAP {
        "No Wrap"
    } else if f == EditorFlags::AUTOINDENT {
        "Auto Indent"
    } else if f == EditorFlags::VIEW_MODE {
        "View Mode"
    } else if f == EditorFlags::USE_MOUSE {
        "Mouse"
    } else if f == EditorFlags::USE_REGEXP {
        "Regexp"
    } else if f == EditorFlags::SOFTWRAP {
        "Softwrap"
    } else if f == EditorFlags::LINE_NUMBERS {
        "Line Numbers"
    } else if f == EditorFlags::TABS_TO_SPACES {
        "Tabs to Spaces"
    } else if f == EditorFlags::MAKE_BACKUP {
        "Backup"
    } else {
        "Unknown"
    }
}

} // verus!
