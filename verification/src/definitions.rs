//! Core types: lines, buffers, undo items, key bindings, flags.
use vstd::prelude::*;

verus! {

// -- Constants ----------------------------------------------------------------
pub const PATH_MAX: usize = 4096;

pub const WIDTH_OF_TAB: usize = 8;

pub const COLUMNS_FROM_EOL: usize = 8;

pub const CUSHION: usize = 3;

pub const GENERAL_COMMENT_CHARACTER: char = '#';

pub const MAX_SEARCH_HISTORY: usize = 100;

pub const MAXCHARLEN: usize = 4;

pub const ESC_CODE: u8 = 0x1B;

pub const DEL_CODE: u8 = 0x7F;

pub const NUMBER_OF_ELEMENTS: usize = 12;

// -- Direction ----------------------------------------------------------------
#[derive(Debug, Clone, Copy, PartialEq, Eq, Structural)]
pub enum Direction {
    Backward,
    Forward,
}

// -- File format --------------------------------------------------------------
#[derive(Debug, Clone, Copy, PartialEq, Eq, Structural)]
pub enum FormatType {
    Unspecified,
    Unix,
    Dos,
    Mac,
}

impl Default for FormatType {
    fn default() -> (r: Self)
        ensures
            r == FormatType::Unspecified,
    {
        FormatType::Unspecified
    }
}

// -- Message importance -------------------------------------------------------
#[derive(Debug, Clone, Copy, PartialEq, Eq, PartialOrd, Ord, Structural)]
pub enum MessageType {
    Vacuum,
    Hush,
    Remark,
    Info,
    Notice,
    Ahem,
    Mild,
    Alert,
}

impl MessageType {
    /// Rank of the importance, in declaration order.
    pub open spec fn rank(self) -> nat {
        match self {
            MessageType::Vacuum => 0,
            MessageType::Hush => 1,
            MessageType::Remark => 2,
            MessageType::Info => 3,
            MessageType::Notice => 4,
            MessageType::Ahem => 5,
            MessageType::Mild => 6,
            MessageType::Alert => 7,
        }
    }

    /// Rank of the importance, in declaration order (the order that `Ord` follows).
    pub fn level(self) -> (r: u8)
        ensures
            r == self.rank(),
    {
        match self {
            MessageType::Vacuum => 0,
            MessageType::Hush => 1,
            MessageType::Remark => 2,
            MessageType::Info => 3,
            MessageType::Notice => 4,
            MessageType::Ahem => 5,
            MessageType::Mild => 6,
            MessageType::Alert => 7,
        }
    }
}

impl Default for MessageType {
    fn default() -> (r: Self)
        ensures
            r == MessageType::Vacuum,
    {
        MessageType::Vacuum
    }
}

// -- Writing mode -------------------------------------------------------------
#[derive(Debug, Clone, Copy, PartialEq, Eq, Structural)]
pub enum WritingMode {
    Overwrite,
    Append,
    Prepend,
    Emergency,
}

// -- Screen update type -------------------------------------------------------
#[derive(Debug, Clone, Copy, PartialEq, Eq, Structural)]
pub enum UpdateType {
    Centering,
    Flowing,
    Stationary,
}

// -- Undo types ---------------------------------------------------------------
#[derive(Debug, Clone, Copy, PartialEq, Eq, Structural)]
pub enum UndoType {
    Add,
    Enter,
    Back,
    Del,
    Join,
    Replace,
    SplitBegin,
    SplitEnd,
    Indent,
    Unindent,
    Comment,
    Uncomment,
    Preflight,
    Zap,
    Cut,
    CutToEof,
    Copy,
    Paste,
    Insert,
    CoupleBegin,
    CoupleEnd,
    Other,
}

// -- Search mode --------------------------------------------------------------
#[derive(Debug, Clone, Copy, PartialEq, Eq, Structural)]
pub enum SearchMode {
    JustFind,
    Replacing,
    InRegion,
}

// -- Ask user result ----------------------------------------------------------
#[derive(Debug, Clone, Copy, PartialEq, Eq, Structural)]
pub enum AskResult {
    Yes,
    All,
    No,
    Cancel,
}

// -- Interface elements for coloring ------------------------------------------
#[derive(Debug, Clone, Copy, PartialEq, Eq, Hash, Structural)]
pub enum InterfaceElement {
    TitleBar,
    LineNumber,
    GuideStripe,
    ScrollBar,
    SelectedText,
    Spotlighted,
    MiniInfobar,
    PromptBar,
    StatusBar,
    ErrorMessage,
    KeyCombo,
    FunctionTag,
}

impl InterfaceElement {
    /// Position of the element in declaration order.
    pub open spec fn ordinal(self) -> nat {
        match self {
            InterfaceElement::TitleBar => 0,
            InterfaceElement::LineNumber => 1,
            InterfaceElement::GuideStripe => 2,
            InterfaceElement::ScrollBar => 3,
            InterfaceElement::SelectedText => 4,
            InterfaceElement::Spotlighted => 5,
            InterfaceElement::MiniInfobar => 6,
            InterfaceElement::PromptBar => 7,
            InterfaceElement::StatusBar => 8,
            InterfaceElement::ErrorMessage => 9,
            InterfaceElement::KeyCombo => 10,
            InterfaceElement::FunctionTag => 11,
        }
    }

    /// The element's index in a table of `NUMBER_OF_ELEMENTS` entries.
    pub fn index(self) -> (r: usize)
        ensures
            r == self.ordinal(),
            r < NUMBER_OF_ELEMENTS,
    {
        match self {
            InterfaceElement::TitleBar => 0,
            InterfaceElement::LineNumber => 1,
            InterfaceElement::GuideStripe => 2,
            InterfaceElement::ScrollBar => 3,
            InterfaceElement::SelectedText => 4,
            InterfaceElement::Spotlighted => 5,
            InterfaceElement::MiniInfobar => 6,
            InterfaceElement::PromptBar => 7,
            InterfaceElement::StatusBar => 8,
            InterfaceElement::ErrorMessage => 9,
            InterfaceElement::KeyCombo => 10,
            InterfaceElement::FunctionTag => 11,
        }
    }
}

// -- Flag sets ----------------------------------------------------------------
/// The editor's option flags, one bit each.
#[derive(Debug, Clone, Copy, PartialEq, Eq, Structural)]
pub struct EditorFlags {
    pub bits: u64,
}

impl EditorFlags {
    pub const CASE_SENSITIVE: u64 = 1 << 0;
    pub const CONSTANT_SHOW: u64 = 1 << 1;
    pub const NO_HELP: u64 = 1 << 2;
    pub const NO_WRAP: u64 = 1 << 3;
    pub const AUTOINDENT: u64 = 1 << 4;
    pub const VIEW_MODE: u64 = 1 << 5;
    pub const USE_MOUSE: u64 = 1 << 6;
    pub const USE_REGEXP: u64 = 1 << 7;
    pub const SAVE_ON_EXIT: u64 = 1 << 8;
    pub const CUT_FROM_CURSOR: u64 = 1 << 9;
    pub const BACKWARDS_SEARCH: u64 = 1 << 10;
    pub const MULTIBUFFER: u64 = 1 << 11;
    pub const REBIND_DELETE: u64 = 1 << 12;
    pub const RAW_SEQUENCES: u64 = 1 << 13;
    pub const NO_CONVERT: u64 = 1 << 14;
    pub const MAKE_BACKUP: u64 = 1 << 15;
    pub const INSECURE_BACKUP: u64 = 1 << 16;
    pub const NO_SYNTAX: u64 = 1 << 17;
    pub const PRESERVE: u64 = 1 << 18;
    pub const HISTORYLOG: u64 = 1 << 19;
    pub const RESTRICTED: u64 = 1 << 20;
    pub const SMART_HOME: u64 = 1 << 21;
    pub const WHITESPACE_DISPLAY: u64 = 1 << 22;
    pub const TABS_TO_SPACES: u64 = 1 << 23;
    pub const QUICK_BLANK: u64 = 1 << 24;
    pub const WORD_BOUNDS: u64 = 1 << 25;
    pub const NO_NEWLINES: u64 = 1 << 26;
    pub const BOLD_TEXT: u64 = 1 << 27;
    pub const SOFTWRAP: u64 = 1 << 28;
    pub const POSITIONLOG: u64 = 1 << 29;
    pub const LOCKING: u64 = 1 << 30;
    pub const NOREAD_MODE: u64 = 1 << 31;
    pub const MAKE_IT_UNIX: u64 = 1 << 32;
    pub const TRIM_BLANKS: u64 = 1 << 33;
    pub const SHOW_CURSOR: u64 = 1 << 34;
    pub const LINE_NUMBERS: u64 = 1 << 35;
    pub const AT_BLANKS: u64 = 1 << 36;
    pub const AFTER_ENDS: u64 = 1 << 37;
    pub const LET_THEM_ZAP: u64 = 1 << 38;
    pub const BREAK_LONG_LINES: u64 = 1 << 39;
    pub const JUMPY_SCROLLING: u64 = 1 << 40;
    pub const EMPTY_LINE: u64 = 1 << 41;
    pub const INDICATOR: u64 = 1 << 42;
    pub const BOOKSTYLE: u64 = 1 << 43;
    pub const COLON_PARSING: u64 = 1 << 44;
    pub const STATEFLAGS: u64 = 1 << 45;
    pub const USE_MAGIC: u64 = 1 << 46;
    pub const MINIBAR: u64 = 1 << 47;
    pub const ZERO: u64 = 1 << 48;
    pub const MODERN_BINDINGS: u64 = 1 << 49;
    pub const SOLO_SIDESCROLL: u64 = 1 << 50;

    pub open spec fn has(self, mask: u64) -> bool {
        self.bits & mask == mask
    }

    /// The empty set of flags.
    pub fn empty() -> (r: EditorFlags)
        ensures
            r.bits == 0,
    {
        EditorFlags { bits: 0 }
    }

    /// The set holding the flags of `mask`.
    pub fn from_bits(mask: u64) -> (r: EditorFlags)
        ensures
            r.bits == mask,
    {
        EditorFlags { bits: mask }
    }

    /// Whether every flag of `mask` is set.
    pub fn contains(&self, mask: u64) -> (r: bool)
        ensures
            r == self.has(mask),
    {
        self.bits & mask == mask
    }

    /// Whether some flag of `mask` is set.
    pub fn intersects(&self, mask: u64) -> (r: bool)
        ensures
            r == (self.bits & mask != 0),
    {
        self.bits & mask != 0
    }

    /// Set the flags of `mask`.
    pub fn insert(&mut self, mask: u64)
        ensures
            final(self).bits == old(self).bits | mask,
    {
        self.bits = self.bits | mask;
    }

    /// Clear the flags of `mask`.
    pub fn remove(&mut self, mask: u64)
        ensures
            final(self).bits == old(self).bits & !mask,
    {
        self.bits = self.bits & !mask;
    }
}

/// A set of menus (the contexts in which a key binding or a function applies).
#[derive(Debug, Clone, Copy, PartialEq, Eq, Hash, Structural)]
pub struct Menu {
    pub bits: u16,
}

impl Menu {
    pub const MAIN: u16 = 1 << 0;
    pub const WHEREIS: u16 = 1 << 1;
    pub const REPLACE: u16 = 1 << 2;
    pub const REPLACEWITH: u16 = 1 << 3;
    pub const GOTOLINE: u16 = 1 << 4;
    pub const WRITEFILE: u16 = 1 << 5;
    pub const INSERTFILE: u16 = 1 << 6;
    pub const EXECUTE: u16 = 1 << 7;
    pub const HELP: u16 = 1 << 8;
    pub const SPELL: u16 = 1 << 9;
    pub const BROWSER: u16 = 1 << 10;
    pub const WHEREISFILE: u16 = 1 << 11;
    pub const GOTODIR: u16 = 1 << 12;
    pub const YESNO: u16 = 1 << 13;
    pub const LINTER: u16 = 1 << 14;
    pub const FINDINHELP: u16 = 1 << 15;
    /// The menus that have most of the common functions.
    pub const MOST: u16 = 1 << 0 | 1 << 1 | 1 << 2 | 1 << 3 | 1 << 4 | 1 << 5 | 1 << 6 | 1 << 7
        | 1 << 11 | 1 << 12 | 1 << 15 | 1 << 9 | 1 << 14;

    /// The set of menus given by `bits`.
    pub fn of(bits: u16) -> (r: Menu)
        ensures
            r.bits == bits,
    {
        Menu { bits }
    }

    pub open spec fn meets(self, other: Menu) -> bool {
        self.bits & other.bits != 0
    }

    /// Whether the two sets share a menu.
    pub fn intersects(&self, other: Menu) -> (r: bool)
        ensures
            r == self.meets(other),
    {
        self.bits & other.bits != 0
    }

    /// Whether every menu of `other` is in this set.
    pub fn contains(&self, other: Menu) -> (r: bool)
        ensures
            r == (self.bits & other.bits == other.bits),
    {
        self.bits & other.bits == other.bits
    }
}

/// Extra facts recorded with an undo item, one bit each.
#[derive(Debug, Clone, Copy, PartialEq, Eq, Structural)]
pub struct UndoFlags {
    pub bits: u8,
}

impl UndoFlags {
    pub const WAS_BACKSPACE_AT_EOF: u8 = 1 << 1;
    pub const WAS_WHOLE_LINE: u8 = 1 << 2;
    pub const INCLUDED_LAST_LINE: u8 = 1 << 3;
    pub const MARK_WAS_SET: u8 = 1 << 4;
    pub const CURSOR_WAS_AT_HEAD: u8 = 1 << 5;
    pub const HAD_ANCHOR_AT_START: u8 = 1 << 6;

    pub fn empty() -> (r: UndoFlags)
        ensures
            r.bits == 0,
    {
        UndoFlags { bits: 0 }
    }
}

} // verus!

verus! {

// -- Keys ---------------------------------------------------------------------
/// Keys and events that have no character of their own.
#[derive(Debug, Clone, PartialEq, Eq, Hash)]
pub enum SpecialKey {
    ControlLeft,
    ControlRight,
    ControlUp,
    ControlDown,
    ControlHome,
    ControlEnd,
    ControlDelete,
    ShiftControlLeft,
    ShiftControlRight,
    ShiftControlUp,
    ShiftControlDown,
    ShiftControlHome,
    ShiftControlEnd,
    ControlShiftDelete,
    AltLeft,
    AltRight,
    AltUp,
    AltDown,
    AltHome,
    AltEnd,
    AltPageUp,
    AltPageDown,
    AltInsert,
    AltDelete,
    ShiftAltLeft,
    ShiftAltRight,
    ShiftAltUp,
    ShiftAltDown,
    ShiftUp,
    ShiftDown,
    ShiftHome,
    ShiftEnd,
    ShiftPageUp,
    ShiftPageDown,
    ShiftDelete,
    ShiftTab,
    FocusIn,
    FocusOut,
    StartOfPaste,
    EndOfPaste,
    MorePlants,
    MissingBrace,
    PlantedACommand,
    NoSuchFunction,
    KeyCenter,
    WindowResized,
    ForeignSequence,
    KeyFresh,
    MouseScrollUp,
    MouseScrollDown,
    MouseClick(u16, u16),
    MouseDrag(u16, u16),
    PastedText(String),
}

/// A special key as a plain value (pasted text by its characters).
pub ghost enum SpecialKeyView {
    ControlLeft,
    ControlRight,
    ControlUp,
    ControlDown,
    ControlHome,
    ControlEnd,
    ControlDelete,
    ShiftControlLeft,
    ShiftControlRight,
    ShiftControlUp,
    ShiftControlDown,
    ShiftControlHome,
    ShiftControlEnd,
    ControlShiftDelete,
    AltLeft,
    AltRight,
    AltUp,
    AltDown,
    AltHome,
    AltEnd,
    AltPageUp,
    AltPageDown,
    AltInsert,
    AltDelete,
    ShiftAltLeft,
    ShiftAltRight,
    ShiftAltUp,
    ShiftAltDown,
    ShiftUp,
    ShiftDown,
    ShiftHome,
    ShiftEnd,
    ShiftPageUp,
    ShiftPageDown,
    ShiftDelete,
    ShiftTab,
    FocusIn,
    FocusOut,
    StartOfPaste,
    EndOfPaste,
    MorePlants,
    MissingBrace,
    PlantedACommand,
    NoSuchFunction,
    KeyCenter,
    WindowResized,
    ForeignSequence,
    KeyFresh,
    MouseScrollUp,
    MouseScrollDown,
    MouseClick(u16, u16),
    MouseDrag(u16, u16),
    PastedText(Seq<char>),
}

impl View for SpecialKey {
    type V = SpecialKeyView;

    open spec fn view(&self) -> SpecialKeyView {
        match self {
            SpecialKey::ControlLeft => SpecialKeyView::ControlLeft,
            SpecialKey::ControlRight => SpecialKeyView::ControlRight,
            SpecialKey::ControlUp => SpecialKeyView::ControlUp,
            SpecialKey::ControlDown => SpecialKeyView::ControlDown,
            SpecialKey::ControlHome => SpecialKeyView::ControlHome,
            SpecialKey::ControlEnd => SpecialKeyView::ControlEnd,
            SpecialKey::ControlDelete => SpecialKeyView::ControlDelete,
            SpecialKey::ShiftControlLeft => SpecialKeyView::ShiftControlLeft,
            SpecialKey::ShiftControlRight => SpecialKeyView::ShiftControlRight,
            SpecialKey::ShiftControlUp => SpecialKeyView::ShiftControlUp,
            SpecialKey::ShiftControlDown => SpecialKeyView::ShiftControlDown,
            SpecialKey::ShiftControlHome => SpecialKeyView::ShiftControlHome,
            SpecialKey::ShiftControlEnd => SpecialKeyView::ShiftControlEnd,
            SpecialKey::ControlShiftDelete => SpecialKeyView::ControlShiftDelete,
            SpecialKey::AltLeft => SpecialKeyView::AltLeft,
            SpecialKey::AltRight => SpecialKeyView::AltRight,
            SpecialKey::AltUp => SpecialKeyView::AltUp,
            SpecialKey::AltDown => SpecialKeyView::AltDown,
            SpecialKey::AltHome => SpecialKeyView::AltHome,
            SpecialKey::AltEnd => SpecialKeyView::AltEnd,
            SpecialKey::AltPageUp => SpecialKeyView::AltPageUp,
            SpecialKey::AltPageDown => SpecialKeyView::AltPageDown,
            SpecialKey::AltInsert => SpecialKeyView::AltInsert,
            SpecialKey::AltDelete => SpecialKeyView::AltDelete,
            SpecialKey::ShiftAltLeft => SpecialKeyView::ShiftAltLeft,
            SpecialKey::ShiftAltRight => SpecialKeyView::ShiftAltRight,
            SpecialKey::ShiftAltUp => SpecialKeyView::ShiftAltUp,
            SpecialKey::ShiftAltDown => SpecialKeyView::ShiftAltDown,
            SpecialKey::ShiftUp => SpecialKeyView::ShiftUp,
            SpecialKey::ShiftDown => SpecialKeyView::ShiftDown,
            SpecialKey::ShiftHome => SpecialKeyView::ShiftHome,
            SpecialKey::ShiftEnd => SpecialKeyView::ShiftEnd,
            SpecialKey::ShiftPageUp => SpecialKeyView::ShiftPageUp,
            SpecialKey::ShiftPageDown => SpecialKeyView::ShiftPageDown,
            SpecialKey::ShiftDelete => SpecialKeyView::ShiftDelete,
            SpecialKey::ShiftTab => SpecialKeyView::ShiftTab,
            SpecialKey::FocusIn => SpecialKeyView::FocusIn,
            SpecialKey::FocusOut => SpecialKeyView::FocusOut,
            SpecialKey::StartOfPaste => SpecialKeyView::StartOfPaste,
            SpecialKey::EndOfPaste => SpecialKeyView::EndOfPaste,
            SpecialKey::MorePlants => SpecialKeyView::MorePlants,
            SpecialKey::MissingBrace => SpecialKeyView::MissingBrace,
            SpecialKey::PlantedACommand => SpecialKeyView::PlantedACommand,
            SpecialKey::NoSuchFunction => SpecialKeyView::NoSuchFunction,
            SpecialKey::KeyCenter => SpecialKeyView::KeyCenter,
            SpecialKey::WindowResized => SpecialKeyView::WindowResized,
            SpecialKey::ForeignSequence => SpecialKeyView::ForeignSequence,
            SpecialKey::KeyFresh => SpecialKeyView::KeyFresh,
            SpecialKey::MouseScrollUp => SpecialKeyView::MouseScrollUp,
            SpecialKey::MouseScrollDown => SpecialKeyView::MouseScrollDown,
            SpecialKey::MouseClick(a, b) => SpecialKeyView::MouseClick(*a, *b),
            SpecialKey::MouseDrag(a, b) => SpecialKeyView::MouseDrag(*a, *b),
            SpecialKey::PastedText(s) => SpecialKeyView::PastedText(s@),
        }
    }
}

/// Our unified key code representation.
#[derive(Debug, Clone, PartialEq, Eq, Hash)]
pub enum KeyCode {
    Char(char),
    Ctrl(char),
    Alt(char),
    AltCtrl(char),
    F(u8),
    Up,
    Down,
    Left,
    Right,
    Home,
    End,
    PageUp,
    PageDown,
    Insert,
    Delete,
    Backspace,
    Enter,
    Tab,
    Escape,
    Special(SpecialKey),
    Mouse,
    Null,
    Unknown(u32),
}

/// A key code as a plain value.
pub ghost enum KeyView {
    Char(char),
    Ctrl(char),
    Alt(char),
    AltCtrl(char),
    F(u8),
    Up,
    Down,
    Left,
    Right,
    Home,
    End,
    PageUp,
    PageDown,
    Insert,
    Delete,
    Backspace,
    Enter,
    Tab,
    Escape,
    Special(SpecialKeyView),
    Mouse,
    Null,
    Unknown(u32),
}

impl View for KeyCode {
    type V = KeyView;

    open spec fn view(&self) -> KeyView {
        match self {
            KeyCode::Char(c) => KeyView::Char(*c),
            KeyCode::Ctrl(c) => KeyView::Ctrl(*c),
            KeyCode::Alt(c) => KeyView::Alt(*c),
            KeyCode::AltCtrl(c) => KeyView::AltCtrl(*c),
            KeyCode::F(n) => KeyView::F(*n),
            KeyCode::Up => KeyView::Up,
            KeyCode::Down => KeyView::Down,
            KeyCode::Left => KeyView::Left,
            KeyCode::Right => KeyView::Right,
            KeyCode::Home => KeyView::Home,
            KeyCode::End => KeyView::End,
            KeyCode::PageUp => KeyView::PageUp,
            KeyCode::PageDown => KeyView::PageDown,
            KeyCode::Insert => KeyView::Insert,
            KeyCode::Delete => KeyView::Delete,
            KeyCode::Backspace => KeyView::Backspace,
            KeyCode::Enter => KeyView::Enter,
            KeyCode::Tab => KeyView::Tab,
            KeyCode::Escape => KeyView::Escape,
            KeyCode::Mouse => KeyView::Mouse,
            KeyCode::Null => KeyView::Null,
            KeyCode::Special(s) => KeyView::Special(s@),
            KeyCode::Unknown(n) => KeyView::Unknown(*n),
        }
    }
}

/// Whether two special keys are the same key (pasted texts by their characters).
pub fn special_key_eq(a: &SpecialKey, b: &SpecialKey) -> (r: bool)
    ensures
        r == (a@ == b@),
{
    match (a, b) {
        (SpecialKey::ControlLeft, SpecialKey::ControlLeft) => true,
        (SpecialKey::ControlRight, SpecialKey::ControlRight) => true,
        (SpecialKey::ControlUp, SpecialKey::ControlUp) => true,
        (SpecialKey::ControlDown, SpecialKey::ControlDown) => true,
        (SpecialKey::ControlHome, SpecialKey::ControlHome) => true,
        (SpecialKey::ControlEnd, SpecialKey::ControlEnd) => true,
        (SpecialKey::ControlDelete, SpecialKey::ControlDelete) => true,
        (SpecialKey::ShiftControlLeft, SpecialKey::ShiftControlLeft) => true,
        (SpecialKey::ShiftControlRight, SpecialKey::ShiftControlRight) => true,
        (SpecialKey::ShiftControlUp, SpecialKey::ShiftControlUp) => true,
        (SpecialKey::ShiftControlDown, SpecialKey::ShiftControlDown) => true,
        (SpecialKey::ShiftControlHome, SpecialKey::ShiftControlHome) => true,
        (SpecialKey::ShiftControlEnd, SpecialKey::ShiftControlEnd) => true,
        (SpecialKey::ControlShiftDelete, SpecialKey::ControlShiftDelete) => true,
        (SpecialKey::AltLeft, SpecialKey::AltLeft) => true,
        (SpecialKey::AltRight, SpecialKey::AltRight) => true,
        (SpecialKey::AltUp, SpecialKey::AltUp) => true,
        (SpecialKey::AltDown, SpecialKey::AltDown) => true,
        (SpecialKey::AltHome, SpecialKey::AltHome) => true,
        (SpecialKey::AltEnd, SpecialKey::AltEnd) => true,
        (SpecialKey::AltPageUp, SpecialKey::AltPageUp) => true,
        (SpecialKey::AltPageDown, SpecialKey::AltPageDown) => true,
        (SpecialKey::AltInsert, SpecialKey::AltInsert) => true,
        (SpecialKey::AltDelete, SpecialKey::AltDelete) => true,
        (SpecialKey::ShiftAltLeft, SpecialKey::ShiftAltLeft) => true,
        (SpecialKey::ShiftAltRight, SpecialKey::ShiftAltRight) => true,
        (SpecialKey::ShiftAltUp, SpecialKey::ShiftAltUp) => true,
        (SpecialKey::ShiftAltDown, SpecialKey::ShiftAltDown) => true,
        (SpecialKey::ShiftUp, SpecialKey::ShiftUp) => true,
        (SpecialKey::ShiftDown, SpecialKey::ShiftDown) => true,
        (SpecialKey::ShiftHome, SpecialKey::ShiftHome) => true,
        (SpecialKey::ShiftEnd, SpecialKey::ShiftEnd) => true,
        (SpecialKey::ShiftPageUp, SpecialKey::ShiftPageUp) => true,
        (SpecialKey::ShiftPageDown, SpecialKey::ShiftPageDown) => true,
        (SpecialKey::ShiftDelete, SpecialKey::ShiftDelete) => true,
        (SpecialKey::ShiftTab, SpecialKey::ShiftTab) => true,
        (SpecialKey::FocusIn, SpecialKey::FocusIn) => true,
        (SpecialKey::FocusOut, SpecialKey::FocusOut) => true,
        (SpecialKey::StartOfPaste, SpecialKey::StartOfPaste) => true,
        (SpecialKey::EndOfPaste, SpecialKey::EndOfPaste) => true,
        (SpecialKey::MorePlants, SpecialKey::MorePlants) => true,
        (SpecialKey::MissingBrace, SpecialKey::MissingBrace) => true,
        (SpecialKey::PlantedACommand, SpecialKey::PlantedACommand) => true,
        (SpecialKey::NoSuchFunction, SpecialKey::NoSuchFunction) => true,
        (SpecialKey::KeyCenter, SpecialKey::KeyCenter) => true,
        (SpecialKey::WindowResized, SpecialKey::WindowResized) => true,
        (SpecialKey::ForeignSequence, SpecialKey::ForeignSequence) => true,
        (SpecialKey::KeyFresh, SpecialKey::KeyFresh) => true,
        (SpecialKey::MouseScrollUp, SpecialKey::MouseScrollUp) => true,
        (SpecialKey::MouseScrollDown, SpecialKey::MouseScrollDown) => true,
        (SpecialKey::MouseClick(a1, a2), SpecialKey::MouseClick(b1, b2)) => *a1 == *b1 && *a2 == *b2,
        (SpecialKey::MouseDrag(a1, a2), SpecialKey::MouseDrag(b1, b2)) => *a1 == *b1 && *a2 == *b2,
        (SpecialKey::PastedText(x), SpecialKey::PastedText(y)) => *x == *y,
        _ => false,
    }
}

/// Whether two key codes are the same key.
pub fn keycode_eq(a: &KeyCode, b: &KeyCode) -> (r: bool)
    ensures
        r == (a@ == b@),
{
    match (a, b) {
        (KeyCode::Char(x), KeyCode::Char(y)) => *x == *y,
        (KeyCode::Ctrl(x), KeyCode::Ctrl(y)) => *x == *y,
        (KeyCode::Alt(x), KeyCode::Alt(y)) => *x == *y,
        (KeyCode::AltCtrl(x), KeyCode::AltCtrl(y)) => *x == *y,
        (KeyCode::F(x), KeyCode::F(y)) => *x == *y,
        (KeyCode::Up, KeyCode::Up) => true,
        (KeyCode::Down, KeyCode::Down) => true,
        (KeyCode::Left, KeyCode::Left) => true,
        (KeyCode::Right, KeyCode::Right) => true,
        (KeyCode::Home, KeyCode::Home) => true,
        (KeyCode::End, KeyCode::End) => true,
        (KeyCode::PageUp, KeyCode::PageUp) => true,
        (KeyCode::PageDown, KeyCode::PageDown) => true,
        (KeyCode::Insert, KeyCode::Insert) => true,
        (KeyCode::Delete, KeyCode::Delete) => true,
        (KeyCode::Backspace, KeyCode::Backspace) => true,
        (KeyCode::Enter, KeyCode::Enter) => true,
        (KeyCode::Tab, KeyCode::Tab) => true,
        (KeyCode::Escape, KeyCode::Escape) => true,
        (KeyCode::Mouse, KeyCode::Mouse) => true,
        (KeyCode::Null, KeyCode::Null) => true,
        (KeyCode::Special(x), KeyCode::Special(y)) => special_key_eq(x, y),
        (KeyCode::Unknown(x), KeyCode::Unknown(y)) => *x == *y,
        _ => false,
    }
}

} // verus!

verus! {

// -- Core data structures -----------------------------------------------------
/// A single line of text in the buffer.
#[derive(Debug)]
pub struct Line {
    pub data: String,
    pub lineno: usize,
    pub multidata: Vec<i16>,
    pub has_anchor: bool,
}

pub ghost struct LineView {
    pub data: Seq<char>,
    pub lineno: usize,
    pub multidata: Seq<i16>,
    pub has_anchor: bool,
}

impl View for Line {
    type V = LineView;

    open spec fn view(&self) -> LineView {
        LineView {
            data: self.data@,
            lineno: self.lineno,
            multidata: self.multidata@,
            has_anchor: self.has_anchor,
        }
    }
}

/// The view of a fresh line with the given text and number.
pub open spec fn fresh_line(data: Seq<char>, lineno: usize) -> LineView {
    LineView { data, lineno, multidata: Seq::empty(), has_anchor: false }
}

/// The texts of a sequence of lines.
pub open spec fn texts(ls: Seq<LineView>) -> Seq<Seq<char>> {
    Seq::new(ls.len(), |i: int| ls[i].data)
}

/// `ls` with every line from index `start` on numbered by its position, from 1.
pub open spec fn renumbered(ls: Seq<LineView>, start: int) -> Seq<LineView> {
    Seq::new(
        ls.len(),
        |k: int|
            if k < start {
                ls[k]
            } else {
                LineView { lineno: (k + 1) as usize, ..ls[k] }
            },
    )
}

/// The views of a sequence of lines.
pub open spec fn line_views(ls: Seq<Line>) -> Seq<LineView> {
    Seq::new(ls.len(), |i: int| ls[i]@)
}

impl Line {
    /// A line with the given text and number, no anchor.
    pub fn new(data: String, lineno: usize) -> (r: Line)
        ensures
            r@ == fresh_line(data@, lineno),
    {
        Line { data, lineno, multidata: Vec::new(), has_anchor: false }
    }

    /// A copy of this line.
    pub fn duplicate(&self) -> (r: Line)
        ensures
            r@ == self@,
    {
        let data = crate::textseq::copy_text(self.data.as_str());
        let multidata = self.multidata.clone();
        assert(multidata@ =~= self.multidata@);
        Line { data, lineno: self.lineno, multidata, has_anchor: self.has_anchor }
    }
}

impl Default for Line {
    fn default() -> (r: Self)
        ensures
            r@ == fresh_line(Seq::empty(), 0),
    {
        Line::new(String::new(), 0)
    }
}

/// A group of lines affected by an indent/unindent operation.
#[derive(Debug)]
pub struct UndoGroup {
    pub top_line: usize,
    pub bottom_line: usize,
    pub indentations: Vec<String>,
}

/// An undo history item.
#[derive(Debug)]
pub struct UndoItem {
    pub undo_type: UndoType,
    pub xflags: UndoFlags,
    pub head_lineno: usize,
    pub head_x: usize,
    pub strdata: Option<String>,
    pub wassize: usize,
    pub newsize: usize,
    pub grouping: Vec<UndoGroup>,
    pub cutbuffer: Vec<Line>,
    pub tail_lineno: usize,
    pub tail_x: usize,
}

pub ghost struct UndoView {
    pub undo_type: UndoType,
    pub xflags: u8,
    pub head_lineno: usize,
    pub head_x: usize,
    pub strdata: Option<Seq<char>>,
    pub wassize: usize,
    pub newsize: usize,
    pub groups: nat,
    pub cutbuffer: Seq<LineView>,
    pub tail_lineno: usize,
    pub tail_x: usize,
}

pub open spec fn opt_text(s: Option<String>) -> Option<Seq<char>> {
    match s {
        Some(t) => Some(t@),
        None => None,
    }
}

impl View for UndoItem {
    type V = UndoView;

    open spec fn view(&self) -> UndoView {
        UndoView {
            undo_type: self.undo_type,
            xflags: self.xflags.bits,
            head_lineno: self.head_lineno,
            head_x: self.head_x,
            strdata: opt_text(self.strdata),
            wassize: self.wassize,
            newsize: self.newsize,
            groups: self.grouping@.len(),
            cutbuffer: line_views(self.cutbuffer@),
            tail_lineno: self.tail_lineno,
            tail_x: self.tail_x,
        }
    }
}

/// A lint error.
#[derive(Debug, Clone)]
pub struct LintMessage {
    pub lineno: usize,
    pub colno: usize,
    pub msg: String,
    pub filename: String,
}

/// A position in a file for the position history.
#[derive(Debug, Clone)]
pub struct PositionEntry {
    pub filename: String,
    pub linenumber: usize,
    pub columnnumber: usize,
    pub anchors: String,
}

/// An open file buffer.
#[derive(Debug)]
pub struct OpenBuffer {
    pub filename: String,
    pub lines: Vec<Line>,
    pub edittop: usize,
    pub current: usize,
    pub totsize: usize,
    pub firstcolumn: usize,
    pub current_x: usize,
    pub placewewant: usize,
    pub brink: usize,
    pub cursor_row: isize,
    pub modified: bool,
    pub format: FormatType,
    pub mark: Option<usize>,
    pub mark_x: usize,
    pub softmark: bool,
    pub drag_end: Option<usize>,
    pub drag_end_x: usize,
    pub saved_current: usize,
    pub saved_current_x: usize,
    pub saved_placewewant: usize,
    pub undo_stack: Vec<UndoItem>,
    pub undo_index: usize,
    pub last_action: Option<UndoType>,
    pub last_saved_index: usize,
    pub syntax: Option<usize>,
    pub lock_filename: Option<String>,
    pub errormessage: Option<String>,
    pub spillage_line: Option<usize>,
}

pub ghost struct BufferView {
    pub filename: Seq<char>,
    pub lines: Seq<LineView>,
    pub edittop: usize,
    pub current: usize,
    pub totsize: usize,
    pub firstcolumn: usize,
    pub current_x: usize,
    pub placewewant: usize,
    pub brink: usize,
    pub cursor_row: isize,
    pub modified: bool,
    pub format: FormatType,
    pub mark: Option<usize>,
    pub mark_x: usize,
    pub softmark: bool,
    pub drag_end: Option<usize>,
    pub drag_end_x: usize,
    pub saved_current: usize,
    pub saved_current_x: usize,
    pub saved_placewewant: usize,
    pub undo_stack: Seq<UndoView>,
    pub undo_index: usize,
    pub last_action: Option<UndoType>,
    pub last_saved_index: usize,
    pub syntax: Option<usize>,
    pub lock_filename: Option<Seq<char>>,
    pub errormessage: Option<Seq<char>>,
    pub spillage_line: Option<usize>,
}

impl View for OpenBuffer {
    type V = BufferView;

    open spec fn view(&self) -> BufferView {
        BufferView {
            filename: self.filename@,
            lines: line_views(self.lines@),
            edittop: self.edittop,
            current: self.current,
            totsize: self.totsize,
            firstcolumn: self.firstcolumn,
            current_x: self.current_x,
            placewewant: self.placewewant,
            brink: self.brink,
            cursor_row: self.cursor_row,
            modified: self.modified,
            format: self.format,
            mark: self.mark,
            mark_x: self.mark_x,
            softmark: self.softmark,
            drag_end: self.drag_end,
            drag_end_x: self.drag_end_x,
            saved_current: self.saved_current,
            saved_current_x: self.saved_current_x,
            saved_placewewant: self.saved_placewewant,
            undo_stack: Seq::new(self.undo_stack@.len(), |i: int| self.undo_stack@[i]@),
            undo_index: self.undo_index,
            last_action: self.last_action,
            last_saved_index: self.last_saved_index,
            syntax: self.syntax,
            lock_filename: opt_text(self.lock_filename),
            errormessage: opt_text(self.errormessage),
            spillage_line: self.spillage_line,
        }
    }
}

impl BufferView {
    /// The texts of the lines.
    pub open spec fn text(self) -> Seq<Seq<char>> {
        texts(self.lines)
    }

    /// The text of the line with the cursor.
    pub open spec fn cur_text(self) -> Seq<char> {
        self.lines[self.current as int].data
    }

    /// The cursor is on a line, at the start of a character or at the end of the line.
    pub open spec fn cursor_ok(self) -> bool {
        &&& self.current < self.lines.len()
        &&& crate::textseq::is_boundary(self.cur_text(), self.current_x as int)
    }

    /// Every line is numbered by its position, from 1.
    pub open spec fn numbered(self) -> bool {
        forall|i: int| 0 <= i < self.lines.len() ==> #[trigger] self.lines[i].lineno == i + 1
    }
}

/// A fresh buffer: one empty line, cursor at its start, nothing to undo.
pub open spec fn fresh_buffer() -> BufferView {
    BufferView {
        filename: Seq::empty(),
        lines: seq![fresh_line(Seq::empty(), 1)],
        edittop: 0,
        current: 0,
        totsize: 0,
        firstcolumn: 0,
        current_x: 0,
        placewewant: 0,
        brink: 0,
        cursor_row: 0,
        modified: false,
        format: FormatType::Unspecified,
        mark: None,
        mark_x: 0,
        softmark: false,
        drag_end: None,
        drag_end_x: 0,
        saved_current: 0,
        saved_current_x: 0,
        saved_placewewant: 0,
        undo_stack: Seq::empty(),
        undo_index: 0,
        last_action: None,
        last_saved_index: 0,
        syntax: None,
        lock_filename: None,
        errormessage: None,
        spillage_line: None,
    }
}

impl OpenBuffer {
    /// A new buffer with one empty line.
    pub fn new() -> (r: OpenBuffer)
        ensures
            r@ == fresh_buffer(),
    {
        let mut lines: Vec<Line> = Vec::new();
        lines.push(Line::new(String::new(), 1));
        let r = OpenBuffer {
            filename: String::new(),
            lines,
            edittop: 0,
            current: 0,
            totsize: 0,
            firstcolumn: 0,
            current_x: 0,
            placewewant: 0,
            brink: 0,
            cursor_row: 0,
            modified: false,
            format: FormatType::Unspecified,
            mark: None,
            mark_x: 0,
            softmark: false,
            drag_end: None,
            drag_end_x: 0,
            saved_current: 0,
            saved_current_x: 0,
            saved_placewewant: 0,
            undo_stack: Vec::new(),
            undo_index: 0,
            last_action: None,
            last_saved_index: 0,
            syntax: None,
            lock_filename: None,
            errormessage: None,
            spillage_line: None,
        };
        assert(r@.lines =~= seq![fresh_line(Seq::empty(), 1)]);
        assert(r@.undo_stack =~= Seq::<UndoView>::empty());
        r
    }

    /// The line with the cursor.
    pub fn current_line(&self) -> (r: &Line)
        requires
            self.current < self.lines@.len(),
        ensures
            *r == self.lines@[self.current as int],
    {
        &self.lines[self.current]
    }

    /// The line with the cursor, to change it.
    pub fn current_line_mut(&mut self) -> (r: &mut Line)
        requires
            old(self).current < old(self).lines@.len(),
        ensures
            *r == old(self).lines@[old(self).current as int],
            final(self).lines@ == old(self).lines@.update(old(self).current as int, *final(r)),
            *final(self) == (OpenBuffer { lines: final(self).lines, ..*old(self) }),
    {
        &mut self.lines[self.current]
    }

    /// Renumber all lines starting from the given index.
    pub fn renumber_from(&mut self, start: usize)
        ensures
            final(self).lines@.len() == old(self).lines@.len(),
            forall|i: int|
                0 <= i < old(self).lines@.len() ==> #[trigger] final(self).lines@[i]@ == (if i
                    < start {
                    old(self).lines@[i]@
                } else {
                    LineView { lineno: (i + 1) as usize, ..old(self).lines@[i]@ }
                }),
            *final(self) == (OpenBuffer { lines: final(self).lines, ..*old(self) }),
            final(self)@ == (BufferView {
                lines: renumbered(old(self)@.lines, start as int),
                ..old(self)@
            }),
    {
        let mut i = start;
        let n = self.lines.len();
        while i < n
            invariant
                n == self.lines@.len() == old(self).lines@.len(),
                start <= i,
                forall|j: int|
                    0 <= j < n ==> #[trigger] self.lines@[j]@ == (if j < start || j >= i {
                        old(self).lines@[j]@
                    } else {
                        LineView { lineno: (j + 1) as usize, ..old(self).lines@[j]@ }
                    }),
                *self == (OpenBuffer { lines: self.lines, ..*old(self) }),
            decreases n - i,
        {
            let ghost prev = self.lines@;
            self.lines[i].lineno = i + 1;
            assert(forall|j: int| 0 <= j < n && j != i ==> self.lines@[j] == prev[j]);
            assert(self.lines@[i as int]@ == LineView { lineno: (i + 1) as usize, ..prev[i as int]@ });
            assert forall|j: int| 0 <= j < n implies #[trigger] self.lines@[j]@ == (if j < start
                || j >= i + 1 {
                old(self).lines@[j]@
            } else {
                LineView { lineno: (j + 1) as usize, ..old(self).lines@[j]@ }
            }) by {
                assert(prev[j]@ == (if j < start || j >= i {
                    old(self).lines@[j]@
                } else {
                    LineView { lineno: (j + 1) as usize, ..old(self).lines@[j]@ }
                }));
                if j != i {
                    assert(self.lines@[j] == prev[j]);
                } else {
                    assert(prev[j]@ == old(self).lines@[j]@);
                }
            }
            i += 1;
        }
        assert(self@.lines =~= renumbered(old(self)@.lines, start as int));
    }

    /// Total number of lines.
    pub fn line_count(&self) -> (r: usize)
        ensures
            r == self.lines@.len(),
    {
        self.lines.len()
    }
}

/// A keybinding.
#[derive(Debug, Clone)]
pub struct KeyBinding {
    pub keystr: String,
    pub keycode: KeyCode,
    pub menus: Menu,
    pub func: EditorFunction,
    pub toggle: Option<u32>,
    pub ordinal: Option<u32>,
    pub expansion: Option<String>,
}

} // verus!

verus! {

/// An editor function reference.
#[derive(Debug, Clone, Copy, PartialEq, Eq, Hash, Structural)]
pub enum EditorFunction {
    DoExit,
    DoInsertFile,
    DoSearch,
    DoReplace,
    DoWriteOut,
    DoSaveFile,
    CutText,
    PasteText,
    CopyText,
    DoUndo,
    DoRedo,
    DoEnter,
    DoTab,
    DoDelete,
    DoBackspace,
    DoVerbatimInput,
    DoMark,
    DoComment,
    DoIndent,
    DoUnindent,
    DoJustify,
    DoFullJustify,
    DoSpell,
    DoLinter,
    DoFormatter,
    CutTillEof,
    ZapText,
    CopyMarkedRegion,
    DoUp,
    DoDown,
    DoLeft,
    DoRight,
    DoHome,
    DoEnd,
    DoPageUp,
    DoPageDown,
    ToFirstLine,
    ToLastLine,
    ToPrevWord,
    ToNextWord,
    ToPrevBlock,
    ToNextBlock,
    DoScrollUp,
    DoScrollDown,
    DoScrollLeft,
    DoScrollRight,
    ToTopRow,
    ToBottomRow,
    DoCycle,
    DoCenter,
    DoSearchForward,
    DoSearchBackward,
    DoFindPrevious,
    DoFindNext,
    DoGotoLineColumn,
    DoFindBracket,
    PutOrLiftAnchor,
    ToPrevAnchor,
    ToNextAnchor,
    CaseSensVoid,
    RegexpVoid,
    BackwardsVoid,
    FlipReplace,
    FlipGoto,
    FlipExecute,
    FlipPipe,
    FlipConvert,
    FlipNewbuffer,
    GetOlderItem,
    GetNewerItem,
    DiscardBuffer,
    DoCancel,
    SwitchToPrevBuffer,
    SwitchToNextBuffer,
    CloseBuffer,
    ToFiles,
    GotoDir,
    ToFirstFile,
    ToLastFile,
    DoHelp,
    DoToggle,
    DoNothing,
    DosFormat,
    MacFormat,
    AppendIt,
    PrependIt,
    BackItUp,
    DoSuspend,
    ReportCursorPosition,
    CopyOrPosition,
    DoCredits,
    CountLinesWordsAndCharacters,
    CompleteAWord,
    RecordMacro,
    RunMacro,
    ChopPreviousWord,
    ChopNextWord,
    AddOrRemovePipeSymbol,
    AskForLineAndColumn,
    SuckUpInputAndPasteIt,
}

/// A function table entry.
#[derive(Debug, Clone)]
pub struct FuncEntry {
    pub func: EditorFunction,
    pub tag: &'static str,
    pub phrase: &'static str,
    pub blank_after: bool,
    pub menus: Menu,
}

/// A word completion entry.
#[derive(Debug, Clone)]
pub struct CompletionEntry {
    pub word: String,
}

/// Rcfile option definition.
#[derive(Debug, Clone)]
pub struct RcOption {
    pub name: &'static str,
    pub flag: Option<EditorFlags>,
}

} // verus!
