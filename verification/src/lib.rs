mod textseq;
pub mod chars;
pub mod definitions;
pub mod color;
pub mod editor;
pub mod utils;
pub mod movement;
pub mod text;
pub mod cut;
pub mod search;
pub mod nano;
pub mod global;
pub mod winio;
pub mod history;
pub mod files;
pub mod browser;
pub mod prompt;
pub mod help;
pub mod commands;
pub mod rcfile;
