//! gitstream: a live, mtime-ordered view of a working tree's diff against HEAD.
//!
//! The library holds the logic of the tool: the path model, the ordered
//! change list, hunk construction around an outside line diff, the scroll and
//! focus view-model, the layout arithmetic and the keymap. Everything that
//! touches the terminal, the file system, git or threads lives in the
//! application around it.

pub mod path;
pub mod text;
pub mod state;
pub mod width;
pub mod view;
pub mod diff;
pub mod linediff;
pub mod layout;
pub mod input;
pub mod watcher;
pub mod render;
pub mod session;
pub mod editor;
