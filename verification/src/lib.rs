//! `fed`: a piece-table based text editing library with a commit based
//! undo/redo tree, and the layout and screen logic of a terminal editor.

pub mod history;
pub mod lines;
pub mod piece;
pub mod piece_table;
pub mod slice;
pub mod utf8;
pub mod fed_core;
pub mod types;
pub mod unicode;
pub mod layout;
pub mod cell;
pub mod screen;
pub mod viewport;
pub mod text_lines;
pub mod action;
pub mod state;
pub mod commands;
pub mod input;
pub mod text_format;
pub mod view_render;
pub mod mode_line;
pub mod decorator;
pub mod mini_buffer;
pub mod scroll;
pub mod buffer_render;
pub mod tiles;
