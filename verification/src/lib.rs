//! Transactional grid engine of a collaborative spreadsheet.
//!
//! A sheet is a sparse store of cell values, formats, border lines and code
//! cells, held in runs. Every change is an [`operation::Operation`]; the
//! [`controller::GridController`] applies operations in transactions,
//! records the operations that take each change back, and keeps the undo and
//! redo history. The clipboard copies a rectangle into a snapshot and pastes
//! a snapshot as operations; the sequencer puts shared transactions in the
//! order of their sequence numbers.

pub mod content;
pub mod position;
pub mod decimal;
pub mod values;
pub mod text;
pub mod runs;
pub mod plane;
pub mod rle;
pub mod region;
pub mod formatting;
pub mod code;
pub mod borders;
pub mod sheet;
pub mod sheets;
pub mod operation;
pub mod grid;
pub mod transaction;
pub mod ids;
pub mod controller;
pub mod cell_value;
pub mod markup;
pub mod clipboard;
pub mod paste;
pub mod selection;
pub mod actions;
pub mod bindings;
pub mod sequencer;
pub mod laws;
pub mod legacy;
