//! Mail store core of a desktop mail reader: message records, folder scans,
//! read-state transitions, the sorted and filtered collection view, and the
//! text processing behind them.
pub mod text;
pub mod html;
pub mod address;
pub mod marker;
pub mod message;
pub mod scan;
pub mod order;
pub mod view;
pub mod reply;
pub mod folders;
