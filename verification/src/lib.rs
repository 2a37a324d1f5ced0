//! The logic of a launcher window: helpers read from a text file, programs
//! found as you type, groups laid out in columns, and the keys that move
//! through them.
pub mod columns;
pub mod text;
pub mod helpers;
pub mod search;
pub mod launcher;
pub mod layout;
pub mod programs;
pub mod cells;
pub mod window;
