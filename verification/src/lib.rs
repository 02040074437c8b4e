use vstd::prelude::*;

pub mod chars;
pub mod csv;
pub mod edit;
pub mod cells;
pub mod undo;
pub mod i18n;
pub mod buffer;
pub mod sort;
pub mod filter;
pub mod archive;
pub mod text_order;
pub mod distinct;
pub mod column_sort;
