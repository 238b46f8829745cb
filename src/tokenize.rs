pub mod api;
pub mod matcher;
pub mod sexpr;
pub mod simple;
pub mod text;
pub mod util;
