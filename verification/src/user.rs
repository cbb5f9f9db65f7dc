//! User space: what programs are made of.
pub mod args;
pub mod calls;
pub mod io;
pub mod line;
pub mod line_laws;
pub mod ls;
pub mod raw;
pub mod sh;
pub mod text;
pub mod tool_laws;
pub mod tools;
pub mod wc;
