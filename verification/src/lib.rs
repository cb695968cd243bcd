pub mod text;
pub mod strmap;
pub mod template;
pub mod model;
pub mod exec;
pub mod clipboard;
pub mod cli;
pub mod state;
pub mod screen;
