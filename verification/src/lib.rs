pub mod text;
pub mod binary64;
pub mod path;
pub mod order;
pub mod lex;
pub mod model;
pub mod platform;
pub mod storage;
pub mod output;
pub mod classify;
pub mod scan;
pub mod explain;
pub mod cli;
pub mod app;
