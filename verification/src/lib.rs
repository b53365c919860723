#![allow(non_camel_case_types)]
#![allow(non_snake_case)]
#![allow(non_upper_case_globals)]

pub mod chars;
pub mod types;
pub mod decode;
pub mod reader;
pub mod scanner;
pub mod lexer;
pub mod blocktext;
pub mod scalars;
pub mod fetch;
pub mod parser;
pub mod api;
pub mod events;
pub mod document;
pub mod emitter;
pub mod dumper;
pub mod laws;
