pub mod text;
pub mod parser;
pub mod json;
pub mod diff_engine;
pub mod json_diff;
pub mod xml_diff;
pub mod xml_source;
pub mod xml_read;
pub mod json_read;
pub mod pretty;
pub mod graph;
pub mod storage;
pub mod export;
pub mod settings;
pub mod highlight;
pub mod view;
pub mod compare;
pub mod window;
