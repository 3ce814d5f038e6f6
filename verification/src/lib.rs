pub mod text;
pub mod catalog;
pub mod translator;
pub mod parallels;
pub mod sidecar;
pub mod wide;
pub mod hocr;
pub mod cef;
pub mod typography;
pub mod kanripo;
pub mod patch;
pub mod markdown;
pub mod cli;
pub mod catalog_index;
pub mod pdf_text;
pub mod authority;
pub mod export;
pub mod frontier;
pub mod expand;
pub mod cef_ingest;
pub mod dict;
pub mod terebess;
pub mod scope;
pub mod build_pack;
