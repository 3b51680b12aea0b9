//! A small library with two independent pieces:
//!
//! - an embedding loader, which turns a headerless comma-separated text
//!   file into a dense row-major matrix of numeric fields, rejecting files
//!   with malformed numbers or inconsistent row lengths;
//! - the filename and message rules of a single-slot upload service, which
//!   resolve an uploaded file's name to the fixed target path
//!   `uploaded_image.<extension>`.
//!
//! All parsing and resolution logic is verified; reading files, writing the
//! uploaded artifact and serving HTTP are left to the surrounding program.

pub mod field;
pub mod text;
pub mod matrix;
pub mod loader;
pub mod upload;
