//! Markdown preprocessing of embedded HTML, and the decisions of a headless-browser
//! screenshot client, with their contracts.

pub mod tag_order;
pub mod text;
pub mod dom;
pub mod html_preprocessor;
pub mod cdp;
