pub mod markdown_elements;
pub mod page_parser;
pub mod properties;
