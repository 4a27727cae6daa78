//! Scraping of web pages into rich-text fragments.

pub mod charset;
pub mod crawl;
pub mod division;
pub mod dom;
pub mod fetch;
pub mod image;
pub mod markup;
pub mod page;
pub mod reply;
pub mod scan;
pub mod style;
pub mod styling;
pub mod text;
pub mod token;
pub mod url;
pub mod value;
