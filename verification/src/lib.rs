pub mod analyzer;
pub mod cli;
pub mod counting;
pub mod filter;
pub mod parser;
pub mod report;
pub mod search;
pub mod session;
pub mod sort;
pub mod zipf;

pub use analyzer::{WordCount, WordAnalyzer, TagMatcher, Dataset, Tag};
pub use cli::Args;
pub use parser::TextParser;
pub use filter::FilterSet;
pub use session::App;
