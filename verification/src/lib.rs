pub mod books;
pub mod canon;
pub mod counter;
pub mod entries;
pub mod frontmatter;
pub mod meta;
pub mod preprocessor;
pub mod scale;
pub mod strings;
pub mod text;
pub mod tokenizer;

pub use books::split_entries_into_books;
pub use canon::Canonicalizer;
pub use counter::{NGramCounter, ProcessingStats};
pub use entries::{NGramPrefix, WordFollowEntry};
pub use frontmatter::{parse_frontmatter, split_frontmatter, ModelError};
pub use meta::{model_type_str, multi_book_metadata, Metadata};
pub use preprocessor::preprocess;
pub use scale::{scale_entries, scale_entry, ScaledEntry};
pub use text::{Normalizer, NormalizerConfig};
pub use tokenizer::tokenize;
