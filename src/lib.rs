//! Query resolution for a dictionary: normalisation, morphological stemming,
//! alias and lemma chains, multi-stage lookup and spelling correction.

pub mod correction;
pub mod dictionary;
pub mod eijiro;
pub mod html;
pub mod merge;
pub mod model;
pub mod normalize;
pub mod scan;
pub mod stem;
pub mod storage;
pub mod text;

pub use correction::{rank, Corrector};
pub use dictionary::Dictionary;
pub use eijiro::{extract_tag_name, read_until_symbols};
pub use html::lookup;
pub use merge::MergeBuffer;
pub use model::{Alias, Definition, Entry, Lemmatization, Stat, Text};
pub use normalize::{fix_word, shorten, uncase};
pub use scan::{extract_patterns, scan_words, WordType};
pub use stem::stem;
pub use storage::Storage;
