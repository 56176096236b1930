//! A local Chinese–English dictionary: data model, read-only store, multi-lane
//! lookup, the pipeline that builds the store, and the decisions behind the
//! tray program that shows it.
//!
//! Chinese and English words are headwords in their own right. The sources are brought into
//! one shape when the store is built; a lookup only reads.
pub mod assemble;
pub mod attach;
pub mod bytes;
pub mod cedict;
pub mod codec;
pub mod conduct;
pub mod corpus;
pub mod display;
pub mod ecrows;
pub mod engine;
pub mod english;
pub mod fasthash;
pub mod fetch;
pub mod formats;
pub mod fstmap;
pub mod glosses;
pub mod icon;
pub mod json;
pub mod lane;
pub mod lanekeys;
pub mod letters;
pub mod listing;
pub mod llm;
pub mod model;
pub mod number;
pub mod order;
pub mod page;
pub mod panel;
pub mod percentile;
pub mod pinyin;
pub mod readback;
pub mod rewriting;
pub mod search;
pub mod settings;
pub mod shot;
pub mod single;
pub mod sorted;
pub mod sources;
pub mod spelling;
pub mod store;
pub mod text;
pub mod theme;
pub mod tones;
pub mod tops;
pub mod tray;
pub mod voice;
pub mod wide;
pub mod whole;
pub mod window;
pub mod wording;
pub mod writer;

pub use crate::lane::{Lane, LANES};
pub use crate::model::{Entry, Example, Sense, KIND_EN, KIND_ZH};
pub use crate::search::{is_cjk, stabilize, Hit, Params, Results};
pub use crate::store::{Store, StoreError};
pub use crate::writer::StoreWriter;
