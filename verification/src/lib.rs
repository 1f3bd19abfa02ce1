//! Micron page rendering and NomadNet request helpers.

pub mod text;
pub mod links;
pub mod inline;
pub mod refresh;
pub mod blocks;
pub mod micron;
pub mod fetch;
pub mod browser;
pub mod laws;
pub mod markup;
pub mod lines;
pub mod semantics;

pub use blocks::DIVIDER_RUN;
pub use browser::{parse_identity_hash, to_response, wrap_html, NomadResponse};
pub use fetch::{classify, encode_form_payload, FetchedContent};
pub use inline::{Align, InlineState};
pub use micron::{micron_text_to_html, micron_to_html};

