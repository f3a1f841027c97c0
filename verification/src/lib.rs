pub mod codec;
pub mod math;
pub mod error;
pub mod parse;
pub mod write;
pub mod text;
pub mod encoding;
pub mod tables;
pub mod font;
pub mod font_read;
pub mod font_build;
pub mod ttc;
pub mod woff;
pub mod woff2;
pub mod validation;
pub mod modifier;
pub mod tracer;
pub mod sfnt;
pub mod coverage;
pub mod copies;
pub mod roundtrip;
pub mod write_read;
pub mod traced_font;
pub mod compare;

pub use error::{FontError, Tag};
pub use font::Font;
pub use tables::Table;
pub use ttc::Ttc;
pub use woff::{read_woff, write_woff};
pub use woff2::{read_woff2, write_woff2};
