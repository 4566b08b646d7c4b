//! Typed load records read from a grid-balancing mark-up document.
//!
//! The document carries a `series` section, which names the measured
//! series, and a `data` section with one item per time stamp. The library
//! reads the series into a [`Legend`], the items into [`RawRecord`]s, keeps
//! the records that carry both regulation powers as [`LoadItem`]s, and
//! holds them in a [`Store`] that only ever grows at its end.

pub mod error;
pub mod legend;
pub mod load_item;
pub mod markup;
pub mod numeral;
pub mod record;
pub mod shape;
pub mod store;
pub mod text;
pub mod text_map;

pub use error::ExtractError;
pub use legend::{get_legend_from_xml, Legend};
pub use load_item::{get_load_items_from_data, load_item_from_record, LoadItem};
pub use numeral::is_decimal_number;
pub use record::{get_data_from_xml, RawRecord};
pub use store::{append, list, Store};
pub use text::crop_string;
pub use text_map::TextMap;
