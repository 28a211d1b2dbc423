//! Verified core of a packet-capture viewer: the hexadecimal text shown for
//! a capture, the scan that finds, counts and tags a motif in that text, the
//! find window's decisions, and the settings document.

pub mod actions;
pub mod capture;
pub mod config;
pub mod hex;
pub mod scan;

pub use actions::{occurrence_message, parse_action, tag_names, MotifAction};
pub use capture::{read_capture, CaptureError};
pub use config::{default_config, record_opened_file, set_kv, INI_FILE};
pub use hex::{bytes_to_string, packets_to_hex_str, NIBBLE_STR};
pub use scan::{count_word, find_motif, search};
