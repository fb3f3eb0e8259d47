//! Binary containers that pair hashed sound names with playback metadata,
//! together with the label table that renders those hashes as text.
//!
//! A container is a magic, a 32-bit count and that many fixed-width records,
//! all numbers little-endian ([`record`]). There are three kinds: the sound
//! label container ([`tone`]), the same behind a version word ([`tone_v1`]),
//! and the background music properties ([`bgm`]). The sound label containers
//! are written in canonical order ([`order`]); reading takes any order.
//!
//! In text a record carries its name as a label or as a hexadecimal literal
//! ([`text`], [`labels`], [`hex`]). The table of labels is a value that is
//! handed to whatever needs it; nothing here is shared between callers.

pub mod bgm;
pub mod error;
pub mod hash;
pub mod hex;
pub mod labels;
pub mod le;
pub mod order;
pub mod record;
pub mod strings;
pub mod text;
pub mod tone;
pub mod tone_v1;
