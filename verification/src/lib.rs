//! Verified core of a photo date changer and a backup evaluation tool.
//!
//! The photo side lists the images of a folder with their dates
//! ([`listing`]), reads the date of a folder from its name and checks the
//! settings of an update ([`settings`]), recomputes the date to give each
//! file and its new name ([`updates`]), and plans the copies that set those
//! dates ([`copies`]).  The backup side turns a disc catalogue into fixed-layout
//! list records ([`catalog`]), lists a hard drive the same way ([`lists`]),
//! and merges the two sorted lists into the files found the same, with
//! another size, or not at all ([`evaluate`]).  [`round_trip`] states that
//! what the tool writes, it reads back.  All text is handled as UTF-8 bytes.

pub mod text;
pub mod records;
pub mod evaluate;
pub mod catalog;
pub mod lists;
pub mod dates;
pub mod patterns;
pub mod date_text;
pub mod settings;
pub mod utf8_facts;
pub mod updates;
pub mod listing;
pub mod copies;
pub mod round_trip;
