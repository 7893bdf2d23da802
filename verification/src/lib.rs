//! Verified file transfer over animated QR codes.
//!
//! A sender cuts a file into packets small enough for one QR symbol each; a
//! receiver collects the packets in whatever order the camera sees them and
//! hands the file back once it can be rebuilt and checked.

pub mod binary;
pub mod binary_laws;
pub mod binary_receiver;
pub mod bytes;
pub mod chars;
pub mod checksum;
pub mod codec;
pub mod fountain;
pub mod fountain_laws;
pub mod fountain_receiver;
pub mod layout;
pub mod mask;
pub mod notation;
pub mod ranges;
pub mod solving;
pub mod span;
pub mod store;
pub mod text;
pub mod text_laws;
pub mod text_receiver;
pub mod transfer;
pub mod window;
