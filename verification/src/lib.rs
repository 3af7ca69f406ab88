//! Turns a Minecraft Java Edition world save into a copy that is fit to be
//! handed out: the tag document of `level.dat` is decoded, stripped of the
//! single-player state and of the cheats flag, and encoded again; files that
//! belong to one player or to one session are taken out of the tree.

pub mod error;
pub mod tag;
pub mod wire;
pub mod decode;
pub mod encode;
pub mod roundtrip;
pub mod codec;
pub mod sanitize;
pub mod tree;
pub mod release;
