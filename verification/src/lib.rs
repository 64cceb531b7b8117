//! Scanning PPSSPP game libraries: reading the emulator's settings file,
//! walking ISO 9660 images and pulling game metadata out of `PARAM.SFO` data.
pub mod bytes;
pub mod text;
pub mod iso;
pub mod ppsspp;
pub mod ini;
pub mod files;
pub mod laws;
