//! Ghostwriter: the decisions behind a handwriting diary on a reMarkable
//! tablet, as verified functions on plain values.
pub mod binary32;
pub mod rounding;
pub mod device;
pub mod event;
pub mod touch;
pub mod mapping;
pub mod panel;
pub mod gesture;
pub mod history;
pub mod scroll;
pub mod ink;
pub mod chars;
pub mod cursive;
pub mod notebook;
pub mod experiment;
