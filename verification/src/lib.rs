//! Hestia indexes filesystem entries while preserving their locations and
//! recognizing identical content.

pub mod identity;
pub mod paths;
pub mod observation;
pub mod text;
pub mod records;
pub mod sync;
pub mod sync_laws;
pub mod events;
pub mod media;
pub mod display;
pub mod catalog;
