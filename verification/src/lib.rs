//! Remaps the keys of an input device: single keys, keys with a dual role, and chords.
pub mod config_laws;
pub mod event;
pub mod event_laws;
pub mod keys;
pub mod laws;
pub mod mapping;
pub mod model;
pub mod remap_laws;
pub mod remapper;
pub mod turn_laws;
