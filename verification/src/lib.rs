//! Core logic of a sticker book: the bounded list of recently used stickers
//! and the scheduler that drives animated stickers from timer ticks.

pub mod clock;
pub mod layout;
pub mod playback;
pub mod playback_model;
pub mod recent_model;
pub mod recent_store;
