//! Fast file transfer over a local network: framing, transfer state and rules.

pub mod data_run;
pub mod delivery;
pub mod discovery;
pub mod entry;
pub mod gui;
pub mod jobs;
pub mod messages;
pub mod outside;
pub mod palette;
pub mod path;
pub mod progress;
pub mod protocol;
pub mod receiver;
pub mod receiver_run;
pub mod receiving;
pub mod sender;
pub mod sender_run;
pub mod sending;
pub mod settings;
pub mod sort;
pub mod tab;
pub mod text;
pub mod transfer;
pub mod wire;
