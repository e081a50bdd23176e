//! Verified building blocks of a terminal application: the X/Y/ZMODEM file
//! transfer protocols, the transfer byte queues, and a number of small
//! domain models (X11 forwarding policy, download naming, settings helpers,
//! the AI sidebar's conversation list, secret storage).

pub mod crc;
pub mod error;
pub mod io;
pub mod decimal;
pub mod text;
pub mod bytes;
pub mod xymodem;
pub mod zmodem;
pub mod stream;
pub mod xymodem_transfer;
pub mod zfile;
pub mod zscan;
pub mod zmodem_transfer;
pub mod x11;
pub mod paths;
pub mod labels;
pub mod settings_input;
pub mod image_budget;
pub mod secret_store;
pub mod cli_secrets;
pub mod chat;
pub mod handoff;
