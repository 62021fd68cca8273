//! Core of a game-streaming host: the control stream's ciphers and the send side of the video
//! stream.
pub mod crypto;
pub mod video;
