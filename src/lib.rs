//! Content-addressed export of a music library and rewriting of `.m3u8`
//! playlists so that their track lines point at the hash-named copies.

pub mod digest;
pub mod text;
pub mod cache;
pub mod playlist;
pub mod export;
pub mod laws;
