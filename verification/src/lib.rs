//! Playlists built from directory listings, and the proportional merge of
//! several playlists into one.
//!
//! The crate computes; it reads and writes no file. A caller scans the
//! directories or reads the playlists, hands over what it found, and writes
//! the playlists that come back.
//!
//! - `create` makes the playlist of a directory from the scan of it, with
//!   `listing` for the order of the entries and `encode` for their escaping.
//! - `combine` merges lists in proportion to their lengths, in the order that
//!   `schedule` states; `laws` holds what is true of every such merge.
//! - `playlist` writes lines as the text of a playlist and reads them back.

pub mod combine;
pub mod create;
pub mod encode;
pub mod error;
pub mod laws;
pub mod listing;
pub mod playlist;
pub mod schedule;
pub mod text;

pub use combine::{combine_lists, combine_playlists, total_size};
pub use create::{
    create_playlist, create_playlists, encode_paths, list_directory, playlist_name, Batch,
    Directory, Name,
};
pub use encode::encode_path;
pub use error::PlaylistError;
pub use listing::sort_paths;
pub use playlist::{join_lines, join_strings, split_lines, Playlist};
