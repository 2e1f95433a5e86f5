//! Playlists from what a scan of directories has found.
//!
//! A directory's playlist is named after the final component of the
//! directory's path. It holds the paths of the directory's entries in
//! ascending order, each escaped for a playlist line.

use vstd::prelude::*;
use vstd::string::StringExecFns;
use crate::encode::{encode_path, encoded, encoded_char, is_escaped, lemma_encoded_is_clean};
use crate::error::PlaylistError;
use crate::listing::{lemma_sorted_ignores_order, sort_paths, sorted};
use crate::playlist::{
    join_strings, joined, lemma_round_trip, reads_back, split, Playlist, PlaylistText,
};
use crate::text::texts;

verus! {

/// The final component of a directory's path.
#[derive(Clone, Debug, PartialEq, Eq)]
pub enum Name {
    /// The path has none.
    Missing,
    /// It is not valid Unicode.
    NotUnicode,
    /// Its text.
    Text(String),
}

/// What a `Name` holds.
pub enum NameText {
    Missing,
    NotUnicode,
    Text(Seq<char>),
}

impl View for Name {
    type V = NameText;

    open spec fn view(&self) -> NameText {
        match self {
            Name::Missing => NameText::Missing,
            Name::NotUnicode => NameText::NotUnicode,
            Name::Text(text) => NameText::Text(text@),
        }
    }
}

/// A directory as a scan has found it.
#[derive(Clone, Debug, PartialEq, Eq)]
pub struct Directory {
    /// The final component of the directory's path.
    pub name: Name,
    /// The path of each entry, or `None` where it is not valid Unicode.
    pub entries: Vec<Option<String>>,
}

/// What a `Directory` holds.
pub struct DirectoryText {
    pub name: NameText,
    pub entries: Seq<Option<Seq<char>>>,
}

/// What `entries` hold: the text of each path that is valid Unicode.
pub open spec fn entry_texts(entries: Seq<Option<String>>) -> Seq<Option<Seq<char>>> {
    Seq::new(
        entries.len(),
        |at: int|
            match entries[at] {
                Some(path) => Some(path@),
                None => None,
            },
    )
}

impl View for Directory {
    type V = DirectoryText;

    open spec fn view(&self) -> DirectoryText {
        DirectoryText { name: self.name@, entries: entry_texts(self.entries@) }
    }
}

/// The ending of a playlist's file name.
pub open spec fn extension() -> Seq<char> {
    seq!['.', 'm', '3', 'u', '8']
}

/// The name of the playlist of a directory with the final component `name`.
pub open spec fn playlist_name_of(name: NameText) -> Result<Seq<char>, PlaylistError> {
    match name {
        NameText::Missing => Err(PlaylistError::AbnormalPath),
        NameText::NotUnicode => Err(PlaylistError::InvalidUnicode),
        NameText::Text(text) => Ok(text + extension()),
    }
}

/// Whether every one of `entries` is valid Unicode.
pub open spec fn all_unicode(entries: Seq<Option<Seq<char>>>) -> bool {
    forall|at: int| 0 <= at < entries.len() ==> (#[trigger] entries[at]) is Some
}

/// The paths of `entries`, in the order of `entries`.
pub open spec fn paths_of(entries: Seq<Option<Seq<char>>>) -> Seq<Seq<char>> {
    Seq::new(entries.len(), |at: int| entries[at].unwrap())
}

/// The listing of a directory with `entries`: their paths in ascending
/// order, unless one is not valid Unicode.
pub open spec fn listing_of(entries: Seq<Option<Seq<char>>>) -> Result<
    Seq<Seq<char>>,
    PlaylistError,
> {
    if all_unicode(entries) {
        Ok(sorted(paths_of(entries)))
    } else {
        Err(PlaylistError::InvalidUnicode)
    }
}

/// Each of `paths`, escaped for a playlist line.
pub open spec fn encoded_all(paths: Seq<Seq<char>>) -> Seq<Seq<char>> {
    Seq::new(paths.len(), |at: int| encoded(paths[at]))
}

/// The playlist of `directory`. Where both its name and an entry are at
/// fault, the error is that of the name.
pub open spec fn playlist_of(directory: DirectoryText) -> Result<PlaylistText, PlaylistError> {
    match playlist_name_of(directory.name) {
        Err(error) => Err(error),
        Ok(name) => match listing_of(directory.entries) {
            Err(error) => Err(error),
            Ok(listing) => Ok(PlaylistText { name, content: joined(encoded_all(listing)) }),
        },
    }
}

/// The name of the playlist for a directory: the final component of the
/// directory's path, and the ending `.m3u8`. Fails with `AbnormalPath` where
/// the path has no final component, and with `InvalidUnicode` where that
/// component is not valid Unicode.
pub fn playlist_name(name: &Name) -> (file: Result<String, PlaylistError>)
    ensures
        match file {
            Ok(file) => playlist_name_of(name@) == Ok::<_, PlaylistError>(file@),
            Err(error) => playlist_name_of(name@) == Err::<Seq<char>, _>(error),
        },
{
    match name {
        Name::Missing => Err(PlaylistError::AbnormalPath),
        Name::NotUnicode => Err(PlaylistError::InvalidUnicode),
        Name::Text(text) => {
            let mut file = text.clone();
            proof {
                reveal_strlit(".m3u8");
                assert(".m3u8"@ =~= extension());
            }
            file.append(".m3u8");
            Ok(file)
        },
    }
}

/// Lists a directory: the paths of `entries` in ascending order, or
/// `InvalidUnicode` where one of them is not valid Unicode.
pub fn list_directory(entries: Vec<Option<String>>) -> (listing: Result<
    Vec<String>,
    PlaylistError,
>)
    ensures
        match listing {
            Ok(paths) => listing_of(entry_texts(entries@)) == Ok::<_, PlaylistError>(
                texts(paths@),
            ),
            Err(error) => listing_of(entry_texts(entries@)) == Err::<Seq<Seq<char>>, _>(error),
        },
{
    let ghost found = entry_texts(entries@);
    let mut paths: Vec<String> = Vec::new();
    for entry in it: entries
        invariant
            it.seq() == entries@,
            found == entry_texts(entries@),
            paths@.len() == it.index(),
            forall|at: int| 0 <= at < it.index() ==> found[at] == Some((#[trigger] paths@[at])@),
    {
        match entry {
            Some(path) => {
                paths.push(path);
            },
            None => {
                assert(found[it.index() as int] is None);
                return Err(PlaylistError::InvalidUnicode);
            },
        }
    }
    proof {
        assert forall|at: int| 0 <= at < found.len() implies (#[trigger] found[at]) is Some by {
            assert(found[at] == Some(paths@[at]@));
        }
        assert(texts(paths@) =~= paths_of(found));
    }
    Ok(sort_paths(paths))
}

/// Escapes each of `paths` for a playlist line.
pub fn encode_paths(paths: &Vec<String>) -> (lines: Vec<String>)
    ensures
        texts(lines@) == encoded_all(texts(paths@)),
{
    let mut lines: Vec<String> = Vec::new();
    let mut at: usize = 0;
    while at < paths.len()
        invariant
            at <= paths.len(),
            lines@.len() == at,
            forall|done: int|
                0 <= done < at ==> (#[trigger] lines@[done])@ == encoded(paths@[done]@),
        decreases paths.len() - at,
    {
        lines.push(encode_path(paths[at].as_str()));
        at += 1;
    }
    assert(texts(lines@) =~= encoded_all(texts(paths@)));
    lines
}

/// Makes the playlist of `directory`: named after the directory, with the
/// escaped paths of its entries in ascending order. Fails with `AbnormalPath`
/// where the directory's path has no final component, and with
/// `InvalidUnicode` where that component or the path of an entry is not valid
/// Unicode.
pub fn create_playlist(directory: Directory) -> (playlist: Result<Playlist, PlaylistError>)
    ensures
        match playlist {
            Ok(playlist) => playlist_of(directory@) == Ok::<_, PlaylistError>(playlist@),
            Err(error) => playlist_of(directory@) == Err::<PlaylistText, _>(error),
        },
{
    let name = match playlist_name(&directory.name) {
        Ok(name) => name,
        Err(error) => {
            return Err(error);
        },
    };
    let listing = match list_directory(directory.entries) {
        Ok(listing) => listing,
        Err(error) => {
            return Err(error);
        },
    };
    let lines = encode_paths(&listing);
    Ok(Playlist { name, content: join_strings(&lines) })
}

/// What `create_playlists` has made: the playlists of the directories before
/// the first one at fault, and what was wrong with that one.
#[derive(Clone, Debug, PartialEq, Eq)]
pub struct Batch {
    pub playlists: Vec<Playlist>,
    pub failure: Option<PlaylistError>,
}

/// Makes a playlist for each of `directories`, in their order, up to the
/// first directory for which none can be made.
pub fn create_playlists(directories: Vec<Directory>) -> (batch: Batch)
    ensures
        batch.playlists@.len() <= directories@.len(),
        forall|at: int|
            0 <= at < batch.playlists@.len() ==> playlist_of(directories@[at]@) == Ok::<
                _,
                PlaylistError,
            >((#[trigger] batch.playlists@[at])@),
        match batch.failure {
            None => batch.playlists@.len() == directories@.len(),
            Some(error) => batch.playlists@.len() < directories@.len() && playlist_of(
                directories@[batch.playlists@.len() as int]@,
            ) == Err::<PlaylistText, _>(error),
        },
{
    let mut playlists: Vec<Playlist> = Vec::new();
    for directory in it: directories
        invariant
            it.seq() == directories@,
            playlists@.len() == it.index(),
            forall|at: int|
                0 <= at < it.index() ==> playlist_of(directories@[at]@) == Ok::<_, PlaylistError>(
                    (#[trigger] playlists@[at])@,
                ),
    {
        match create_playlist(directory) {
            Ok(playlist) => {
                playlists.push(playlist);
            },
            Err(error) => {
                return Batch { playlists, failure: Some(error) };
            },
        }
    }
    Batch { playlists, failure: None }
}

/// The order in which a scan finds the entries of a directory does not show
/// in the listing: scans that find the same paths, each as often, give the
/// same listing.
pub proof fn lemma_listing_ignores_order(
    first: Seq<Option<Seq<char>>>,
    second: Seq<Option<Seq<char>>>,
)
    requires
        all_unicode(first),
        all_unicode(second),
        paths_of(first).to_multiset() == paths_of(second).to_multiset(),
    ensures
        listing_of(first) == listing_of(second),
{
    lemma_sorted_ignores_order(paths_of(first), paths_of(second));
}

/// The text of a playlist made from paths, none of them empty, is read back
/// as the escaped paths that were written.
pub proof fn lemma_created_playlist_reads_back(paths: Seq<Seq<char>>)
    requires
        forall|at: int| 0 <= at < paths.len() ==> (#[trigger] paths[at]).len() > 0,
    ensures
        split(joined(encoded_all(paths))) == encoded_all(paths),
{
    let lines = encoded_all(paths);
    assert forall|at: int| 0 <= at < lines.len() implies {
        &&& !(#[trigger] lines[at]).contains('\n')
        &&& lines[at].len() > 0
        &&& lines[at].last() != '\r'
    } by {
        let path = paths[at];
        lemma_encoded_is_clean(path);
        assert(encoded(path) == encoded(path.drop_last()) + encoded_char(path.last()));
        assert(is_escaped('\r'));
    }
    assert(reads_back(lines));
    lemma_round_trip(lines);
}

} // verus!
