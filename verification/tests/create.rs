use playlistr::{
    create_playlist, create_playlists, list_directory, playlist_name, sort_paths, Directory,
    Name, Playlist, PlaylistError,
};

fn owned(lines: &[&str]) -> Vec<String> {
    lines.iter().map(|line| line.to_string()).collect()
}

fn found(paths: &[&str]) -> Vec<Option<String>> {
    paths.iter().map(|path| Some(path.to_string())).collect()
}

fn directory(name: &str, paths: &[&str]) -> Directory {
    Directory { name: Name::Text(name.to_string()), entries: found(paths) }
}

#[test]
fn playlist_is_named_after_directory() {
    assert_eq!(playlist_name(&Name::Text("albums".to_string())), Ok("albums.m3u8".to_string()));
}

#[test]
fn missing_name_is_abnormal_path() {
    assert_eq!(playlist_name(&Name::Missing), Err(PlaylistError::AbnormalPath));
}

#[test]
fn name_that_is_not_unicode_is_invalid() {
    assert_eq!(playlist_name(&Name::NotUnicode), Err(PlaylistError::InvalidUnicode));
}

#[test]
fn error_messages() {
    assert_eq!(PlaylistError::AbnormalPath.message(), "Abnormal file");
    assert_eq!(PlaylistError::InvalidUnicode.message(), "Invalid unicode");
}

#[test]
fn paths_are_sorted_by_their_characters() {
    assert_eq!(
        sort_paths(owned(&["b", "a/2", "a", "B", "a/10", "ä", "a/1"])),
        owned(&["B", "a", "a/1", "a/10", "a/2", "b", "ä"])
    );
}

#[test]
fn sorting_keeps_equal_paths() {
    assert_eq!(sort_paths(owned(&["x", "a", "x"])), owned(&["a", "x", "x"]));
}

#[test]
fn listing_is_the_same_in_whatever_order_entries_are_found() {
    let first = list_directory(found(&["d/c", "d/a", "d/b"]));
    let second = list_directory(found(&["d/b", "d/c", "d/a"]));
    assert_eq!(first, Ok(owned(&["d/a", "d/b", "d/c"])));
    assert_eq!(first, second);
}

#[test]
fn listing_fails_on_entry_that_is_not_unicode() {
    let entries = vec![Some("d/a".to_string()), None, Some("d/b".to_string())];
    assert_eq!(list_directory(entries), Err(PlaylistError::InvalidUnicode));
}

#[test]
fn listing_of_empty_directory_is_empty() {
    assert_eq!(list_directory(Vec::new()), Ok(Vec::new()));
}

#[test]
fn playlist_holds_sorted_escaped_paths() {
    let playlist = create_playlist(directory("mix", &["mix/b[1].mp3", "mix/a.mp3", "mix/c\n.mp3"]));
    assert_eq!(
        playlist,
        Ok(Playlist {
            name: "mix.m3u8".to_string(),
            content: "mix/a.mp3\nmix/b%5B1%5D.mp3\nmix/c%0A.mp3".to_string(),
        })
    );
}

#[test]
fn paths_are_sorted_before_they_are_escaped() {
    let playlist = create_playlist(directory("d", &["a[", "aA"])).ok().unwrap();
    assert_eq!(playlist.content, "aA\na%5B");
}

#[test]
fn playlist_of_empty_directory_is_empty() {
    let playlist = create_playlist(directory("none", &[])).ok().unwrap();
    assert_eq!(playlist.name, "none.m3u8");
    assert_eq!(playlist.content, "");
}

#[test]
fn error_of_the_name_comes_first() {
    let both = Directory { name: Name::Missing, entries: vec![None] };
    assert_eq!(create_playlist(both).err(), Some(PlaylistError::AbnormalPath));
    let entry = Directory { name: Name::Text("d".to_string()), entries: vec![None] };
    assert_eq!(create_playlist(entry).err(), Some(PlaylistError::InvalidUnicode));
}

#[test]
fn batch_of_good_directories() {
    let batch = create_playlists(vec![
        directory("one", &["one/x"]),
        directory("two", &["two/z", "two/y"]),
    ]);
    assert_eq!(batch.failure, None);
    assert_eq!(batch.playlists.len(), 2);
    assert_eq!(batch.playlists[0].name, "one.m3u8");
    assert_eq!(batch.playlists[0].content, "one/x");
    assert_eq!(batch.playlists[1].name, "two.m3u8");
    assert_eq!(batch.playlists[1].content, "two/y\ntwo/z");
}

#[test]
fn batch_stops_at_first_failure() {
    let batch = create_playlists(vec![
        directory("one", &["one/x"]),
        Directory { name: Name::Missing, entries: Vec::new() },
        directory("three", &["three/x"]),
        Directory { name: Name::NotUnicode, entries: Vec::new() },
    ]);
    assert_eq!(batch.failure, Some(PlaylistError::AbnormalPath));
    assert_eq!(batch.playlists.len(), 1);
    assert_eq!(batch.playlists[0].name, "one.m3u8");
}

#[test]
fn batch_of_nothing_is_empty() {
    let batch = create_playlists(Vec::new());
    assert_eq!(batch.failure, None);
    assert!(batch.playlists.is_empty());
}

#[test]
fn each_path_is_escaped() {
    assert_eq!(
        playlistr::encode_paths(&owned(&["a b", "c[d]", "e\tf", "ü"])),
        owned(&["a b", "c%5Bd%5D", "e%09f", "ü"])
    );
}

#[test]
fn created_playlist_is_read_back_as_its_lines() {
    let playlist = create_playlist(directory("d", &["d/z[1]", "d/a\r", "d/m\nn"])).ok().unwrap();
    assert_eq!(
        playlistr::split_lines(&playlist.content),
        owned(&["d/a%0D", "d/m%0An", "d/z%5B1%5D"])
    );
}
