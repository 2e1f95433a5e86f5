use playlistr::{combine_lists, combine_playlists, total_size};

fn to_owned(outer: &[Vec<&str>]) -> Vec<Vec<String>> {
    outer
        .iter()
        .map(|inner| inner.iter().map(|s| s.to_string()).collect())
        .collect()
}

#[test]
fn distribute_equally() {
    let playlists = vec![
        vec!["11", "12", "13", "14"],
        vec!["21", "22", "23", "24"],
        vec!["31", "32", "33", "34"],
    ];
    let owned = to_owned(&playlists);
    let combined = combine_lists(&owned);
    assert_eq!(
        [
            "11", "21", "31", "12", "22", "32", "13", "23", "33", "14",
            "24", "34",
        ],
        &combined[..]
    );
}

#[test]
fn distribute_different_length_2() {
    let playlists = vec![vec!["11", "12", "13", "14"], vec!["21", "22"]];
    let owned = to_owned(&playlists);
    let combined = combine_lists(&owned);
    assert_eq!(["11", "21", "12", "13", "22", "14",], &combined[..]);
}

#[test]
fn distribute_different_length_3() {
    let playlists = vec![
        vec!["11", "12"],
        vec!["21", "22", "23", "24"],
        vec!["31", "32"],
    ];
    let owned = to_owned(&playlists);
    let combined = combine_lists(&owned);
    assert_eq!(
        ["11", "21", "31", "22", "12", "23", "32", "24"],
        &combined[..]
    );
}

#[test]
fn distribute_uneven() {
    let playlists =
        vec![vec!["11"], vec!["21", "22", "23"], vec!["31", "32"]];
    let owned = to_owned(&playlists);
    let combined = combine_lists(&owned);
    assert_eq!(["11", "21", "31", "22", "32", "23",], &combined[..]);
}

#[test]
fn nothing_combines_to_nothing() {
    let none: Vec<Vec<String>> = Vec::new();
    assert!(combine_lists(&none).is_empty());
    let empty: Vec<Vec<String>> = vec![Vec::new(), Vec::new()];
    assert!(combine_lists(&empty).is_empty());
}

#[test]
fn single_list_combines_to_itself() {
    let owned = to_owned(&[vec!["a", "b", "c", "d", "e"]]);
    let combined = combine_lists(&owned);
    assert_eq!(["a", "b", "c", "d", "e"], &combined[..]);
}

#[test]
fn empty_list_changes_nothing() {
    let owned = to_owned(&[vec!["a", "b", "c"], vec![]]);
    assert_eq!(["a", "b", "c"], &combine_lists(&owned)[..]);
    let owned = to_owned(&[vec![], vec!["11", "12", "13", "14"], vec![], vec!["21", "22"], vec![]]);
    assert_eq!(["11", "21", "12", "13", "22", "14"], &combine_lists(&owned)[..]);
}

#[test]
fn combined_length_is_sum_of_lengths() {
    let lists: Vec<Vec<usize>> = vec![
        (0..7).collect(),
        (0..1).collect(),
        (0..13).collect(),
        Vec::new(),
        (0..5).collect(),
    ];
    assert_eq!(combine_lists(&lists).len(), 26);
}

#[test]
fn order_within_each_list_is_kept() {
    let lists: Vec<Vec<(usize, usize)>> = [7usize, 1, 13, 0, 5, 2]
        .iter()
        .enumerate()
        .map(|(source, len)| (0..*len).map(|index| (source, index)).collect())
        .collect();
    let combined = combine_lists(&lists);
    for (source, list) in lists.iter().enumerate() {
        let drawn: Vec<(usize, usize)> =
            combined.iter().filter(|entry| entry.0 == source).map(|entry| **entry).collect();
        assert_eq!(&drawn, list);
    }
}

#[test]
fn combining_twice_gives_the_same() {
    let owned = to_owned(&[vec!["a", "b", "c"], vec!["x"], vec!["1", "2", "3", "4", "5"]]);
    assert_eq!(combine_lists(&owned), combine_lists(&owned));
}

#[test]
fn long_list_is_spread_over_the_whole() {
    let owned = to_owned(&[vec!["a"], vec!["1", "2", "3", "4", "5", "6", "7"]]);
    assert_eq!(["a", "1", "2", "3", "4", "5", "6", "7"], &combine_lists(&owned)[..]);
    let owned = to_owned(&[vec!["1", "2", "3", "4", "5", "6"], vec!["a", "b"]]);
    assert_eq!(["1", "a", "2", "3", "4", "b", "5", "6"], &combine_lists(&owned)[..]);
}

#[test]
fn earlier_list_goes_first_when_both_are_due() {
    let owned = to_owned(&[vec!["a", "b"], vec!["x", "y"]]);
    assert_eq!(["a", "x", "b", "y"], &combine_lists(&owned)[..]);
    let owned = to_owned(&[vec!["x", "y"], vec!["a", "b"]]);
    assert_eq!(["x", "a", "y", "b"], &combine_lists(&owned)[..]);
}

#[test]
fn total_size_adds_the_lengths() {
    let owned = to_owned(&[vec!["a", "b", "c"], vec![], vec!["1", "2"]]);
    assert_eq!(total_size(&owned), Some(5));
    let none: Vec<Vec<String>> = Vec::new();
    assert_eq!(total_size(&none), Some(0));
}

#[test]
fn total_size_is_none_when_too_large() {
    let units: Vec<Vec<()>> = vec![vec![(); usize::MAX], vec![(); 1]];
    assert_eq!(total_size(&units), None);
    let units: Vec<Vec<()>> = vec![vec![(); usize::MAX - 1], vec![(); 1]];
    assert_eq!(total_size(&units), Some(usize::MAX));
}

#[test]
fn playlists_combine_into_one_text() {
    let owned = to_owned(&[vec!["11", "12", "13", "14"], vec!["21", "22"]]);
    let combined = combine_playlists(&owned).unwrap();
    assert_eq!(combined.name, "combined.m3u8");
    assert_eq!(combined.content, "11\n21\n12\n13\n22\n14");
}

#[test]
fn no_playlists_combine_into_empty_text() {
    let combined = combine_playlists(&[]).unwrap();
    assert_eq!(combined.name, "combined.m3u8");
    assert_eq!(combined.content, "");
}
