use oxytrouille::album::{Album, ErrorKind};

#[test]
fn draw_from_empty_album_returns_nothing() {
    let mut album = Album::new();
    assert_eq!(album.get_rand_pic("anything"), None);
}

#[test]
fn draw_is_case_and_diacritic_insensitive() {
    let mut album = Album::new();
    album.add_picture("mood", "u1");

    let upper = album.get_rand_pic("MOOD");
    let lower = album.get_rand_pic("mood");
    let accented = album.get_rand_pic("moöd");
    assert_eq!(upper, Some("u1".to_owned()));
    assert_eq!(lower, Some("u1".to_owned()));
    assert_eq!(accented, Some("u1".to_owned()));
}

#[test]
fn draw_with_injected_pick_is_deterministic() {
    let mut album = Album::new();
    album.add_picture("deck", "a");
    album.add_picture("deck", "b");
    album.add_picture("deck", "c");

    assert_eq!(album.get_pic_at("deck", 0), Some("a".to_owned()));
    assert_eq!(album.get_pic_at("deck", 1), Some("b".to_owned()));
    assert_eq!(album.get_pic_at("deck", 2), Some("c".to_owned()));
    assert_eq!(album.get_pic_at("deck", 4), Some("b".to_owned()));
    assert_eq!(album.get_pic_at("missing", 0), None);
}

#[test]
fn ambiguous_query_picks_first_matching_deck() {
    let mut album = Album::new();
    album.add_picture("Mood", "first");
    album.add_picture("mood", "second");

    // Both stored keys normalize to the same form; the deck stored
    // first wins.
    assert_eq!(album.get_rand_pic("MOOD"), Some("first".to_owned()));
}

#[test]
fn every_draw_comes_from_the_matched_deck() {
    let mut album = Album::new();
    album.add_picture("d", "a");
    album.add_picture("d", "b");
    album.add_picture("d", "c");
    album.add_picture("other", "x");

    let mut seen_a = false;
    let mut seen_b = false;
    let mut seen_c = false;
    for _ in 0..1000 {
        let url = album.get_rand_pic("d").unwrap();
        match url.as_str() {
            "a" => seen_a = true,
            "b" => seen_b = true,
            "c" => seen_c = true,
            _ => panic!("drawn url does not belong to the deck"),
        }
    }
    assert!(seen_a && seen_b && seen_c);
}

#[test]
fn remove_picture_exact_match_only() {
    let mut album = Album::new();
    album.add_picture("mood", "u1");

    assert!(!album.remove_picture("MOOD", "u1"));
    assert!(!album.remove_picture("mood", "U1"));
    assert!(album.remove_picture("mood", "u1"));
}

#[test]
fn removing_sole_reference_removes_deck_key() {
    let mut album = Album::new();
    album.add_picture("solo", "only");
    album.add_picture("other", "x");
    assert_eq!(album.deck_count(), 2);

    assert!(album.remove_picture("solo", "only"));
    assert_eq!(album.deck_count(), 1);
    assert_eq!(album.get_rand_pic("solo"), None);
    assert!(!album.remove_picture("solo", "only"));
}

#[test]
fn remove_picture_removes_one_instance() {
    let mut album = Album::new();
    album.add_picture("d", "dup");
    album.add_picture("d", "dup");

    assert!(album.remove_picture("d", "dup"));
    assert_eq!(album.picture_count(), 1);
    assert!(album.remove_picture("d", "dup"));
    assert_eq!(album.picture_count(), 0);
    assert_eq!(album.deck_count(), 0);
    assert!(!album.remove_picture("d", "dup"));
}

#[test]
fn undo_removes_drawn_pair_and_is_consumed() {
    let mut album = Album::new();
    album.add_picture("d", "a");
    album.add_picture("d", "b");

    let drawn = album.get_pic_at("D", 0).unwrap();
    assert_eq!(drawn, "a");
    let undone = album.remove_last().unwrap();
    // The canonical stored key is remembered, not the raw query.
    assert_eq!(undone.deck, "d");
    assert_eq!(undone.url, "a");
    assert_eq!(album.picture_count(), 1);

    // A second undo in a row returns nothing and removes nothing.
    assert!(album.remove_last().is_none());
    assert_eq!(album.picture_count(), 1);
}

#[test]
fn end_to_end_scenario() {
    let mut album = Album::new();
    album.add_picture("mood", "m1");
    album.add_picture("mood", "m2");
    album.add_picture("mood", "m3");
    album.add_picture("tata", "t1");
    album.add_picture("riri", "r1");
    album.add_picture("riri", "r2");

    assert_eq!(album.deck_count(), 3);
    assert_eq!(album.picture_count(), 6);
    assert_eq!(album.get_rand_pic("tata"), Some("t1".to_owned()));
    let undone = album.remove_last().unwrap();
    assert_eq!(undone.deck, "tata");
    assert_eq!(undone.url, "t1");
    assert_eq!(album.deck_count(), 2);
    assert_eq!(album.picture_count(), 5);
    assert_eq!(album.get_rand_pic("tata"), None);
}

#[test]
fn save_without_provenance_fails_not_sourced() {
    let album = Album::new();
    match album.save() {
        Err(e) => assert_eq!(e, ErrorKind::NotSourced),
        Ok(_) => panic!("a fresh album must not be saveable"),
    }

    let mut seeded = Album::default();
    seeded.add_picture("more", "x");
    assert!(matches!(seeded.save(), Err(ErrorKind::NotSourced)));
}

#[test]
fn error_messages_name_the_failure() {
    assert_eq!(
        ErrorKind::NotSourced.to_string(),
        "Album was not sourced from a file and cannot automatically be saved to one."
    );
    assert_eq!(
        ErrorKind::IOError.to_string(),
        "The album file could not be opened or written."
    );
    assert_eq!(
        ErrorKind::ParseError.to_string(),
        "The album file holds a malformed document."
    );
}

#[test]
fn deck_names_lists_stored_keys() {
    let mut album = Album::new();
    album.add_picture("b", "1");
    album.add_picture("a", "2");
    album.add_picture("b", "3");

    let names = album.deck_names();
    assert_eq!(names, vec!["b".to_owned(), "a".to_owned()]);
}
