use oxytrouille::album::Album;

#[test]
fn deck_count() {
    let album = Album::default();

    assert_eq!(album.deck_count(), 3);
}

#[test]
fn picture_count() {
    let album = Album::default();

    assert_eq!(album.picture_count(), 6);
}

#[test]
fn get_rand_pic_no_match() {
    let mut album = Album::default();

    let link = album.get_rand_pic("not_matching_key");
    assert_eq!(link, None);
}

#[test]
fn get_rand_pic_mood() {
    let mut album = Album::default();

    let link = album.get_rand_pic("mood").unwrap();
    assert!(link.contains("mood"));
    let link = album.get_rand_pic("moOd").unwrap();
    assert!(link.contains("mood"));
    let link = album.get_rand_pic("mood").unwrap();
    assert!(link.contains("mood"));
}

#[test]
fn get_rand_pic_tata() {
    let mut album = Album::default();

    let link = album.get_rand_pic("tata").unwrap();
    assert!(link.contains("tata"));
    let link = album.get_rand_pic("TATA").unwrap();
    assert!(link.contains("tata"));
    let link = album.get_rand_pic("tata").unwrap();
    assert!(link.contains("tata"));
}

#[test]
fn get_rand_pic_riri() {
    let mut album = Album::default();

    let link = album.get_rand_pic("rIri").unwrap();
    assert!(link.contains("riri"));
    let link = album.get_rand_pic("riri").unwrap();
    assert!(link.contains("riri"));
    let link = album.get_rand_pic("riri").unwrap();
    assert!(link.contains("riri"));
}

#[test]
fn remove_last() {
    let mut album = Album::default();
    let old_len = album.picture_count();

    album.get_rand_pic("tata").unwrap();
    album.remove_last();
    match album.get_rand_pic("tata") {
        Some(_) => panic!(),
        _ => {}
    }
    assert!(album.picture_count().eq(&(old_len - 1)));
}
