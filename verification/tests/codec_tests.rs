use oxytrouille::album::{Album, ErrorKind};

fn canonical_doc() -> String {
    [
        "{",
        "  \"pictures\": {",
        "    \"mood\": [",
        "      \"m1\",",
        "      \"m2\"",
        "    ],",
        "    \"tata\": [",
        "      \"t1\"",
        "    ]",
        "  },",
        "  \"last_sent\": {",
        "    \"deck\": \"tata\",",
        "    \"url\": \"t1\"",
        "  }",
        "}",
    ]
    .join("\n")
}

#[test]
fn load_reads_decks_and_last_action() {
    let album = Album::from_document("albums.json", &canonical_doc()).unwrap();
    assert_eq!(album.deck_count(), 2);
    assert_eq!(album.picture_count(), 3);
    assert_eq!(album.source_path(), Some("albums.json".to_owned()));

    let mut album = album;
    let undone = album.remove_last().unwrap();
    assert_eq!(undone.deck, "tata");
    assert_eq!(undone.url, "t1");
    assert_eq!(album.deck_count(), 1);
}

#[test]
fn save_after_load_round_trips_identically() {
    let doc = canonical_doc();
    let album = Album::from_document("albums.json", &doc).unwrap();
    let saved = album.save().unwrap();
    assert_eq!(saved, doc);

    let again = Album::from_document("albums.json", &saved).unwrap();
    assert_eq!(again.deck_count(), album.deck_count());
    assert_eq!(again.picture_count(), album.picture_count());
    assert_eq!(again.save().unwrap(), saved);
}

#[test]
fn round_trip_keeps_null_last_action() {
    let doc = "{\n  \"pictures\": {},\n  \"last_sent\": null\n}";
    let mut album = Album::from_document("p", doc).unwrap();
    assert_eq!(album.deck_count(), 0);
    assert!(album.remove_last().is_none());
    assert_eq!(album.save().unwrap(), doc);
}

#[test]
fn round_trip_keeps_escaped_characters() {
    let mut album = Album::from_document(
        "p",
        "{\n  \"pictures\": {\n    \"qu\\\"ote\": [\n      \"a\\\\b\\nc\\td\"\n    ]\n  },\n  \"last_sent\": null\n}",
    )
    .unwrap();
    let url = album.get_rand_pic("QU\"OTE").unwrap();
    assert_eq!(url, "a\\b\nc\td");

    let saved = album.save().unwrap();
    let again = Album::from_document("p", &saved).unwrap();
    let mut again = again;
    assert_eq!(again.get_rand_pic("qu\"ote").unwrap(), "a\\b\nc\td");
}

#[test]
fn whitespace_variations_parse_the_same() {
    let compact = "{\"pictures\":{\"d\":[\"u\"]},\"last_sent\":null}";
    let album = Album::from_document("p", compact).unwrap();
    assert_eq!(album.deck_count(), 1);
    assert_eq!(album.picture_count(), 1);
}

#[test]
fn malformed_documents_are_rejected() {
    let cases = [
        "",
        "not json",
        "{",
        "{\"pictures\": {}}",
        "{\"pictures\": {}, \"last_sent\": null} trailing",
        "{\"pictures\": [], \"last_sent\": null}",
        "{\"pictures\": {\"d\": [\"u\"]}, \"last_sent\": 7}",
        "{\"pictures\": {\"d\": [\"bad\\escape\"]}, \"last_sent\": null}",
        "{\"wrong\": {}, \"last_sent\": null}",
    ];
    for doc in cases {
        match Album::from_document("p", doc) {
            Err(e) => assert_eq!(e, ErrorKind::ParseError),
            Ok(_) => panic!("malformed document was accepted: {doc}"),
        }
    }
}

#[test]
fn documents_breaking_the_invariant_are_rejected() {
    // A deck may never be stored empty.
    let empty_deck = "{\"pictures\":{\"d\":[]},\"last_sent\":null}";
    assert!(matches!(
        Album::from_document("p", empty_deck),
        Err(ErrorKind::ParseError)
    ));

    // Deck keys must be distinct.
    let dup = "{\"pictures\":{\"d\":[\"a\"],\"d\":[\"b\"]},\"last_sent\":null}";
    assert!(matches!(
        Album::from_document("p", dup),
        Err(ErrorKind::ParseError)
    ));
}

#[test]
fn saved_documents_are_json_other_parsers_read() {
    let doc = "{\"pictures\":{\"mo\\\"od\":[\"u1\",\"a\\\\b\\nc\"]},\"last_sent\":{\"deck\":\"mo\\\"od\",\"url\":\"u1\"}}";
    let album = Album::from_document("p", doc).unwrap();
    let saved = album.save().unwrap();

    let parsed: serde_json::Value = serde_json::from_str(&saved).unwrap();

    let mut urls = Vec::new();
    urls.push(serde_json::Value::String("u1".to_owned()));
    urls.push(serde_json::Value::String("a\\b\nc".to_owned()));
    let mut pictures = serde_json::Map::new();
    pictures.insert("mo\"od".to_owned(), serde_json::Value::Array(urls));
    let mut last = serde_json::Map::new();
    last.insert(
        "deck".to_owned(),
        serde_json::Value::String("mo\"od".to_owned()),
    );
    last.insert("url".to_owned(), serde_json::Value::String("u1".to_owned()));
    let mut root = serde_json::Map::new();
    root.insert("pictures".to_owned(), serde_json::Value::Object(pictures));
    root.insert("last_sent".to_owned(), serde_json::Value::Object(last));
    let expected = serde_json::Value::Object(root);

    assert_eq!(parsed, expected);
}
