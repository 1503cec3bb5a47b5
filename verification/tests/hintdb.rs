use taghint::hintdb::parse_count;
use taghint::hintdb::TagHint;
use taghint::hintdb::TagHintDB;

fn owned_row(fields: &[&str]) -> Vec<String> {
    fields.iter().map(|f| f.to_string()).collect()
}

#[test]
fn four_field_row_builds_aliases() {
    let mut db = TagHintDB::new();
    let rows = vec![owned_row(&["cat", "ignored", "10", "kitty, feline"])];
    db.ingest_rows(&rows);
    match db.database.get("cat") {
        Some(TagHint::Just(n)) => assert_eq!(*n, 10),
        _ => panic!("cat should carry a usage count"),
    }
    match db.database.get("kitty") {
        Some(TagHint::Alias(c)) => assert_eq!(c, "cat"),
        _ => panic!("kitty should alias cat"),
    }
    match db.database.get("feline") {
        Some(TagHint::Alias(c)) => assert_eq!(c, "cat"),
        _ => panic!("feline should alias cat"),
    }
    assert!(db.query_tag("cat").iter().any(|q| q.tag == "cat"));
    assert!(db.query_tag("kitty").iter().any(|q| q.tag == "kitty"));
    assert!(db.query_tag("feline").iter().any(|q| q.tag == "feline"));
}

#[test]
fn query_resolves_hits_against_hints() {
    let mut db = TagHintDB::new();
    db.ingest_rows(&vec![owned_row(&["cat", "ignored", "10", "kitty, feline"])]);
    let hits = db.query_tag("cat");
    let cat = hits.iter().find(|q| q.tag == "cat").expect("cat should match its own query");
    assert_eq!(cat.usage_count, Some(10));
    assert_eq!(cat.suggest, None);
    let hits = db.query_tag("kitty");
    let kitty = hits.iter().find(|q| q.tag == "kitty").expect("kitty should match its own query");
    assert_eq!(kitty.suggest, Some("cat".to_string()));
    assert_eq!(kitty.usage_count, None);
}

#[test]
fn results_are_capped_at_twenty() {
    let mut db = TagHintDB::new();
    let mut rows: Vec<Vec<String>> = Vec::new();
    for i in 0..60 {
        rows.push(vec![format!("tag{}", i)]);
    }
    db.ingest_rows(&rows);
    let hits = db.query_tag("tag");
    assert!(hits.len() <= 20);
    assert!(!hits.is_empty());
}

#[test]
fn later_source_overwrites_key() {
    let mut db = TagHintDB::new();
    db.read_csv_source(&b"cat,x,10".to_vec());
    match db.database.get("cat") {
        Some(TagHint::Just(n)) => assert_eq!(*n, 10),
        _ => panic!("first source should set the count to 10"),
    }
    db.read_csv_source(&b"cat,x,7".to_vec());
    match db.database.get("cat") {
        Some(TagHint::Just(n)) => assert_eq!(*n, 7),
        _ => panic!("second source should set the count to 7"),
    }
}

#[test]
fn alias_can_shadow_canonical() {
    let mut db = TagHintDB::new();
    db.ingest_rows(&vec![owned_row(&["cat", "x", "10"])]);
    db.ingest_rows(&vec![owned_row(&["feline", "x", "3", "cat"])]);
    match db.database.get("cat") {
        Some(TagHint::Alias(c)) => assert_eq!(c, "feline"),
        _ => panic!("cat should now alias feline"),
    }
}

#[test]
fn row_arities() {
    let mut db = TagHintDB::new();
    db.ingest_rows(&vec![
        owned_row(&["one"]),
        owned_row(&["two", "category"]),
        owned_row(&["five", "a", "b", "c", "d"]),
    ]);
    match db.database.get("one") {
        Some(TagHint::Just(n)) => assert_eq!(*n, 0),
        _ => panic!("one-field row should default to count 0"),
    }
    match db.database.get("two") {
        Some(TagHint::Just(n)) => assert_eq!(*n, 0),
        _ => panic!("two-field row should default to count 0"),
    }
    assert!(db.database.get("five").is_none());
}

#[test]
fn bad_count_fields_default_to_zero() {
    let mut db = TagHintDB::new();
    db.ingest_rows(&vec![owned_row(&["a", "x", "notanumber"]), owned_row(&["b", "x", "+42"])]);
    match db.database.get("a") {
        Some(TagHint::Just(n)) => assert_eq!(*n, 0),
        _ => panic!("unparsable count should default to 0"),
    }
    match db.database.get("b") {
        Some(TagHint::Just(n)) => assert_eq!(*n, 42),
        _ => panic!("count with a plus sign should parse"),
    }
}

#[test]
fn parse_count_values() {
    assert_eq!(parse_count("10"), 10);
    assert_eq!(parse_count("+42"), 42);
    assert_eq!(parse_count(""), 0);
    assert_eq!(parse_count("12x"), 0);
    assert_eq!(parse_count("007"), 7);
    assert_eq!(parse_count("4294967295"), 4294967295);
    assert_eq!(parse_count("4294967296"), 0);
    assert_eq!(parse_count("-3"), 0);
    assert_eq!(parse_count("+"), 0);
}

#[test]
fn key_is_first_token_of_field() {
    let mut db = TagHintDB::new();
    db.ingest_rows(&vec![owned_row(&["foo_bar  baz"])]);
    assert!(db.database.get("foo bar baz").is_some());
    assert!(db.database.get("foo_bar  baz").is_none());
}

#[test]
fn csv_source_decodes_quoted_fields() {
    let mut db = TagHintDB::new();
    let bytes = b"cat,ignored,10,\"kitty, feline\"\n".to_vec();
    db.read_csv_source(&bytes);
    assert!(db.database.get("kitty").is_some());
    assert!(db.database.get("feline").is_some());
    match db.database.get("cat") {
        Some(TagHint::Just(n)) => assert_eq!(*n, 10),
        _ => panic!("cat should carry a usage count"),
    }
}

#[test]
fn csv_error_keeps_earlier_rows() {
    let mut db = TagHintDB::new();
    db.read_csv_source(&b"a,b\nc,d,e\n".to_vec());
    assert!(db.database.get("a").is_some());
    assert!(db.database.get("c").is_none());
}

#[test]
fn sources_are_read_in_order() {
    let mut db = TagHintDB::new();
    let sources = vec![b"cat,x,10".to_vec(), b"cat,x,7".to_vec()];
    db.read_db(&sources);
    match db.database.get("cat") {
        Some(TagHint::Just(n)) => assert_eq!(*n, 7),
        _ => panic!("the later source should win"),
    }
}

#[test]
fn default_database_is_empty() {
    let db = TagHintDB::default();
    assert!(db.database.is_empty());
    assert!(db.query_tag("anything").is_empty());
}
