use extension_lookup::database::Database;
use extension_lookup::extension;
use extension_lookup::extension_version;
use extension_lookup::lookup::{CandidateQuery, MissingVersion};

fn extension(id: i32, name: &str, downloads: i64, latest: Option<i32>) -> extension::Model {
    extension::Model {
        id,
        name: name.to_string(),
        total_download_count: downloads,
        latest_version: latest,
    }
}

fn version(id: i32, extension_id: i32, version: &str) -> extension_version::Model {
    extension_version::Model {
        id,
        extension_id,
        version: version.to_string(),
        published_at: 1_700_000_000 + id as i64,
        authors: "someone".to_string(),
        description: format!("release {version}"),
    }
}

fn names(pairs: &[(extension::Model, extension_version::Model)]) -> Vec<&str> {
    pairs.iter().map(|(extension, _)| extension.name.as_str()).collect()
}

fn three_extensions() -> Database {
    Database::new(
        vec![
            extension(1, "A", 50, Some(101)),
            extension(2, "B", 200, Some(102)),
            extension(3, "C", 10, None),
        ],
        vec![version(101, 1, "1.0.0"), version(102, 2, "2.0.0"), version(100, 1, "0.9.0")],
    )
}

fn named(all: &[&str]) -> Database {
    let mut extensions = Vec::new();
    let mut versions = Vec::new();
    for (i, name) in all.iter().enumerate() {
        let id = i as i32 + 1;
        extensions.push(extension(id, name, 1000 - i as i64, Some(id + 500)));
        versions.push(version(id + 500, id, "1.0.0"));
    }
    Database::new(extensions, versions)
}

#[test]
fn unfiltered_lookup_ignores_limit_and_drops_versionless() {
    let db = three_extensions();
    let expected = vec![
        (extension(2, "B", 200, Some(102)), version(102, 2, "2.0.0")),
        (extension(1, "A", 50, Some(101)), version(101, 1, "1.0.0")),
    ];
    assert_eq!(db.get_extensions(None, 1), Ok(expected.clone()));
    assert_eq!(db.get_extensions(None, 0), Ok(expected.clone()));
    assert_eq!(db.get_extensions(None, u32::MAX), Ok(expected));
}

#[test]
fn filtered_lookup_caps_at_limit() {
    let db = three_extensions();
    assert_eq!(
        db.get_extensions(Some("a"), 1),
        Ok(vec![(extension(1, "A", 50, Some(101)), version(101, 1, "1.0.0"))])
    );
    let many = named(&["zed-one", "zed-two", "zed-three", "other"]);
    assert_eq!(names(&many.get_extensions(Some("zed"), 2).unwrap()), vec!["zed-one", "zed-two"]);
    assert_eq!(
        names(&many.get_extensions(Some("zed"), 3).unwrap()),
        vec!["zed-one", "zed-two", "zed-three"]
    );
    assert_eq!(
        names(&many.get_extensions(Some("zed"), 50).unwrap()),
        vec!["zed-one", "zed-two", "zed-three"]
    );
    assert_eq!(many.get_extensions(Some("zed"), 0), Ok(Vec::new()));
}

#[test]
fn limit_counts_rows_before_the_join() {
    let db = Database::new(
        vec![extension(1, "aa", 100, None), extension(2, "ab", 50, Some(7))],
        vec![version(7, 2, "1.0.0")],
    );
    assert_eq!(db.get_extensions(Some("a"), 1), Ok(Vec::new()));
    assert_eq!(
        db.get_extensions(Some("a"), 2),
        Ok(vec![(extension(2, "ab", 50, Some(7)), version(7, 2, "1.0.0"))])
    );
}

#[test]
fn fuzzy_match_is_substring_like_and_case_insensitive() {
    let db = named(&["Foo", "barfoo baz", "qux"]);
    assert_eq!(names(&db.get_extensions(Some("foo"), 10).unwrap()), vec!["Foo", "barfoo baz"]);
    assert_eq!(names(&db.get_extensions(Some("FOO"), 10).unwrap()), vec!["Foo", "barfoo baz"]);
    assert_eq!(names(&db.get_extensions(Some("o b"), 10).unwrap()), vec!["barfoo baz"]);
    assert_eq!(names(&db.get_extensions(Some("fob"), 10).unwrap()), Vec::<&str>::new());
}

#[test]
fn literal_pattern_characters_are_escaped() {
    let db = named(&["100%", "1000", "100", "a_c", "abc", "back\\slash"]);
    assert_eq!(names(&db.get_extensions(Some("100%"), 10).unwrap()), vec!["100%"]);
    assert_eq!(names(&db.get_extensions(Some("%"), 10).unwrap()), vec!["100%"]);
    assert_eq!(names(&db.get_extensions(Some("a_c"), 10).unwrap()), vec!["a_c"]);
    assert_eq!(names(&db.get_extensions(Some("_"), 10).unwrap()), vec!["a_c"]);
    assert_eq!(names(&db.get_extensions(Some("\\"), 10).unwrap()), vec!["back\\slash"]);
}

#[test]
fn empty_filter_selects_every_name_up_to_limit() {
    let db = three_extensions();
    assert_eq!(names(&db.get_extensions(Some(""), 10).unwrap()), vec!["B", "A"]);
    assert_eq!(names(&db.get_extensions(Some(""), 1).unwrap()), vec!["B"]);
}

#[test]
fn lookup_orders_by_downloads_descending() {
    let db = Database::new(
        vec![
            extension(1, "one", 5, Some(1)),
            extension(2, "two", 500, Some(2)),
            extension(3, "three", 50, Some(3)),
            extension(4, "four", 500, Some(4)),
            extension(5, "five", 0, Some(5)),
        ],
        vec![
            version(1, 1, "1"),
            version(2, 2, "1"),
            version(3, 3, "1"),
            version(4, 4, "1"),
            version(5, 5, "1"),
        ],
    );
    let all = db.get_extensions(None, 0).unwrap();
    assert_eq!(names(&all), vec!["two", "four", "three", "one", "five"]);
    for i in 1..all.len() {
        assert!(all[i - 1].0.total_download_count >= all[i].0.total_download_count);
    }
    let filtered = db.get_extensions(Some("o"), 2).unwrap();
    assert_eq!(names(&filtered), vec!["two", "four"]);
}

#[test]
fn every_pair_holds_the_extensions_latest_version() {
    let db = Database::new(
        vec![
            extension(1, "alpha", 3, Some(12)),
            extension(2, "beta", 2, Some(21)),
            extension(3, "gamma", 1, None),
        ],
        vec![
            version(11, 1, "1.0.0"),
            version(12, 1, "1.1.0"),
            version(21, 2, "0.1.0"),
            version(31, 3, "0.0.1"),
        ],
    );
    let pairs = db.get_extensions(None, 0).unwrap();
    assert_eq!(pairs.len(), 2);
    for (extension, version) in &pairs {
        assert_eq!(extension.latest_version, Some(version.id));
        assert_eq!(extension.id, version.extension_id);
    }
    assert_eq!(pairs[0].1, version(12, 1, "1.1.0"));
    assert_eq!(pairs[1].1, version(21, 2, "0.1.0"));
}

#[test]
fn versionless_extension_never_appears() {
    let db = Database::new(
        vec![extension(1, "solo", 9000, None), extension(2, "solo too", 1, None)],
        vec![version(1, 1, "1.0.0")],
    );
    assert_eq!(db.get_extensions(None, 10), Ok(Vec::new()));
    assert_eq!(db.get_extensions(Some("solo"), 10), Ok(Vec::new()));
}

#[test]
fn lookup_in_empty_tables_is_empty() {
    let db = Database::new(Vec::new(), Vec::new());
    assert_eq!(db.get_extensions(None, 10), Ok(Vec::new()));
    assert_eq!(db.get_extensions(Some("x"), 10), Ok(Vec::new()));
}

#[test]
fn lookup_without_match_is_empty() {
    assert_eq!(three_extensions().get_extensions(Some("zzz"), 10), Ok(Vec::new()));
}

#[test]
fn lookup_fails_where_latest_version_row_is_missing() {
    let db = Database::new(
        vec![extension(1, "kept", 10, Some(1)), extension(2, "broken", 20, Some(77))],
        vec![version(1, 1, "1.0.0")],
    );
    let missing = MissingVersion { extension_id: 2, version_id: 77 };
    assert_eq!(db.get_extensions(None, 10), Err(missing));
    assert_eq!(db.get_extensions(Some("e"), 10), Err(missing));
    assert_eq!(
        db.get_extensions(Some("kept"), 10),
        Ok(vec![(extension(1, "kept", 10, Some(1)), version(1, 1, "1.0.0"))])
    );
    assert_eq!(db.get_extensions(Some("e"), 0), Ok(Vec::new()));
}

#[test]
fn select_extensions_answers_both_queries() {
    let db = three_extensions();
    let all = db.select_extensions(&CandidateQuery::All);
    assert_eq!(all.iter().map(|row| row.id).collect::<Vec<_>>(), vec![2, 1, 3]);
    let some = db.select_extensions(&CandidateQuery::Matching {
        pattern: "_".to_string(),
        limit: 2,
    });
    assert_eq!(some.iter().map(|row| row.id).collect::<Vec<_>>(), vec![2, 1]);
    let none =
        db.select_extensions(&CandidateQuery::Matching { pattern: "__".to_string(), limit: 2 });
    assert_eq!(none, Vec::new());
}

#[test]
fn select_versions_fetches_rows_with_listed_keys() {
    let db = three_extensions();
    assert_eq!(
        db.select_versions(&vec![100, 102, 7]),
        vec![version(102, 2, "2.0.0"), version(100, 1, "0.9.0")]
    );
    assert_eq!(db.select_versions(&Vec::new()), Vec::new());
}

#[test]
fn lookup_answers_from_one_snapshot() {
    let before = Database::new(
        vec![extension(1, "editor", 10, Some(1))],
        vec![version(1, 1, "1.0.0")],
    );
    let after = Database::new(
        vec![extension(1, "editor", 11, Some(2))],
        vec![version(1, 1, "1.0.0"), version(2, 1, "1.1.0")],
    );
    assert_eq!(
        before.get_extensions(None, 10),
        Ok(vec![(extension(1, "editor", 10, Some(1)), version(1, 1, "1.0.0"))])
    );
    assert_eq!(
        after.get_extensions(None, 10),
        Ok(vec![(extension(1, "editor", 11, Some(2)), version(2, 1, "1.1.0"))])
    );
    assert_eq!(
        before.get_extensions(Some("edit"), 10),
        Ok(vec![(extension(1, "editor", 10, Some(1)), version(1, 1, "1.0.0"))])
    );
}

#[test]
fn lookup_pairs_first_row_where_version_keys_repeat() {
    let db = Database::new(
        vec![extension(1, "dup", 10, Some(5))],
        vec![version(5, 1, "first"), version(5, 1, "second")],
    );
    assert_eq!(
        db.get_extensions(None, 10),
        Ok(vec![(extension(1, "dup", 10, Some(5)), version(5, 1, "first"))])
    );
}
