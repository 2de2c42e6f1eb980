use extension_lookup::extension::Model;
use extension_lookup::ranking::rank_by_popularity;

fn row(id: i32, name: &str, total_download_count: i64) -> Model {
    Model { id, name: name.to_string(), total_download_count, latest_version: None }
}

fn ids(rows: &[Model]) -> Vec<i32> {
    rows.iter().map(|row| row.id).collect()
}

#[test]
fn ranking_of_nothing_is_nothing() {
    assert_eq!(rank_by_popularity(&Vec::new()), Vec::new());
}

#[test]
fn ranking_puts_most_downloaded_first() {
    let rows = vec![row(1, "a", 50), row(2, "b", 200), row(3, "c", 10), row(4, "d", 75)];
    let ranked = rank_by_popularity(&rows);
    assert_eq!(ids(&ranked), vec![2, 4, 1, 3]);
    assert_eq!(ranked[0], row(2, "b", 200));
    assert_eq!(ranked[3], row(3, "c", 10));
}

#[test]
fn ranking_keeps_order_of_equally_popular_rows() {
    let rows = vec![row(1, "a", 5), row(2, "b", 9), row(3, "c", 5), row(4, "d", 9), row(5, "e", 5)];
    assert_eq!(ids(&rank_by_popularity(&rows)), vec![2, 4, 1, 3, 5]);
}

#[test]
fn ranking_keeps_every_row() {
    let rows = vec![row(1, "a", 3), row(1, "a", 3), row(2, "b", -4), row(3, "c", i64::MAX)];
    let ranked = rank_by_popularity(&rows);
    assert_eq!(ranked.len(), 4);
    assert_eq!(ids(&ranked), vec![3, 1, 1, 2]);
}

#[test]
fn ranking_leaves_ranked_rows_as_they_are() {
    let rows = vec![row(7, "x", 30), row(8, "y", 20), row(9, "z", 10)];
    assert_eq!(rank_by_popularity(&rows), rows);
}
