//! A snapshot of the registry's two tables, and the lookup over it.

use crate::extension;
use crate::extension_version;
use crate::lookup::{
    candidate_query, candidate_query_for, extensions_of, filter_view, is_dangling, is_published,
    latest_version_ids, latest_version_ids_of, lemma_paired_extensions,
    lemma_paired_succeeds_iff, lemma_paired_versions, lemma_version_with_id_is_first,
    outcome_view, pair_of, pair_with_versions, paired, published, version_with_id, versions_cover,
    CandidateQuery, CandidateQueryView, MissingVersion,
};
use crate::pattern::{
    chars_of, contains_folded, fuzzy_pattern, lemma_fuzzy_pattern_finds_substring, like_match,
    like_matches_chars,
};
use crate::ranking::{
    is_ranked, lemma_filter_keeps_ranking, lemma_ranked_filter_permutes,
    lemma_ranked_holds_same_rows, lemma_ranked_is_ranked, rank_by_popularity, ranked,
};
use crate::sequences::{lemma_filter_agrees, lemma_filter_map_agrees};
use vstd::prelude::*;

verus! {

/// The rows of the extensions table and of the extension versions table as
/// they stand at one moment. Every read of a lookup is answered from the
/// same rows.
pub struct Database {
    extensions: Vec<extension::Model>,
    extension_versions: Vec<extension_version::Model>,
}

/// The rows of a `Database`, each as its view, in the order of the tables.
pub ghost struct DatabaseView {
    pub extensions: Seq<extension::ModelView>,
    pub extension_versions: Seq<extension_version::ModelView>,
}

impl View for Database {
    type V = DatabaseView;

    closed spec fn view(&self) -> DatabaseView {
        DatabaseView {
            extensions: self.extensions.deep_view(),
            extension_versions: self.extension_versions.deep_view(),
        }
    }
}

/// The rows whose name matches `pattern`, in the rows' order.
pub open spec fn matching(rows: Seq<extension::ModelView>, pattern: Seq<char>) -> Seq<
    extension::ModelView,
> {
    rows.filter(|row: extension::ModelView| like_match(pattern, row.name))
}

/// The first `limit` of the rows, or all of them where there are fewer.
pub open spec fn first_rows(rows: Seq<extension::ModelView>, limit: u32) -> Seq<
    extension::ModelView,
> {
    if limit < rows.len() {
        rows.take(limit as int)
    } else {
        rows
    }
}

/// The answer of the extensions table to a query.
pub open spec fn candidates(
    rows: Seq<extension::ModelView>,
    query: CandidateQueryView,
) -> Seq<extension::ModelView> {
    match query {
        CandidateQueryView::All => ranked(rows),
        CandidateQueryView::Matching { pattern, limit } => first_rows(
            ranked(matching(rows, pattern)),
            limit,
        ),
    }
}

/// The version rows whose key is one of `ids`, in the rows' order.
pub open spec fn versions_with_ids(
    versions: Seq<extension_version::ModelView>,
    ids: Seq<i32>,
) -> Seq<extension_version::ModelView> {
    versions.filter(|version: extension_version::ModelView| ids.contains(version.id))
}

/// What a lookup with the given filter and limit returns from the tables:
/// the extensions that the filter selects, joined with their latest versions.
pub open spec fn lookup(db: DatabaseView, filter: Option<Seq<char>>, limit: u32) -> Result<
    Seq<(extension::ModelView, extension_version::ModelView)>,
    MissingVersion,
> {
    paired(candidates(db.extensions, candidate_query_for(filter, limit)), db.extension_versions)
}

/// Whether `id` is one of `ids`.
fn contains_id(ids: &Vec<i32>, id: i32) -> (found: bool)
    ensures
        found == ids@.contains(id),
{
    let mut i: usize = 0;
    while i < ids.len()
        invariant
            i <= ids.len(),
            forall|k: int| 0 <= k < i ==> ids@[k] != id,
        decreases ids.len() - i,
    {
        if ids[i] == id {
            return true;
        }
        i += 1;
    }
    false
}

impl Database {
    /// A snapshot that holds the given rows.
    pub fn new(
        extensions: Vec<extension::Model>,
        extension_versions: Vec<extension_version::Model>,
    ) -> (db: Database)
        ensures
            db@.extensions == extensions.deep_view(),
            db@.extension_versions == extension_versions.deep_view(),
    {
        Database { extensions, extension_versions }
    }

    /// Answers a query on the extensions table.
    pub fn select_extensions(&self, query: &CandidateQuery) -> (rows: Vec<extension::Model>)
        ensures
            rows.deep_view() == candidates(self@.extensions, query@),
    {
        match query {
            CandidateQuery::All => rank_by_popularity(&self.extensions),
            CandidateQuery::Matching { pattern, limit } => {
                let ghost table = self.extensions.deep_view();
                let ghost wanted = |row: extension::ModelView| like_match(pattern@, row.name);
                let letters = chars_of(pattern.as_str());
                let mut matched: Vec<extension::Model> = Vec::new();
                let mut i: usize = 0;
                proof {
                    table.take(0).lemma_filter_len(wanted);
                }
                while i < self.extensions.len()
                    invariant
                        i <= self.extensions.len(),
                        letters@ == pattern@,
                        table == self.extensions.deep_view(),
                        wanted == |row: extension::ModelView| like_match(pattern@, row.name),
                        matched.deep_view() == table.take(i as int).filter(wanted),
                    decreases self.extensions.len() - i,
                {
                    let ghost before = matched.deep_view();
                    proof {
                        assert(table.take(i + 1) =~= table.take(i as int).push(table[i as int]));
                        table.take(i as int).lemma_filter_push(table[i as int], wanted);
                    }
                    if like_matches_chars(&letters, self.extensions[i].name.as_str()) {
                        matched.push(self.extensions[i].clone());
                        assert(matched.deep_view() =~= before.push(table[i as int]));
                    }
                    i += 1;
                }
                assert(table.take(self.extensions.len() as int) =~= table);
                let mut rows = rank_by_popularity(&matched);
                let ghost in_order = rows.deep_view();
                let keep = *limit as usize;
                if keep < rows.len() {
                    rows.truncate(keep);
                    assert(rows.deep_view() =~= in_order.take(keep as int));
                }
                rows
            },
        }
    }

    /// Fetches in one batch the version rows whose key is one of `ids`.
    pub fn select_versions(&self, ids: &Vec<i32>) -> (rows: Vec<extension_version::Model>)
        ensures
            rows.deep_view() == versions_with_ids(self@.extension_versions, ids@),
    {
        let ghost table = self.extension_versions.deep_view();
        let ghost wanted = |version: extension_version::ModelView| ids@.contains(version.id);
        let mut rows: Vec<extension_version::Model> = Vec::new();
        let mut i: usize = 0;
        proof {
            table.take(0).lemma_filter_len(wanted);
        }
        while i < self.extension_versions.len()
            invariant
                i <= self.extension_versions.len(),
                table == self.extension_versions.deep_view(),
                wanted == |version: extension_version::ModelView| ids@.contains(version.id),
                rows.deep_view() == table.take(i as int).filter(wanted),
            decreases self.extension_versions.len() - i,
        {
            let ghost before = rows.deep_view();
            proof {
                assert(table.take(i + 1) =~= table.take(i as int).push(table[i as int]));
                table.take(i as int).lemma_filter_push(table[i as int], wanted);
            }
            if contains_id(ids, self.extension_versions[i].id) {
                rows.push(self.extension_versions[i].clone());
                assert(rows.deep_view() =~= before.push(table[i as int]));
            }
            i += 1;
        }
        assert(table.take(self.extension_versions.len() as int) =~= table);
        rows
    }

    /// Looks up the extensions that `filter` selects, each with its latest
    /// version, most downloaded first.
    ///
    /// With a filter, the extensions are those in whose name the filter
    /// occurs, case set aside, and no more than the `limit` most downloaded
    /// of them are considered. Without a filter every extension is
    /// considered and `limit` plays no part. Extensions without a latest
    /// version are left out. The lookup fails where an extension names a
    /// latest version that the versions table does not hold.
    pub fn get_extensions(&self, filter: Option<&str>, limit: u32) -> (outcome: Result<
        Vec<(extension::Model, extension_version::Model)>,
        MissingVersion,
    >)
        ensures
            outcome_view(outcome) == lookup(self@, filter_view(filter), limit),
            references_hold(self@) ==> outcome is Ok,
            outcome matches Ok(pairs) ==> {
                let found = pairs.deep_view();
                &&& is_ranked(extensions_of(found))
                &&& forall|i: int|
                    0 <= i < found.len() ==> (#[trigger] found[i]).0.latest_version == Some(
                        found[i].1.id,
                    )
                &&& filter is Some ==> found.len() <= limit
                &&& filter is None ==> extensions_of(found).to_multiset() == published(
                    self@.extensions,
                ).to_multiset()
            },
    {
        let query = candidate_query(filter, limit);
        let extensions = self.select_extensions(&query);
        let latest_version_ids = latest_version_ids(&extensions);
        let extension_versions = self.select_versions(&latest_version_ids);
        proof {
            lemma_batch_of_versions_suffices(
                extensions.deep_view(),
                self.extension_versions.deep_view(),
            );
            if references_hold(self@) {
                lemma_lookup_succeeds_where_references_hold(self@, filter_view(filter), limit);
            }
            lemma_lookup_is_ranked(self@, filter_view(filter), limit);
            lemma_lookup_pairs_latest_version(self@, filter_view(filter), limit);
            match filter {
                Some(text) => lemma_filtered_lookup_is_capped(self@, text@, limit),
                None => lemma_unfiltered_lookup_is_complete(self@, limit),
            }
        }
        pair_with_versions(&extensions, &extension_versions)
    }
}

/// The rows in whose name `filter` occurs, case set aside, in the rows'
/// order.
pub open spec fn named_like(rows: Seq<extension::ModelView>, filter: Seq<char>) -> Seq<
    extension::ModelView,
> {
    rows.filter(|row: extension::ModelView| contains_folded(row.name, filter))
}

/// The extensions table answers every query with rows in order of
/// popularity.
pub proof fn lemma_candidates_are_ranked(
    rows: Seq<extension::ModelView>,
    query: CandidateQueryView,
)
    ensures
        is_ranked(candidates(rows, query)),
{
    match query {
        CandidateQueryView::All => {
            lemma_ranked_is_ranked(rows);
        },
        CandidateQueryView::Matching { pattern, limit } => {
            lemma_ranked_is_ranked(matching(rows, pattern));
        },
    }
}

/// A lookup with a filter considers the extensions in whose name the filter
/// occurs as a run of consecutive letters, case set aside: the most
/// downloaded of them, up to the limit. Characters of the filter that are
/// special in a pattern stand for themselves.
pub proof fn lemma_filter_selects_by_substring(
    rows: Seq<extension::ModelView>,
    filter: Seq<char>,
    limit: u32,
)
    ensures
        candidates(rows, candidate_query_for(Some(filter), limit)) == first_rows(
            ranked(named_like(rows, filter)),
            limit,
        ),
{
    assert forall|i: int| 0 <= i < rows.len() implies like_match(
        fuzzy_pattern(filter),
        (#[trigger] rows[i]).name,
    ) == contains_folded(rows[i].name, filter) by {
        lemma_fuzzy_pattern_finds_substring(filter, rows[i].name);
    }
    lemma_filter_agrees(
        rows,
        |row: extension::ModelView| like_match(fuzzy_pattern(filter), row.name),
        |row: extension::ModelView| contains_folded(row.name, filter),
    );
}

/// Whether every latest version that an extension of the tables names is
/// held by a row of the versions table.
pub open spec fn references_hold(db: DatabaseView) -> bool {
    versions_cover(db.extensions, db.extension_versions)
}

/// Where the tables hold every version that an extension names, every
/// lookup succeeds.
pub proof fn lemma_lookup_succeeds_where_references_hold(
    db: DatabaseView,
    filter: Option<Seq<char>>,
    limit: u32,
)
    requires
        references_hold(db),
    ensures
        lookup(db, filter, limit) is Ok,
{
    let query = candidate_query_for(filter, limit);
    let considered = candidates(db.extensions, query);
    assert forall|i: int|
        0 <= i < considered.len() && (#[trigger] considered[i]).latest_version is Some
            implies exists|k: int|
            0 <= k < db.extension_versions.len() && (#[trigger] db.extension_versions[k]).id
                == considered[i].latest_version->0 by {
        assert(considered.contains(considered[i]));
        lemma_candidate_is_row(db.extensions, query, considered[i]);
        let j = choose|j: int| 0 <= j < db.extensions.len() && db.extensions[j] == considered[i];
        assert(db.extensions[j].latest_version is Some);
    }
    lemma_paired_succeeds_iff(considered, db.extension_versions);
}

/// Without a filter the limit plays no part: whatever it is, the lookup
/// returns the same.
pub proof fn lemma_unfiltered_lookup_ignores_limit(db: DatabaseView, limit: u32, other: u32)
    ensures
        lookup(db, None, limit) == lookup(db, None, other),
{
}

/// Without a filter a successful lookup returns every extension of the
/// table that names a latest version, each as often as the table holds it,
/// and nothing else.
pub proof fn lemma_unfiltered_lookup_is_complete(db: DatabaseView, limit: u32)
    ensures
        lookup(db, None, limit) matches Ok(pairs) ==> extensions_of(pairs).to_multiset()
            == published(db.extensions).to_multiset(),
{
    lemma_paired_extensions(ranked(db.extensions), db.extension_versions);
    lemma_ranked_filter_permutes(db.extensions, |row: extension::ModelView| is_published(row));
}

/// With a filter a successful lookup returns no more pairs than the limit.
pub proof fn lemma_filtered_lookup_is_capped(db: DatabaseView, filter: Seq<char>, limit: u32)
    ensures
        lookup(db, Some(filter), limit) matches Ok(pairs) ==> pairs.len() <= limit,
{
    let found = ranked(matching(db.extensions, fuzzy_pattern(filter)));
    let considered = first_rows(found, limit);
    lemma_paired_extensions(considered, db.extension_versions);
    considered.lemma_filter_len(|row: extension::ModelView| is_published(row));
}

/// The pairs of a successful lookup stand in order of popularity: no
/// extension has more downloads than the one before it.
pub proof fn lemma_lookup_is_ranked(db: DatabaseView, filter: Option<Seq<char>>, limit: u32)
    ensures
        lookup(db, filter, limit) matches Ok(pairs) ==> is_ranked(extensions_of(pairs)) && forall|
            i: int,
        |
            0 <= i < pairs.len() - 1 ==> (#[trigger] pairs[i]).0.total_download_count >= pairs[i
                + 1].0.total_download_count,
{
    let considered = candidates(db.extensions, candidate_query_for(filter, limit));
    lemma_candidates_are_ranked(db.extensions, candidate_query_for(filter, limit));
    lemma_paired_extensions(considered, db.extension_versions);
    lemma_filter_keeps_ranking(considered, |row: extension::ModelView| is_published(row));
    if let Ok(pairs) = lookup(db, filter, limit) {
        assert forall|i: int| 0 <= i < pairs.len() - 1 implies
            (#[trigger] pairs[i]).0.total_download_count
                >= pairs[i + 1].0.total_download_count by {
            assert(extensions_of(pairs)[i] == pairs[i].0);
            assert(extensions_of(pairs)[i + 1] == pairs[i + 1].0);
        }
    }
}

/// In every pair of a successful lookup the version is the one that the
/// extension names as its latest, and it is a row of the versions table.
pub proof fn lemma_lookup_pairs_latest_version(
    db: DatabaseView,
    filter: Option<Seq<char>>,
    limit: u32,
)
    ensures
        lookup(db, filter, limit) matches Ok(pairs) ==> forall|i: int|
            0 <= i < pairs.len() ==> (#[trigger] pairs[i]).0.latest_version == Some(pairs[i].1.id)
                && db.extension_versions.contains(pairs[i].1),
{
    let considered = candidates(db.extensions, candidate_query_for(filter, limit));
    lemma_paired_versions(considered, db.extension_versions);
    if let Ok(pairs) = lookup(db, filter, limit) {
        assert forall|i: int| 0 <= i < pairs.len() implies db.extension_versions.contains(
            (#[trigger] pairs[i]).1,
        ) by {
            lemma_version_with_id_is_first(db.extension_versions, pairs[i].1.id);
        }
    }
}

/// An extension that names no latest version is in no pair of a lookup,
/// with a filter or without.
pub proof fn lemma_lookup_leaves_out_unpublished(
    db: DatabaseView,
    filter: Option<Seq<char>>,
    limit: u32,
)
    ensures
        lookup(db, filter, limit) matches Ok(pairs) ==> forall|i: int|
            0 <= i < pairs.len() ==> (#[trigger] pairs[i]).0.latest_version is Some,
{
    lemma_lookup_pairs_latest_version(db, filter, limit);
}

/// Every extension in a pair of a successful lookup is a row of the
/// extensions table.
pub proof fn lemma_lookup_returns_rows(db: DatabaseView, filter: Option<Seq<char>>, limit: u32)
    ensures
        lookup(db, filter, limit) matches Ok(pairs) ==> forall|i: int|
            0 <= i < pairs.len() ==> db.extensions.contains((#[trigger] pairs[i]).0),
{
    let considered = candidates(db.extensions, candidate_query_for(filter, limit));
    let names = |row: extension::ModelView| is_published(row);
    lemma_paired_extensions(considered, db.extension_versions);
    if let Ok(pairs) = lookup(db, filter, limit) {
        assert forall|i: int| 0 <= i < pairs.len() implies db.extensions.contains(
            (#[trigger] pairs[i]).0,
        ) by {
            let row = pairs[i].0;
            assert(extensions_of(pairs)[i] == row);
            assert(considered.filter(names).contains(row));
            considered.lemma_filter_contains_rev(names, row);
            lemma_candidate_is_row(db.extensions, candidate_query_for(filter, limit), row);
        }
    }
}

/// Every row that the extensions table answers with is one of its rows.
proof fn lemma_candidate_is_row(
    rows: Seq<extension::ModelView>,
    query: CandidateQueryView,
    row: extension::ModelView,
)
    requires
        candidates(rows, query).contains(row),
    ensures
        rows.contains(row),
{
    match query {
        CandidateQueryView::All => {
            lemma_ranked_holds_same_rows(rows, row);
        },
        CandidateQueryView::Matching { pattern, limit } => {
            let found = matching(rows, pattern);
            let k = choose|k: int|
                0 <= k < candidates(rows, query).len() && candidates(rows, query)[k] == row;
            assert(ranked(found)[k] == row);
            lemma_ranked_holds_same_rows(found, row);
            rows.lemma_filter_contains_rev(
                |row: extension::ModelView| like_match(pattern, row.name),
                row,
            );
        },
    }
}

/// Joining rows with only the versions that they name gives what joining
/// them with the whole versions table gives.
pub proof fn lemma_batch_of_versions_suffices(
    rows: Seq<extension::ModelView>,
    versions: Seq<extension_version::ModelView>,
)
    ensures
        paired(rows, versions_with_ids(versions, latest_version_ids_of(rows))) == paired(
            rows,
            versions,
        ),
{
    let ids = latest_version_ids_of(rows);
    let batch = versions_with_ids(versions, ids);
    assert forall|i: int| 0 <= i < rows.len() implies is_dangling(#[trigger] rows[i], batch)
        == is_dangling(rows[i], versions) && pair_of(rows[i], batch) == pair_of(
        rows[i],
        versions,
    ) by {
        if let Some(id) = rows[i].latest_version {
            lemma_latest_version_is_collected(rows, i);
            lemma_batch_holds_first_version(versions, ids, id);
        }
    }
    lemma_filter_agrees(
        rows,
        |row: extension::ModelView| is_dangling(row, batch),
        |row: extension::ModelView| is_dangling(row, versions),
    );
    lemma_filter_map_agrees(
        rows,
        |row: extension::ModelView| pair_of(row, batch),
        |row: extension::ModelView| pair_of(row, versions),
    );
}

/// The key that a row names as its latest version is among the keys
/// collected from the rows.
proof fn lemma_latest_version_is_collected(rows: Seq<extension::ModelView>, i: int)
    requires
        0 <= i < rows.len(),
        rows[i].latest_version is Some,
    ensures
        latest_version_ids_of(rows).contains(rows[i].latest_version->0),
    decreases rows.len(),
{
    let front = rows.drop_last();
    let ids = latest_version_ids_of(rows);
    let before = latest_version_ids_of(front);
    if i == rows.len() - 1 {
        assert(ids[ids.len() - 1] == rows[i].latest_version->0);
    } else {
        lemma_latest_version_is_collected(front, i);
        let k = choose|k: int| 0 <= k < before.len() && before[k] == front[i].latest_version->0;
        assert(ids[k] == before[k]);
    }
}

/// Among the versions fetched for a set of keys, the first with one of
/// those keys is the first with that key in the whole table.
proof fn lemma_batch_holds_first_version(
    versions: Seq<extension_version::ModelView>,
    ids: Seq<i32>,
    id: i32,
)
    requires
        ids.contains(id),
    ensures
        version_with_id(versions_with_ids(versions, ids), id) == version_with_id(versions, id),
    decreases versions.len(),
{
    let wanted = |version: extension_version::ModelView| ids.contains(version.id);
    if versions.len() == 0 {
        versions.lemma_filter_len(wanted);
    } else {
        let front = versions.drop_last();
        lemma_batch_holds_first_version(front, ids, id);
        assert(versions =~= front.push(versions.last()));
        front.lemma_filter_push(versions.last(), wanted);
        if wanted(versions.last()) {
            assert(front.filter(wanted).push(versions.last()).drop_last() =~= front.filter(
                wanted,
            ));
        }
    }
}

} // verus!
