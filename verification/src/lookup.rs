//! The steps of an extension lookup that do not touch the store: which
//! extensions to ask for, which versions to ask for, and how the two answers
//! are joined.

use crate::extension;
use crate::extension_version;
use crate::pattern::{fuzzy_like_string, fuzzy_pattern};
use vstd::prelude::*;

verus! {

/// The question that a lookup puts to the extensions table.
#[derive(Debug, PartialEq, Eq)]
pub enum CandidateQuery {
    /// Every extension, most downloaded first.
    All,
    /// The extensions whose name matches `pattern`, most downloaded first,
    /// and of those no more than the first `limit`.
    Matching { pattern: String, limit: u32 },
}

/// A `CandidateQuery` with its pattern as a sequence of characters.
pub ghost enum CandidateQueryView {
    All,
    Matching { pattern: Seq<char>, limit: u32 },
}

impl View for CandidateQuery {
    type V = CandidateQueryView;

    open spec fn view(&self) -> CandidateQueryView {
        match self {
            CandidateQuery::All => CandidateQueryView::All,
            CandidateQuery::Matching { pattern, limit } => CandidateQueryView::Matching {
                pattern: pattern@,
                limit: *limit,
            },
        }
    }
}

/// A referenced version row that the store did not return.
#[derive(Clone, Copy, Debug, PartialEq, Eq)]
pub struct MissingVersion {
    /// The key of the extension whose latest version is missing.
    pub extension_id: i32,
    /// The key that the extension names as its latest version.
    pub version_id: i32,
}

/// The characters of an optional name filter.
pub open spec fn filter_view(filter: Option<&str>) -> Option<Seq<char>> {
    match filter {
        Some(text) => Some(text@),
        None => None,
    }
}

/// The question for a name filter and a limit. With a filter, the names are
/// matched against the filter's pattern and the limit applies; without one,
/// every extension is asked for and the limit plays no part.
pub open spec fn candidate_query_for(filter: Option<Seq<char>>, limit: u32) -> CandidateQueryView {
    match filter {
        Some(text) => CandidateQueryView::Matching { pattern: fuzzy_pattern(text), limit },
        None => CandidateQueryView::All,
    }
}

/// The key of the latest version that a row names, if it names one.
pub open spec fn latest_version_of(row: extension::ModelView) -> Option<i32> {
    row.latest_version
}

/// The keys of the latest versions that the rows name, in the rows' order.
/// A row that names none contributes nothing.
pub open spec fn latest_version_ids_of(rows: Seq<extension::ModelView>) -> Seq<i32> {
    rows.filter_map(|row: extension::ModelView| latest_version_of(row))
}

/// The first of the version rows with the key `id`, if there is one.
pub open spec fn version_with_id(
    versions: Seq<extension_version::ModelView>,
    id: i32,
) -> Option<extension_version::ModelView>
    decreases versions.len(),
{
    if versions.len() == 0 {
        None
    } else {
        match version_with_id(versions.drop_last(), id) {
            Some(version) => Some(version),
            None => if versions.last().id == id {
                Some(versions.last())
            } else {
                None
            },
        }
    }
}

/// Whether the row names a latest version that is not among `versions`.
pub open spec fn is_dangling(
    row: extension::ModelView,
    versions: Seq<extension_version::ModelView>,
) -> bool {
    match row.latest_version {
        Some(id) => version_with_id(versions, id) is None,
        None => false,
    }
}

/// The row together with its latest version, where it names one and that
/// version is among `versions`.
pub open spec fn pair_of(
    row: extension::ModelView,
    versions: Seq<extension_version::ModelView>,
) -> Option<(extension::ModelView, extension_version::ModelView)> {
    match row.latest_version {
        Some(id) => match version_with_id(versions, id) {
            Some(version) => Some((row, version)),
            None => None,
        },
        None => None,
    }
}

/// The rows whose latest version is not among `versions`, in the rows' order.
pub open spec fn dangling(
    rows: Seq<extension::ModelView>,
    versions: Seq<extension_version::ModelView>,
) -> Seq<extension::ModelView> {
    rows.filter(|row: extension::ModelView| is_dangling(row, versions))
}

/// The outcome of joining extension rows with version rows.
///
/// Where every version that a row names is among `versions`, the outcome is
/// one pair for each row that names a version, in the rows' order; rows that
/// name none are left out. Otherwise it is the first row whose version is
/// missing.
pub open spec fn paired(
    rows: Seq<extension::ModelView>,
    versions: Seq<extension_version::ModelView>,
) -> Result<Seq<(extension::ModelView, extension_version::ModelView)>, MissingVersion> {
    let unmatched = dangling(rows, versions);
    if unmatched.len() == 0 {
        Ok(rows.filter_map(|row: extension::ModelView| pair_of(row, versions)))
    } else {
        Err(
            MissingVersion {
                extension_id: unmatched[0].id,
                version_id: unmatched[0].latest_version->0,
            },
        )
    }
}

/// Whether every latest version that one of the rows names is the key of
/// one of the version rows.
pub open spec fn versions_cover(
    rows: Seq<extension::ModelView>,
    versions: Seq<extension_version::ModelView>,
) -> bool {
    forall|i: int|
        0 <= i < rows.len() && (#[trigger] rows[i]).latest_version is Some ==> exists|k: int|
            0 <= k < versions.len() && (#[trigger] versions[k]).id == rows[i].latest_version->0
}

/// Whether the row names a latest version.
pub open spec fn is_published(row: extension::ModelView) -> bool {
    row.latest_version is Some
}

/// The rows that name a latest version, in the rows' order.
pub open spec fn published(rows: Seq<extension::ModelView>) -> Seq<extension::ModelView> {
    rows.filter(|row: extension::ModelView| is_published(row))
}

/// The extension of each pair, in the pairs' order.
pub open spec fn extensions_of(
    pairs: Seq<(extension::ModelView, extension_version::ModelView)>,
) -> Seq<extension::ModelView> {
    pairs.map_values(|pair: (extension::ModelView, extension_version::ModelView)| pair.0)
}

/// What a lookup returns, with the rows of a successful one as their views.
pub open spec fn outcome_view(
    outcome: Result<Vec<(extension::Model, extension_version::Model)>, MissingVersion>,
) -> Result<Seq<(extension::ModelView, extension_version::ModelView)>, MissingVersion> {
    match outcome {
        Ok(pairs) => Ok(pairs.deep_view()),
        Err(missing) => Err(missing),
    }
}

/// Decides what to ask the extensions table for.
pub fn candidate_query(filter: Option<&str>, limit: u32) -> (query: CandidateQuery)
    ensures
        query@ == candidate_query_for(filter_view(filter), limit),
{
    match filter {
        Some(text) => CandidateQuery::Matching { pattern: fuzzy_like_string(text), limit },
        None => CandidateQuery::All,
    }
}

/// Collects the keys of the latest versions that the rows name.
pub fn latest_version_ids(extensions: &Vec<extension::Model>) -> (ids: Vec<i32>)
    ensures
        ids@ == latest_version_ids_of(extensions.deep_view()),
{
    let ghost rows = extensions.deep_view();
    let ghost key = |row: extension::ModelView| latest_version_of(row);
    let mut ids: Vec<i32> = Vec::new();
    let mut i: usize = 0;
    while i < extensions.len()
        invariant
            i <= extensions.len(),
            rows == extensions.deep_view(),
            key == |row: extension::ModelView| latest_version_of(row),
            ids@ == rows.take(i as int).filter_map(key),
        decreases extensions.len() - i,
    {
        proof {
            rows.lemma_filter_map_take_succ(key, i as int);
        }
        if let Some(id) = extensions[i].latest_version {
            ids.push(id);
        }
        i += 1;
    }
    assert(rows.take(extensions.len() as int) =~= rows);
    ids
}

/// Finds the first of the version rows with the key `id`.
pub fn find_version(versions: &Vec<extension_version::Model>, id: i32) -> (found: Option<
    &extension_version::Model,
>)
    ensures
        match found {
            Some(version) => version_with_id(versions.deep_view(), id) == Some(version@),
            None => version_with_id(versions.deep_view(), id) is None,
        },
{
    let ghost rows = versions.deep_view();
    let mut i: usize = 0;
    while i < versions.len()
        invariant
            i <= versions.len(),
            rows == versions.deep_view(),
            version_with_id(rows.take(i as int), id) is None,
        decreases versions.len() - i,
    {
        if versions[i].id == id {
            proof {
                assert(rows.take(i + 1).drop_last() =~= rows.take(i as int));
                lemma_version_with_id_extends(rows, i + 1, id);
            }
            return Some(&versions[i]);
        }
        assert(rows.take(i + 1).drop_last() =~= rows.take(i as int));
        i += 1;
    }
    assert(rows.take(versions.len() as int) =~= rows);
    None
}

/// A version found among the first `n` rows is the one found among all.
proof fn lemma_version_with_id_extends(
    versions: Seq<extension_version::ModelView>,
    n: int,
    id: i32,
)
    requires
        0 <= n <= versions.len(),
        version_with_id(versions.take(n), id) is Some,
    ensures
        version_with_id(versions, id) == version_with_id(versions.take(n), id),
    decreases versions.len() - n,
{
    if n < versions.len() {
        assert(versions.take(n + 1).drop_last() =~= versions.take(n));
        lemma_version_with_id_extends(versions, n + 1, id);
    } else {
        assert(versions.take(n) =~= versions);
    }
}

/// `version_with_id` finds the first row with the key and none where no row
/// has it.
pub proof fn lemma_version_with_id_is_first(
    versions: Seq<extension_version::ModelView>,
    id: i32,
)
    ensures
        match version_with_id(versions, id) {
            Some(version) => exists|k: int|
                0 <= k < versions.len() && #[trigger] versions[k] == version && version.id == id
                    && forall|j: int| 0 <= j < k ==> (#[trigger] versions[j]).id != id,
            None => forall|k: int| 0 <= k < versions.len() ==> (#[trigger] versions[k]).id != id,
        },
    decreases versions.len(),
{
    if versions.len() > 0 {
        let front = versions.drop_last();
        lemma_version_with_id_is_first(front, id);
        match version_with_id(front, id) {
            Some(version) => {
                let k = choose|k: int|
                    0 <= k < front.len() && #[trigger] front[k] == version && version.id == id
                        && forall|j: int| 0 <= j < k ==> (#[trigger] front[j]).id != id;
                assert(versions[k] == version);
                assert forall|j: int| 0 <= j < k implies (#[trigger] versions[j]).id != id by {
                    assert(front[j] == versions[j]);
                }
            },
            None => {
                assert forall|j: int| 0 <= j < front.len() implies (#[trigger] versions[j]).id
                    != id by {
                    assert(front[j] == versions[j]);
                }
                if versions.last().id == id {
                    assert(versions[versions.len() - 1] == versions.last());
                }
            },
        }
    }
}

/// The join succeeds exactly where every version that a row names is held
/// by some version row.
pub proof fn lemma_paired_succeeds_iff(
    rows: Seq<extension::ModelView>,
    versions: Seq<extension_version::ModelView>,
)
    ensures
        paired(rows, versions) is Ok <==> versions_cover(rows, versions),
{
    let unmatched = |row: extension::ModelView| is_dangling(row, versions);
    assert forall|i: int| 0 <= i < rows.len() implies (is_dangling(#[trigger] rows[i], versions)
        <==> (rows[i].latest_version is Some && !exists|k: int|
        0 <= k < versions.len() && (#[trigger] versions[k]).id == rows[i].latest_version->0)) by {
        if let Some(id) = rows[i].latest_version {
            lemma_version_with_id_is_first(versions, id);
        }
    }
    if dangling(rows, versions).len() == 0 {
        assert forall|i: int| 0 <= i < rows.len() implies !is_dangling(#[trigger] rows[i],
            versions,
        ) by {
            if is_dangling(rows[i], versions) {
                rows.lemma_filter_contains(unmatched, i);
            }
        }
    } else {
        rows.lemma_filter_pred(unmatched, 0);
        rows.lemma_filter_contains_rev(unmatched, dangling(rows, versions)[0]);
        assert(dangling(rows, versions).contains(dangling(rows, versions)[0]));
    }
}

/// Where the join fails, it names a row of the extensions that names a
/// version which no version row holds.
pub proof fn lemma_paired_fails_on_missing_row(
    rows: Seq<extension::ModelView>,
    versions: Seq<extension_version::ModelView>,
)
    ensures
        paired(rows, versions) matches Err(missing) ==> exists|i: int|
            0 <= i < rows.len() && (#[trigger] rows[i]).id == missing.extension_id
                && rows[i].latest_version == Some(missing.version_id) && forall|k: int|
                0 <= k < versions.len() ==> (#[trigger] versions[k]).id != missing.version_id,
{
    let unmatched = |row: extension::ModelView| is_dangling(row, versions);
    let found = dangling(rows, versions);
    if found.len() > 0 {
        rows.lemma_filter_pred(unmatched, 0);
        assert(found.contains(found[0]));
        rows.lemma_filter_contains_rev(unmatched, found[0]);
        let i = choose|i: int| 0 <= i < rows.len() && rows[i] == found[0];
        lemma_version_with_id_is_first(versions, rows[i].latest_version->0);
    }
}

/// The extensions of a successful join are the rows that name a latest
/// version, each once and in the rows' order. A row that names none is in
/// no pair.
pub proof fn lemma_paired_extensions(
    rows: Seq<extension::ModelView>,
    versions: Seq<extension_version::ModelView>,
)
    ensures
        paired(rows, versions) matches Ok(pairs) ==> extensions_of(pairs) == published(rows),
    decreases rows.len(),
{
    let unmatched = |row: extension::ModelView| is_dangling(row, versions);
    let join = |row: extension::ModelView| pair_of(row, versions);
    let names = |row: extension::ModelView| is_published(row);
    if rows.len() == 0 {
        rows.lemma_filter_len(names);
        assert(extensions_of(rows.filter_map(join)) =~= published(rows));
    } else if dangling(rows, versions).len() == 0 {
        let front = rows.drop_last();
        let last = rows.last();
        assert(rows =~= front.push(last));
        front.lemma_filter_push(last, unmatched);
        front.lemma_filter_push(last, names);
        lemma_paired_extensions(front, versions);
        assert(extensions_of(rows.filter_map(join)) =~= published(rows));
    }
}

/// In a successful join every pair holds an extension and the version that
/// the extension names as its latest.
pub proof fn lemma_paired_versions(
    rows: Seq<extension::ModelView>,
    versions: Seq<extension_version::ModelView>,
)
    ensures
        paired(rows, versions) matches Ok(pairs) ==> forall|i: int|
            0 <= i < pairs.len() ==> (#[trigger] pairs[i]).0.latest_version == Some(pairs[i].1.id)
                && version_with_id(versions, pairs[i].1.id) == Some(pairs[i].1),
{
    let join = |row: extension::ModelView| pair_of(row, versions);
    if let Ok(pairs) = paired(rows, versions) {
        assert forall|i: int| 0 <= i < pairs.len() implies (#[trigger] pairs[i]).0.latest_version
            == Some(pairs[i].1.id) && version_with_id(versions, pairs[i].1.id) == Some(
            pairs[i].1,
        ) by {
            assert(pairs.contains(pairs[i]));
            rows.lemma_filter_map_contains(join, pairs[i]);
            let row = choose|row: extension::ModelView| #[trigger]
                rows.contains(row) && join(row) == Some(pairs[i]);
            lemma_version_with_id_is_first(versions, row.latest_version->0);
        }
    }
}

/// Joins extension rows with the version rows that were fetched for them.
///
/// Each extension that names a latest version is paired with the first
/// version row that has that key; extensions that name none are left out,
/// and the order of the extensions is kept. The join fails at the first
/// extension whose latest version is not among `versions`.
pub fn pair_with_versions(
    extensions: &Vec<extension::Model>,
    versions: &Vec<extension_version::Model>,
) -> (outcome: Result<Vec<(extension::Model, extension_version::Model)>, MissingVersion>)
    ensures
        outcome_view(outcome) == paired(extensions.deep_view(), versions.deep_view()),
        outcome is Ok <==> versions_cover(extensions.deep_view(), versions.deep_view()),
        outcome matches Ok(pairs) ==> {
            let joined = pairs.deep_view();
            &&& extensions_of(joined) == published(extensions.deep_view())
            &&& forall|i: int|
                0 <= i < joined.len() ==> (#[trigger] joined[i]).0.latest_version == Some(
                    joined[i].1.id,
                )
        },
{
    let ghost rows = extensions.deep_view();
    let ghost all = versions.deep_view();
    let ghost unmatched = |row: extension::ModelView| is_dangling(row, all);
    let ghost join = |row: extension::ModelView| pair_of(row, all);
    let mut pairs: Vec<(extension::Model, extension_version::Model)> = Vec::new();
    let mut i: usize = 0;
    proof {
        assert(rows.take(0).filter(unmatched).len() == 0) by {
            rows.take(0).lemma_filter_len(unmatched);
        }
    }
    while i < extensions.len()
        invariant
            i <= extensions.len(),
            rows == extensions.deep_view(),
            all == versions.deep_view(),
            unmatched == |row: extension::ModelView| is_dangling(row, all),
            join == |row: extension::ModelView| pair_of(row, all),
            rows.take(i as int).filter(unmatched).len() == 0,
            pairs.deep_view() == rows.take(i as int).filter_map(join),
        decreases extensions.len() - i,
    {
        let ghost before = rows.take(i as int);
        proof {
            rows.lemma_filter_map_take_succ(join, i as int);
            assert(rows.take(i + 1) =~= before.push(rows[i as int]));
            before.lemma_filter_push(rows[i as int], unmatched);
        }
        if let Some(id) = extensions[i].latest_version {
            match find_version(versions, id) {
                Some(version) => {
                    let ghost joined = pairs.deep_view();
                    pairs.push((extensions[i].clone(), version.clone()));
                    assert(pairs.deep_view() =~= joined + seq![(rows[i as int], version@)]);
                },
                None => {
                    proof {
                        let rest = rows.skip(i + 1);
                        assert(rows =~= before.push(rows[i as int]) + rest);
                        Seq::filter_distributes_over_add(
                            before.push(rows[i as int]),
                            rest,
                            unmatched,
                        );
                        assert(before.push(rows[i as int]).filter(unmatched) =~= seq![
                            rows[i as int],
                        ]);
                        assert(dangling(rows, all)[0] == rows[i as int]);
                        lemma_paired_succeeds_iff(rows, all);
                    }
                    return Err(MissingVersion { extension_id: extensions[i].id, version_id: id });
                },
            }
        }
        i += 1;
    }
    proof {
        assert(rows.take(extensions.len() as int) =~= rows);
        lemma_paired_succeeds_iff(rows, all);
        lemma_paired_extensions(rows, all);
        lemma_paired_versions(rows, all);
    }
    Ok(pairs)
}

} // verus!
