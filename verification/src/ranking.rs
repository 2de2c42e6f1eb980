//! Ordering of extension rows by popularity.

use crate::extension::{Model, ModelView};
use crate::sequences::{lemma_filter_insert, lemma_filter_keeps_nothing};
use vstd::prelude::*;

verus! {

/// Whether the rows stand in order of popularity: no row has more downloads
/// than a row before it.
pub open spec fn is_ranked(rows: Seq<ModelView>) -> bool {
    forall|i: int, j: int|
        0 <= i < j < rows.len() ==> rows[i].total_download_count >= rows[j].total_download_count
}

/// The place in `ranked` of the first row with fewer than `count` downloads,
/// or the length of `ranked` where there is none.
pub open spec fn rank_of(ranked: Seq<ModelView>, count: i64) -> int
    decreases ranked.len(),
{
    if ranked.len() == 0 || ranked[0].total_download_count < count {
        0
    } else {
        1 + rank_of(ranked.skip(1), count)
    }
}

/// The rows in order of popularity, most downloaded first. Rows with the
/// same number of downloads keep the order in which they were given: each
/// row is placed behind every earlier row with at least as many downloads.
pub open spec fn ranked(rows: Seq<ModelView>) -> Seq<ModelView>
    decreases rows.len(),
{
    if rows.len() == 0 {
        Seq::empty()
    } else {
        let before = ranked(rows.drop_last());
        before.insert(rank_of(before, rows.last().total_download_count), rows.last())
    }
}

/// `rank_of` names a place in the sequence. Every row before it has at least
/// `count` downloads; in a ranked sequence every row from it on has fewer.
pub proof fn lemma_rank_of_divides(rows: Seq<ModelView>, count: i64)
    ensures
        0 <= rank_of(rows, count) <= rows.len(),
        forall|i: int|
            0 <= i < rank_of(rows, count) ==> (#[trigger] rows[i]).total_download_count >= count,
        is_ranked(rows) ==> forall|i: int|
            rank_of(rows, count) <= i < rows.len() ==> (#[trigger] rows[i]).total_download_count
                < count,
    decreases rows.len(),
{
    if rows.len() == 0 || rows[0].total_download_count < count {
    } else {
        let tail = rows.skip(1);
        lemma_rank_of_divides(tail, count);
        assert forall|i: int| 0 <= i < rank_of(rows, count) implies
            (#[trigger] rows[i]).total_download_count >= count by {
            if i > 0 {
                assert(rows[i] == tail[i - 1]);
            }
        }
        if is_ranked(rows) {
            assert(is_ranked(tail)) by {
                assert forall|i: int, j: int| 0 <= i < j < tail.len() implies
                    tail[i].total_download_count >= tail[j].total_download_count by {
                    assert(tail[i] == rows[i + 1] && tail[j] == rows[j + 1]);
                }
            }
            assert forall|i: int| rank_of(rows, count) <= i < rows.len() implies
                (#[trigger] rows[i]).total_download_count < count by {
                assert(rows[i] == tail[i - 1]);
            }
        }
    }
}

/// Ranking keeps every row: the result has the length of what was given.
pub proof fn lemma_ranked_len(rows: Seq<ModelView>)
    ensures
        ranked(rows).len() == rows.len(),
    decreases rows.len(),
{
    if rows.len() > 0 {
        let before = ranked(rows.drop_last());
        lemma_ranked_len(rows.drop_last());
        lemma_rank_of_divides(before, rows.last().total_download_count);
    }
}

/// The rows come out of ranking in order of popularity.
pub proof fn lemma_ranked_is_ranked(rows: Seq<ModelView>)
    ensures
        is_ranked(ranked(rows)),
    decreases rows.len(),
{
    if rows.len() > 0 {
        let before = ranked(rows.drop_last());
        let row = rows.last();
        let at = rank_of(before, row.total_download_count);
        let after = before.insert(at, row);
        lemma_ranked_is_ranked(rows.drop_last());
        lemma_rank_of_divides(before, row.total_download_count);
        assert forall|i: int, j: int| 0 <= i < j < after.len() implies after[i].total_download_count
            >= after[j].total_download_count by {
            let bi = if i < at {
                i
            } else {
                i - 1
            };
            let bj = if j < at {
                j
            } else {
                j - 1
            };
            if i != at {
                assert(after[i] == before[bi]);
            }
            if j != at {
                assert(after[j] == before[bj]);
            }
        }
    }
}

/// Ranking only reorders: every row comes out as often as it went in.
pub proof fn lemma_ranked_permutes(rows: Seq<ModelView>)
    ensures
        ranked(rows).to_multiset() == rows.to_multiset(),
    decreases rows.len(),
{
    if rows.len() == 0 {
        assert(rows =~= Seq::<ModelView>::empty());
    } else {
        let before = ranked(rows.drop_last());
        let row = rows.last();
        lemma_ranked_permutes(rows.drop_last());
        lemma_rank_of_divides(before, row.total_download_count);
        vstd::seq_lib::to_multiset_insert(before, rank_of(before, row.total_download_count), row);
        vstd::seq_lib::to_multiset_build(rows.drop_last(), row);
        assert(rows.drop_last().push(row) =~= rows);
    }
}

/// Rows with the same number of downloads come out of ranking in the order
/// in which they were given.
pub proof fn lemma_ranked_keeps_order_of_ties(rows: Seq<ModelView>, count: i64)
    ensures
        ranked(rows).filter(|row: ModelView| row.total_download_count == count) == rows.filter(
            |row: ModelView| row.total_download_count == count,
        ),
    decreases rows.len(),
{
    let tied = |row: ModelView| row.total_download_count == count;
    if rows.len() == 0 {
        assert(ranked(rows) =~= rows);
    } else {
        let front = rows.drop_last();
        let row = rows.last();
        let before = ranked(front);
        let at = rank_of(before, row.total_download_count);
        lemma_ranked_keeps_order_of_ties(front, count);
        lemma_ranked_is_ranked(front);
        lemma_rank_of_divides(before, row.total_download_count);
        lemma_filter_insert(before, at, row, tied);
        assert(rows =~= front.push(row));
        front.lemma_filter_push(row, tied);
        if tied(row) {
            let behind = before.skip(at);
            assert forall|i: int| 0 <= i < behind.len() implies !tied(#[trigger] behind[i]) by {
                assert(behind[i] == before[at + i]);
            }
            lemma_filter_keeps_nothing(behind, tied);
            assert(before =~= before.take(at) + behind);
            Seq::filter_distributes_over_add(before.take(at), behind, tied);
            assert(before.filter(tied).insert(before.filter(tied).len() as int, row)
                =~= before.filter(tied).push(row));
        }
    }
}

/// A row is among the ranked rows exactly if it is among the rows given.
pub proof fn lemma_ranked_holds_same_rows(rows: Seq<ModelView>, row: ModelView)
    ensures
        ranked(rows).contains(row) <==> rows.contains(row),
{
    lemma_ranked_permutes(rows);
    vstd::seq_lib::to_multiset_contains(ranked(rows), row);
    vstd::seq_lib::to_multiset_contains(rows, row);
}

/// What is kept of a ranked sequence by a filter is ranked.
pub proof fn lemma_filter_keeps_ranking(rows: Seq<ModelView>, p: spec_fn(ModelView) -> bool)
    requires
        is_ranked(rows),
    ensures
        is_ranked(rows.filter(p)),
    decreases rows.len(),
{
    if rows.len() == 0 {
        rows.lemma_filter_len(p);
    } else {
        let front = rows.drop_last();
        let kept = front.filter(p);
        assert(rows =~= front.push(rows.last()));
        front.lemma_filter_push(rows.last(), p);
        assert(is_ranked(front)) by {
            assert forall|i: int, j: int| 0 <= i < j < front.len() implies
                front[i].total_download_count >= front[j].total_download_count by {
                assert(front[i] == rows[i] && front[j] == rows[j]);
            }
        }
        lemma_filter_keeps_ranking(front, p);
        assert forall|i: int| 0 <= i < kept.len() implies (#[trigger] kept[i]).total_download_count
            >= rows.last().total_download_count by {
            assert(kept.contains(kept[i]));
            front.lemma_filter_contains_rev(p, kept[i]);
            let k = choose|k: int| 0 <= k < front.len() && front[k] == kept[i];
            assert(front[k] == rows[k]);
        }
    }
}

/// A filter keeps of the ranked rows what it keeps of the rows as given,
/// each row as often.
pub proof fn lemma_ranked_filter_permutes(rows: Seq<ModelView>, p: spec_fn(ModelView) -> bool)
    ensures
        ranked(rows).filter(p).to_multiset() == rows.filter(p).to_multiset(),
    decreases rows.len(),
{
    if rows.len() == 0 {
        assert(ranked(rows) =~= rows);
    } else {
        let front = rows.drop_last();
        let row = rows.last();
        let before = ranked(front);
        let at = rank_of(before, row.total_download_count);
        lemma_ranked_filter_permutes(front, p);
        lemma_rank_of_divides(before, row.total_download_count);
        lemma_filter_insert(before, at, row, p);
        assert(rows =~= front.push(row));
        front.lemma_filter_push(row, p);
        if p(row) {
            vstd::seq_lib::to_multiset_insert(
                before.filter(p),
                before.take(at).filter(p).len() as int,
                row,
            );
            vstd::seq_lib::to_multiset_build(front.filter(p), row);
        }
    }
}

/// The place at which a row with `count` downloads is put into `ranked`.
fn rank_position(ranked: &Vec<Model>, count: i64) -> (at: usize)
    ensures
        at == rank_of(ranked.deep_view(), count),
        at <= ranked.len(),
{
    let ghost rows = ranked.deep_view();
    let mut at: usize = 0;
    assert(rows.skip(0) =~= rows);
    while at < ranked.len() && ranked[at].total_download_count >= count
        invariant
            rows == ranked.deep_view(),
            at <= ranked.len(),
            rank_of(rows, count) == at + rank_of(rows.skip(at as int), count),
        decreases ranked.len() - at,
    {
        proof {
            let rest = rows.skip(at as int);
            assert(rest.len() > 0 && rest[0] == ranked[at as int]@);
            assert(rest.skip(1) =~= rows.skip(at + 1));
        }
        at += 1;
    }
    proof {
        let rest = rows.skip(at as int);
        if at < ranked.len() {
            assert(rest[0] == ranked[at as int]@);
        }
    }
    at
}

/// Puts the rows in order of popularity, most downloaded first; rows with
/// the same number of downloads keep their order.
pub fn rank_by_popularity(rows: &Vec<Model>) -> (out: Vec<Model>)
    ensures
        out.deep_view() == ranked(rows.deep_view()),
        is_ranked(out.deep_view()),
        out.deep_view().to_multiset() == rows.deep_view().to_multiset(),
{
    proof {
        lemma_ranked_is_ranked(rows.deep_view());
        lemma_ranked_permutes(rows.deep_view());
    }
    let mut out: Vec<Model> = Vec::new();
    let mut i: usize = 0;
    assert(rows.deep_view().take(0) =~= Seq::<ModelView>::empty());
    while i < rows.len()
        invariant
            i <= rows.len(),
            out.deep_view() == ranked(rows.deep_view().take(i as int)),
        decreases rows.len() - i,
    {
        let row = rows[i].clone();
        let at = rank_position(&out, row.total_download_count);
        let ghost before = out.deep_view();
        out.insert(at, row);
        proof {
            let given = rows.deep_view().take(i + 1);
            assert(given.drop_last() =~= rows.deep_view().take(i as int));
            assert(given.last() == rows[i as int]@);
            assert(out.deep_view() =~= before.insert(at as int, rows[i as int]@));
        }
        i += 1;
    }
    assert(rows.deep_view().take(rows.len() as int) =~= rows.deep_view());
    out
}

} // verus!
