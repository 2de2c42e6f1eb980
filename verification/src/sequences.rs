//! Facts about filtered sequences that the lookup's proofs share.

use vstd::prelude::*;

verus! {

/// Two predicates that agree on every element of a sequence filter it alike.
pub proof fn lemma_filter_agrees<A>(s: Seq<A>, p: spec_fn(A) -> bool, q: spec_fn(A) -> bool)
    requires
        forall|i: int| 0 <= i < s.len() ==> p(#[trigger] s[i]) == q(s[i]),
    ensures
        s.filter(p) == s.filter(q),
    decreases s.len(),
{
    reveal(Seq::filter);
    if s.len() > 0 {
        let front = s.drop_last();
        assert forall|i: int| 0 <= i < front.len() implies p(#[trigger] front[i]) == q(
            front[i],
        ) by {
            assert(front[i] == s[i]);
        }
        lemma_filter_agrees(front, p, q);
        assert(p(s[s.len() - 1]) == q(s[s.len() - 1]));
    }
}

/// Two partial maps that agree on every element of a sequence map it alike.
pub proof fn lemma_filter_map_agrees<A, B>(
    s: Seq<A>,
    f: spec_fn(A) -> Option<B>,
    g: spec_fn(A) -> Option<B>,
)
    requires
        forall|i: int| 0 <= i < s.len() ==> f(#[trigger] s[i]) == g(s[i]),
    ensures
        s.filter_map(f) == s.filter_map(g),
    decreases s.len(),
{
    if s.len() > 0 {
        let front = s.drop_last();
        assert forall|i: int| 0 <= i < front.len() implies f(#[trigger] front[i]) == g(
            front[i],
        ) by {
            assert(front[i] == s[i]);
        }
        lemma_filter_map_agrees(front, f, g);
        assert(f(s[s.len() - 1]) == g(s[s.len() - 1]));
    }
}

/// A filter that no element of a sequence passes keeps nothing of it.
pub proof fn lemma_filter_keeps_nothing<A>(s: Seq<A>, p: spec_fn(A) -> bool)
    requires
        forall|i: int| 0 <= i < s.len() ==> !p(#[trigger] s[i]),
    ensures
        s.filter(p).len() == 0,
{
    let kept = s.filter(p);
    if kept.len() > 0 {
        s.lemma_filter_pred(p, 0);
        assert(kept.contains(kept[0]));
        s.lemma_filter_contains_rev(p, kept[0]);
    }
}

/// Filtering a sequence into which an element was inserted: the element is
/// dropped, or it stands in the filtered sequence behind what was kept of
/// the elements before it.
pub proof fn lemma_filter_insert<A>(s: Seq<A>, at: int, a: A, p: spec_fn(A) -> bool)
    requires
        0 <= at <= s.len(),
    ensures
        0 <= s.take(at).filter(p).len() <= s.filter(p).len(),
        s.insert(at, a).filter(p) == if p(a) {
            s.filter(p).insert(s.take(at).filter(p).len() as int, a)
        } else {
            s.filter(p)
        },
{
    let head = s.take(at);
    let tail = s.skip(at);
    assert(s =~= head + tail);
    assert(s.insert(at, a) =~= head.push(a) + tail);
    Seq::filter_distributes_over_add(head, tail, p);
    Seq::filter_distributes_over_add(head.push(a), tail, p);
    head.lemma_filter_push(a, p);
    let kept = head.filter(p);
    if p(a) {
        assert(kept.push(a) + tail.filter(p) =~= (kept + tail.filter(p)).insert(
            kept.len() as int,
            a,
        ));
    }
}

} // verus!
