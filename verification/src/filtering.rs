//! Facts about filtered sequences.
use vstd::prelude::*;

use crate::text::{lemma_views_push, views};

verus! {

/// Filtering one item more.
pub proof fn lemma_filter_next<T>(s: Seq<T>, keep: spec_fn(T) -> bool, n: int)
    requires
        0 <= n < s.len(),
    ensures
        s.take(n + 1).filter(keep) == if keep(s[n]) {
            s.take(n).filter(keep).push(s[n])
        } else {
            s.take(n).filter(keep)
        },
{
    reveal(Seq::filter);
    assert(s.take(n + 1).drop_last() =~= s.take(n));
}

/// Filtering by a property of the views filters the views.
pub proof fn lemma_views_filter<T: View>(
    s: Seq<T>,
    keep: spec_fn(T) -> bool,
    keep_view: spec_fn(T::V) -> bool,
)
    requires
        forall|t: T| #[trigger] keep(t) == keep_view(t@),
    ensures
        views(s.filter(keep)) == views(s).filter(keep_view),
    decreases s.len(),
{
    reveal(Seq::filter);
    if s.len() > 0 {
        lemma_views_filter(s.drop_last(), keep, keep_view);
        assert(views(s).drop_last() =~= views(s.drop_last()));
        assert(views(s).last() == s.last()@);
        lemma_views_push(s.drop_last().filter(keep), s.last());
        assert(keep(s.last()) == keep_view(s.last()@));
    } else {
        assert(views(s.filter(keep)) =~= views(s).filter(keep_view));
    }
}

/// What is kept and what is not make up the whole.
pub proof fn lemma_filter_len<T>(s: Seq<T>, p: spec_fn(T) -> bool, q: spec_fn(T) -> bool)
    requires
        forall|t: T| #[trigger] p(t) == !q(t),
    ensures
        s.filter(p).len() + s.filter(q).len() == s.len(),
    decreases s.len(),
{
    reveal(Seq::filter);
    if s.len() > 0 {
        lemma_filter_len(s.drop_last(), p, q);
        assert(p(s.last()) == !q(s.last()));
    }
}

/// What is kept is what is there and passes.
pub proof fn lemma_filter_membership<T>(s: Seq<T>, keep: spec_fn(T) -> bool, x: T)
    ensures
        s.filter(keep).contains(x) <==> s.contains(x) && keep(x),
    decreases s.len(),
{
    reveal(Seq::filter);
    if s.len() > 0 {
        let before = s.drop_last();
        lemma_filter_membership(before, keep, x);
        let kept = before.filter(keep);
        assert(s[s.len() - 1] == s.last());
        if before.contains(x) {
            let k = choose|k: int| 0 <= k < before.len() && before[k] == x;
            assert(s[k] == x);
        }
        if s.contains(x) {
            let k = choose|k: int| 0 <= k < s.len() && s[k] == x;
            if k < before.len() {
                assert(before[k] == x);
            }
        }
        if keep(s.last()) {
            let all = kept.push(s.last());
            assert(s.filter(keep) == all);
            assert(all[kept.len() as int] == s.last());
            if kept.contains(x) {
                let k = choose|k: int| 0 <= k < kept.len() && kept[k] == x;
                assert(all[k] == x);
            }
            if all.contains(x) {
                let k = choose|k: int| 0 <= k < all.len() && all[k] == x;
                if k < kept.len() {
                    assert(kept[k] == x);
                }
            }
        }
    }
}

/// What passes everywhere is kept whole.
pub proof fn lemma_filter_all<T>(s: Seq<T>, keep: spec_fn(T) -> bool)
    requires
        forall|i: int| 0 <= i < s.len() ==> keep(#[trigger] s[i]),
    ensures
        s.filter(keep) == s,
    decreases s.len(),
{
    reveal(Seq::filter);
    if s.len() > 0 {
        let before = s.drop_last();
        assert forall|i: int| 0 <= i < before.len() implies keep(#[trigger] before[i]) by {
            assert(before[i] == s[i]);
        }
        lemma_filter_all(before, keep);
        assert(s.last() == s[s.len() - 1]);
        assert(before.push(s.last()) =~= s);
    } else {
        assert(s.filter(keep) =~= s);
    }
}

/// Filtering adds nothing.
pub proof fn lemma_filter_subset<T>(s: Seq<T>, keep: spec_fn(T) -> bool)
    ensures
        s.filter(keep).len() <= s.len(),
        forall|i: int|
            0 <= i < s.filter(keep).len() ==> s.contains(#[trigger] s.filter(keep)[i]) && keep(
                s.filter(keep)[i],
            ),
    decreases s.len(),
{
    reveal(Seq::filter);
    if s.len() > 0 {
        lemma_filter_subset(s.drop_last(), keep);
    }
    let kept = s.filter(keep);
    assert forall|i: int| 0 <= i < kept.len() implies s.contains(#[trigger] kept[i]) && keep(
        kept[i],
    ) by {
        assert(kept.contains(kept[i]));
        lemma_filter_membership(s, keep, kept[i]);
    }
}

} // verus!
