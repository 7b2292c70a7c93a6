//! Facts about sequences that more than one module uses.

use vstd::prelude::*;

verus! {

/// Filtering one element more keeps that element exactly where it passes.
pub proof fn filter_step<A>(s: Seq<A>, pred: spec_fn(A) -> bool, k: int)
    requires
        0 <= k < s.len(),
    ensures
        s.take(k + 1).filter(pred) == if pred(s[k]) {
            s.take(k).filter(pred).push(s[k])
        } else {
            s.take(k).filter(pred)
        },
{
    assert(s.take(k + 1).drop_last() =~= s.take(k));
    reveal(Seq::filter);
}

/// Filtering nothing gives nothing, and filtering all of a sequence is filtering it.
pub proof fn filter_ends<A>(s: Seq<A>, pred: spec_fn(A) -> bool)
    ensures
        s.take(0).filter(pred) == Seq::<A>::empty(),
        s.take(s.len() as int).filter(pred) == s.filter(pred),
{
    reveal(Seq::filter);
    assert(s.take(0) =~= Seq::<A>::empty());
    assert(s.take(s.len() as int) =~= s);
}

/// What is left after filtering passes, and was there before.
pub proof fn filtered_was_there<A>(s: Seq<A>, pred: spec_fn(A) -> bool, i: int)
    requires
        0 <= i < s.filter(pred).len(),
    ensures
        pred(s.filter(pred)[i]),
        exists|j: int| 0 <= j < s.len() && #[trigger] s[j] == s.filter(pred)[i],
    decreases s.len(),
{
    reveal(Seq::filter);
    if s.len() > 0 {
        let init = s.drop_last();
        if i < init.filter(pred).len() {
            filtered_was_there(init, pred, i);
            let j = choose|j: int| 0 <= j < init.len() && #[trigger] init[j] == init.filter(pred)[i];
            assert(s[j] == init[j]);
        } else {
            assert(s[s.len() - 1] == s.filter(pred)[i]);
        }
    }
}

/// What passes is left after filtering.
pub proof fn passing_is_left<A>(s: Seq<A>, pred: spec_fn(A) -> bool, i: int)
    requires
        0 <= i < s.len(),
        pred(s[i]),
    ensures
        s.filter(pred).contains(s[i]),
    decreases s.len(),
{
    reveal(Seq::filter);
    let init = s.drop_last();
    let left = init.filter(pred);
    if i < init.len() {
        passing_is_left(init, pred, i);
        let j = choose|j: int| 0 <= j < left.len() && left[j] == init[i];
        assert(s.filter(pred)[j] == s[i]);
    } else {
        assert(s.filter(pred)[left.len() as int] == s[i]);
    }
}

/// Filtering keeps the order: where one thing is left in front of another, it stood in
/// front of it before.
pub proof fn filtering_keeps_the_order<A>(s: Seq<A>, pred: spec_fn(A) -> bool, i: int, j: int)
    requires
        0 <= i < j < s.filter(pred).len(),
    ensures
        exists|a: int, b: int|
            0 <= a < b < s.len() && #[trigger] s[a] == s.filter(pred)[i] && #[trigger] s[b]
                == s.filter(pred)[j],
    decreases s.len(),
{
    reveal(Seq::filter);
    let init = s.drop_last();
    if j < init.filter(pred).len() {
        filtering_keeps_the_order(init, pred, i, j);
        let (a, b) = choose|a: int, b: int|
            0 <= a < b < init.len() && #[trigger] init[a] == init.filter(pred)[i]
                && #[trigger] init[b] == init.filter(pred)[j];
        assert(s[a] == init[a] && s[b] == init[b]);
        assert(s.filter(pred)[i] == init.filter(pred)[i]);
        assert(s.filter(pred)[j] == init.filter(pred)[j]);
        assert(s[a] == s.filter(pred)[i] && s[b] == s.filter(pred)[j]);
    } else {
        filtered_was_there(init, pred, i);
        let a = choose|a: int| 0 <= a < init.len() && #[trigger] init[a] == init.filter(pred)[i];
        let b = s.len() - 1;
        assert(s[a] == init[a]);
        assert(s.filter(pred)[i] == init.filter(pred)[i]);
        assert(s[b] == s.filter(pred)[j]);
    }
}

} // verus!
