//! Sums of weights, the weighted round-robin pick and the first minimum of
//! a sequence of keys.
use vstd::prelude::*;

verus! {

/// The sum of `ws`.
pub open spec fn weight_sum(ws: Seq<int>) -> int
    decreases ws.len(),
{
    if ws.len() == 0 {
        0
    } else {
        weight_sum(ws.drop_last()) + ws.last()
    }
}

/// No weight is negative.
pub open spec fn nonneg(ws: Seq<int>) -> bool {
    forall|i: int| 0 <= i < ws.len() ==> 0 <= #[trigger] ws[i]
}

/// The first index `j >= i` at which the running sum of `ws` exceeds
/// `pos`, or `0` where there is none.
pub open spec fn pick_from(ws: Seq<int>, pos: int, i: int) -> int
    decreases ws.len() - i,
{
    if i < 0 || i >= ws.len() {
        0
    } else if pos < weight_sum(ws.take(i + 1)) {
        i
    } else {
        pick_from(ws, pos, i + 1)
    }
}

/// The server that weighted round robin hands out at position `pos` of a
/// cycle: the first one whose running weight sum exceeds `pos`.
pub open spec fn weighted_pick(ws: Seq<int>, pos: int) -> int {
    pick_from(ws, pos, 0)
}

/// Adding one more weight to a prefix.
pub proof fn lemma_sum_take_step(ws: Seq<int>, i: int)
    requires
        0 <= i < ws.len(),
    ensures
        weight_sum(ws.take(i + 1)) == weight_sum(ws.take(i)) + ws[i],
{
    assert(ws.take(i + 1).drop_last() =~= ws.take(i));
}

/// Sums of prefixes grow with the prefix.
pub proof fn lemma_sum_take_mono(ws: Seq<int>, i: int, j: int)
    requires
        nonneg(ws),
        0 <= i <= j <= ws.len(),
    ensures
        weight_sum(ws.take(i)) <= weight_sum(ws.take(j)),
    decreases j - i,
{
    if i < j {
        lemma_sum_take_step(ws, j - 1);
        lemma_sum_take_mono(ws, i, j - 1);
    }
}

/// Appending a weight adds it to the sum.
pub proof fn lemma_sum_push(ws: Seq<int>, x: int)
    ensures
        weight_sum(ws.push(x)) == weight_sum(ws) + x,
{
    assert(ws.push(x).drop_last() =~= ws);
}

/// The sum is the first weight plus the sum of the rest.
pub proof fn lemma_sum_front(ws: Seq<int>)
    requires
        ws.len() > 0,
    ensures
        weight_sum(ws) == ws[0] + weight_sum(ws.drop_first()),
    decreases ws.len(),
{
    if ws.len() == 1 {
        assert(ws.drop_first() =~= Seq::<int>::empty());
        assert(ws.drop_last() =~= Seq::<int>::empty());
        assert(weight_sum(Seq::<int>::empty()) == 0);
    } else {
        lemma_sum_front(ws.drop_last());
        assert(ws.drop_last().drop_first() =~= ws.drop_first().drop_last());
        assert(ws.drop_first().last() == ws.last());
    }
}

/// Moving the first weight to the end keeps the sum.
pub proof fn lemma_sum_rotate(ws: Seq<int>)
    requires
        ws.len() > 0,
    ensures
        weight_sum(ws.drop_first().push(ws[0])) == weight_sum(ws),
{
    lemma_sum_push(ws.drop_first(), ws[0]);
    lemma_sum_front(ws);
}

/// A sum of weights is never negative.
pub proof fn lemma_sum_nonneg(ws: Seq<int>)
    requires
        nonneg(ws),
    ensures
        weight_sum(ws) >= 0,
{
    lemma_sum_take_mono(ws, 0, ws.len() as int);
    lemma_sum_take_all(ws);
    assert(ws.take(0) =~= Seq::<int>::empty());
    assert(weight_sum(Seq::<int>::empty()) == 0);
}

/// The whole sequence is its longest prefix.
pub proof fn lemma_sum_take_all(ws: Seq<int>)
    ensures
        weight_sum(ws.take(ws.len() as int)) == weight_sum(ws),
{
    assert(ws.take(ws.len() as int) =~= ws);
}

/// The pick from `i` on, where no earlier running sum exceeds `pos`,
/// falls in the interval of `pos`.
proof fn lemma_pick_from_interval(ws: Seq<int>, pos: int, i: int)
    requires
        nonneg(ws),
        0 <= i < ws.len(),
        weight_sum(ws.take(i)) <= pos < weight_sum(ws),
    ensures
        i <= pick_from(ws, pos, i) < ws.len(),
        weight_sum(ws.take(pick_from(ws, pos, i))) <= pos < weight_sum(
            ws.take(pick_from(ws, pos, i) + 1),
        ),
    decreases ws.len() - i,
{
    if pos >= weight_sum(ws.take(i + 1)) {
        if i + 1 == ws.len() {
            lemma_sum_take_all(ws);
        } else {
            lemma_pick_from_interval(ws, pos, i + 1);
        }
    }
}

/// Every position of a cycle falls into the interval of the server that
/// weighted round robin picks for it.
pub proof fn lemma_pick_interval(ws: Seq<int>, pos: int)
    requires
        nonneg(ws),
        0 <= pos < weight_sum(ws),
    ensures
        0 <= weighted_pick(ws, pos) < ws.len(),
        weight_sum(ws.take(weighted_pick(ws, pos))) <= pos < weight_sum(
            ws.take(weighted_pick(ws, pos) + 1),
        ),
{
    if ws.len() == 0 {
        assert(weight_sum(ws) == 0);
    }
    assert(ws.take(0) =~= Seq::<int>::empty());
    assert(weight_sum(Seq::<int>::empty()) == 0);
    lemma_pick_from_interval(ws, pos, 0);
}

/// A position picks server `i` exactly when it falls into the interval of
/// `i`: the running weight sum before `i`, up to that sum plus `ws[i]`.
pub proof fn lemma_pick_iff_interval(ws: Seq<int>, pos: int, i: int)
    requires
        nonneg(ws),
        0 <= pos < weight_sum(ws),
        0 <= i < ws.len(),
    ensures
        weighted_pick(ws, pos) == i <==> weight_sum(ws.take(i)) <= pos < weight_sum(ws.take(i))
            + ws[i],
{
    lemma_pick_interval(ws, pos);
    let p = weighted_pick(ws, pos);
    lemma_sum_take_step(ws, i);
    lemma_sum_take_step(ws, p);
    if p < i {
        lemma_sum_take_mono(ws, p + 1, i);
    } else if i < p {
        lemma_sum_take_mono(ws, i + 1, p);
    }
}

/// The index of the first smallest key, or `0` where there is none.
pub open spec fn first_min(keys: Seq<int>) -> int
    decreases keys.len(),
{
    if keys.len() <= 1 {
        0
    } else {
        let r = first_min(keys.drop_last());
        if keys.last() < keys[r] {
            keys.len() - 1
        } else {
            r
        }
    }
}

/// `first_min` is the index of a smallest key, and no earlier key is as
/// small.
pub proof fn lemma_first_min(keys: Seq<int>)
    requires
        keys.len() > 0,
    ensures
        0 <= first_min(keys) < keys.len(),
        forall|j: int| 0 <= j < keys.len() ==> keys[first_min(keys)] <= #[trigger] keys[j],
        forall|j: int| 0 <= j < first_min(keys) ==> keys[first_min(keys)] < #[trigger] keys[j],
    decreases keys.len(),
{
    if keys.len() > 1 {
        let p = keys.drop_last();
        lemma_first_min(p);
        let r = first_min(p);
        let m = first_min(keys);
        let n = keys.len() - 1;
        assert(p[r] == keys[r]);
        assert forall|j: int| 0 <= j < keys.len() implies keys[m] <= #[trigger] keys[j] by {
            if j < n {
                assert(p[j] == keys[j]);
            }
        }
        assert forall|j: int| 0 <= j < m implies keys[m] < #[trigger] keys[j] by {
            if j < n {
                assert(p[j] == keys[j]);
            }
        }
    }
}

/// Extending a prefix by one key.
pub proof fn lemma_first_min_step(keys: Seq<int>, i: int)
    requires
        1 <= i < keys.len(),
    ensures
        first_min(keys.take(i + 1)) == if keys[i] < keys[first_min(keys.take(i))] {
            i
        } else {
            first_min(keys.take(i))
        },
{
    assert(keys.take(i + 1).drop_last() =~= keys.take(i));
    lemma_first_min(keys.take(i));
    assert(keys.take(i)[first_min(keys.take(i))] == keys[first_min(keys.take(i))]);
}

} // verus!
