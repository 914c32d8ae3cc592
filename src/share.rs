use vstd::prelude::*;

verus! {

/// Item `i` comes before item `j` when sorting (lines, total) pairs by their share: a larger
/// share first (a smaller one first when `reverse`), equal shares in their given order.
pub open spec fn share_before(items: Seq<(usize, usize)>, reverse: bool, i: int, j: int) -> bool {
    let x = items[i].0 * items[j].1;
    let y = items[j].0 * items[i].1;
    if x == y {
        i < j
    } else if reverse {
        x < y
    } else {
        x > y
    }
}

/// Item `i` is listed: `all` is set or it has lines.
pub open spec fn share_shown(items: Seq<(usize, usize)>, all: bool, i: int) -> bool {
    all || items[i].0 > 0
}

proof fn lemma_cross_order(la: int, ta: int, lb: int, tb: int, lc: int, tc: int)
    requires
        ta > 0,
        tb > 0,
        tc > 0,
        la >= 0,
        lb >= 0,
        lc >= 0,
    ensures
        la * tb > lb * ta && lb * tc >= lc * tb ==> la * tc > lc * ta,
        la * tb >= lb * ta && lb * tc > lc * tb ==> la * tc > lc * ta,
        la * tb == lb * ta && lb * tc == lc * tb ==> la * tc == lc * ta,
{
    assert(la * tb > lb * ta && lb * tc >= lc * tb ==> la * tc > lc * ta) by (nonlinear_arith)
        requires
            ta > 0,
            tb > 0,
            tc > 0,
    {
        if la * tb > lb * ta && lb * tc >= lc * tb {
            assert(la * tb * tc > lb * ta * tc);
            assert(lb * tc * ta >= lc * tb * ta);
            assert((la * tc) * tb > (lc * ta) * tb);
        }
    }
    assert(la * tb >= lb * ta && lb * tc > lc * tb ==> la * tc > lc * ta) by (nonlinear_arith)
        requires
            ta > 0,
            tb > 0,
            tc > 0,
    {
        if la * tb >= lb * ta && lb * tc > lc * tb {
            assert(la * tb * tc >= lb * ta * tc);
            assert(lb * tc * ta > lc * tb * ta);
            assert((la * tc) * tb > (lc * ta) * tb);
        }
    }
    assert(la * tb == lb * ta && lb * tc == lc * tb ==> la * tc == lc * ta) by (nonlinear_arith)
        requires
            ta > 0,
            tb > 0,
            tc > 0,
    {
        if la * tb == lb * ta && lb * tc == lc * tb {
            assert(la * tb * tc == lb * ta * tc);
            assert(lb * tc * ta == lc * tb * ta);
            assert((la * tc) * tb == (lc * ta) * tb);
        }
    }
}

proof fn lemma_share_transitive(items: Seq<(usize, usize)>, reverse: bool, i: int, j: int, k: int)
    requires
        forall|m: int| 0 <= m < items.len() ==> (#[trigger] items[m]).1 > 0,
        0 <= i < items.len(),
        0 <= j < items.len(),
        0 <= k < items.len(),
        share_before(items, reverse, i, j),
        share_before(items, reverse, j, k),
    ensures
        share_before(items, reverse, i, k),
{
    let (la, ta) = (items[i].0 as int, items[i].1 as int);
    let (lb, tb) = (items[j].0 as int, items[j].1 as int);
    let (lc, tc) = (items[k].0 as int, items[k].1 as int);
    lemma_cross_order(la, ta, lb, tb, lc, tc);
    lemma_cross_order(lc, tc, lb, tb, la, ta);
    if la * tc == lc * ta {
        // equal shares at both ends force equal shares throughout
        if la * tb != lb * ta {
            lemma_cross_order(lb, tb, la, ta, lc, tc);
            lemma_cross_order(lb, tb, lc, tc, la, ta);
            lemma_cross_order(la, ta, lc, tc, lb, tb);
            lemma_cross_order(lc, tc, la, ta, lb, tb);
        }
        if lb * tc != lc * tb {
            lemma_cross_order(lb, tb, la, ta, lc, tc);
            lemma_cross_order(lb, tb, lc, tc, la, ta);
            lemma_cross_order(la, ta, lc, tc, lb, tb);
            lemma_cross_order(lc, tc, la, ta, lb, tb);
        }
    }
}

proof fn lemma_share_total(items: Seq<(usize, usize)>, reverse: bool, i: int, j: int)
    requires
        0 <= i < items.len(),
        0 <= j < items.len(),
        i != j,
    ensures
        share_before(items, reverse, i, j) || share_before(items, reverse, j, i),
{
}


fn before(items: &Vec<(usize, usize)>, reverse: bool, i: usize, j: usize) -> (r: bool)
    requires
        i < items@.len(),
        j < items@.len(),
    ensures
        r == share_before(items@, reverse, i as int, j as int),
{
    let (la, ta) = items[i];
    let (lb, tb) = items[j];
    proof {
        assert((la as int) * (tb as int) <= u128::MAX) by (nonlinear_arith)
            requires
                la <= u64::MAX,
                tb <= u64::MAX,
        ;
        assert((lb as int) * (ta as int) <= u128::MAX) by (nonlinear_arith)
            requires
                lb <= u64::MAX,
                ta <= u64::MAX,
        ;
    }
    let x: u128 = la as u128 * tb as u128;
    let y: u128 = lb as u128 * ta as u128;
    if x == y {
        i < j
    } else if reverse {
        x < y
    } else {
        x > y
    }
}

/// The positions of the items to list (all of them, or those with lines), ordered by share:
/// the largest share first (the smallest first when `reverse`), equal shares in their given
/// order. Every total must be positive.
pub fn rank_by_share(items: &Vec<(usize, usize)>, all: bool, reverse: bool) -> (r: Vec<usize>)
    requires
        forall|m: int| 0 <= m < items@.len() ==> (#[trigger] items@[m]).1 > 0,
    ensures
        forall|k: int|
            0 <= k < r@.len() ==> r@[k] < items@.len() && share_shown(items@, all, #[trigger] r@[k] as int),
        forall|i: int| 0 <= i < items@.len() && share_shown(items@, all, i) ==> r@.contains(i as usize),
        forall|k: int, l: int|
            0 <= k < l < r@.len() ==> share_before(items@, reverse, r@[k] as int, r@[l] as int),
{
    let ghost it = items@;
    let mut rest: Vec<usize> = Vec::new();
    let mut i: usize = 0;
    while i < items.len()
        invariant
            it == items@,
            i <= it.len(),
            forall|k: int| 0 <= k < rest@.len() ==> rest@[k] < i && share_shown(it, all, #[trigger] rest@[k] as int),
            forall|a: int, b: int| 0 <= a < b < rest@.len() ==> rest@[a] < rest@[b],
            forall|m: int| 0 <= m < i && share_shown(it, all, m) ==> rest@.contains(m as usize),
        decreases it.len() - i,
    {
        if all || items[i].0 > 0 {
            let ghost r0 = rest@;
            rest.push(i);
            proof {
                assert forall|m: int| 0 <= m < i + 1 && share_shown(it, all, m) implies rest@.contains(m as usize) by {
                    if m < i {
                        let k = choose|k: int| 0 <= k < r0.len() && r0[k] == m as usize;
                        assert(rest@[k] == m as usize);
                    } else {
                        assert(rest@[r0.len() as int] == m as usize);
                    }
                }
            }
        }
        i = i + 1;
    }
    let mut out: Vec<usize> = Vec::new();
    while rest.len() > 0
        invariant
            it == items@,
            forall|m: int| 0 <= m < it.len() ==> (#[trigger] it[m]).1 > 0,
            forall|k: int| 0 <= k < rest@.len() ==> rest@[k] < it.len() && share_shown(it, all, #[trigger] rest@[k] as int),
            forall|k: int| 0 <= k < out@.len() ==> out@[k] < it.len() && share_shown(it, all, #[trigger] out@[k] as int),
            forall|a: int, b: int| 0 <= a < rest@.len() && 0 <= b < rest@.len() && a != b ==> rest@[a] != rest@[b],
            forall|m: int| 0 <= m < it.len() && share_shown(it, all, m) ==> rest@.contains(m as usize) || out@.contains(m as usize),
            forall|k: int, l: int| 0 <= k < l < out@.len() ==> share_before(it, reverse, out@[k] as int, out@[l] as int),
            forall|k: int, l: int|
                0 <= k < out@.len() && 0 <= l < rest@.len() ==> share_before(it, reverse, #[trigger] out@[k] as int, #[trigger] rest@[l] as int),
        decreases rest@.len(),
    {
        let mut best: usize = 0;
        let mut j: usize = 1;
        while j < rest.len()
            invariant
                it == items@,
                forall|m: int| 0 <= m < it.len() ==> (#[trigger] it[m]).1 > 0,
                forall|k: int| 0 <= k < rest@.len() ==> rest@[k] < it.len(),
                forall|a: int, b: int| 0 <= a < rest@.len() && 0 <= b < rest@.len() && a != b ==> rest@[a] != rest@[b],
                1 <= j <= rest@.len(),
                best < j,
                forall|m: int| 0 <= m < j && m != best ==> share_before(it, reverse, rest@[best as int] as int, #[trigger] rest@[m] as int),
            decreases rest@.len() - j,
        {
            let ghost old_best = best;
            if before(items, reverse, rest[j], rest[best]) {
                best = j;
                proof {
                    assert forall|m: int| 0 <= m < j + 1 && m != best implies share_before(
                        it,
                        reverse,
                        rest@[best as int] as int,
                        #[trigger] rest@[m] as int,
                    ) by {
                        if m != old_best {
                            lemma_share_transitive(it, reverse, rest@[best as int] as int, rest@[old_best as int] as int, rest@[m] as int);
                        }
                    }
                }
            } else {
                proof {
                    lemma_share_total(it, reverse, rest@[j as int] as int, rest@[best as int] as int);
                }
            }
            j = j + 1;
        }
        let ghost r0 = rest@;
        let ghost o0 = out@;
        let x = rest.remove(best);
        out.push(x);
        proof {
            assert(out@.drop_last() == o0);
            assert forall|k: int, l: int| 0 <= k < l < out@.len() implies share_before(it, reverse, out@[k] as int, out@[l] as int) by {
                if l == o0.len() {
                    assert(out@[k] == o0[k]);
                    assert(out@[l] == r0[best as int]);
                } else {
                    assert(out@[k] == o0[k]);
                    assert(out@[l] == o0[l]);
                }
            }
            assert forall|k: int, l: int|
                0 <= k < out@.len() && 0 <= l < rest@.len() implies share_before(it, reverse, #[trigger] out@[k] as int, #[trigger] rest@[l] as int) by {
                let l0 = if l < best { l } else { l + 1 };
                assert(rest@[l] == r0[l0]);
                if k < o0.len() {
                    assert(out@[k] == o0[k]);
                } else {
                    assert(out@[k] == r0[best as int]);
                    assert(l0 != best);
                }
            }
            assert forall|a: int, b: int| 0 <= a < rest@.len() && 0 <= b < rest@.len() && a != b implies rest@[a] != rest@[b] by {
                let a0 = if a < best { a } else { a + 1 };
                let b0 = if b < best { b } else { b + 1 };
                assert(rest@[a] == r0[a0]);
                assert(rest@[b] == r0[b0]);
            }
            assert forall|m: int| 0 <= m < it.len() && share_shown(it, all, m) implies rest@.contains(m as usize) || out@.contains(m as usize) by {
                if r0.contains(m as usize) {
                    let k = choose|k: int| 0 <= k < r0.len() && r0[k] == m as usize;
                    if k < best {
                        assert(rest@[k] == m as usize);
                    } else if k > best {
                        assert(rest@[k - 1] == m as usize);
                    } else {
                        assert(out@[o0.len() as int] == m as usize);
                    }
                } else {
                    let k = choose|k: int| 0 <= k < o0.len() && o0[k] == m as usize;
                    assert(out@[k] == m as usize);
                }
            }
        }
    }
    out
}

} // verus!
