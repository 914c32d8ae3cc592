use vstd::prelude::*;

use crate::assoc::find_key;
use crate::record::{Contributions, add_maps, identity_set, is_listed};

verus! {

/// A record seen as its author mapping and its total.
pub open spec fn rec_view(c: Contributions) -> (Map<Seq<char>, nat>, nat) {
    (c.author_map(), c.total_lines as nat)
}

/// The record that merging two records yields.
pub open spec fn add_recs(a: (Map<Seq<char>, nat>, nat), b: (Map<Seq<char>, nat>, nat)) -> (
    Map<Seq<char>, nat>,
    nat,
) {
    (add_maps(a.0, b.0), a.1 + b.1)
}

/// Path-to-record entries, seen through their views.
pub open spec fn contrib_view(s: Seq<(String, Contributions)>) -> Seq<
    (Seq<char>, (Map<Seq<char>, nat>, nat)),
> {
    s.map_values(|e: (String, Contributions)| (e.0@, rec_view(e.1)))
}

pub open spec fn opt_view(o: Option<String>) -> Option<Seq<char>> {
    match o {
        Some(s) => Some(s@),
        None => None,
    }
}

/// Rename edges, seen through their views; `None` marks a removed path.
pub open spec fn renames_view(s: Seq<(String, Option<String>)>) -> Seq<
    (Seq<char>, Option<Seq<char>>),
> {
    s.map_values(|e: (String, Option<String>)| (e.0@, opt_view(e.1)))
}

/// Index of the first entry with key `k`, or -1.
pub open spec fn key_index<V>(s: Seq<(Seq<char>, V)>, k: Seq<char>) -> int
    decreases s.len(),
{
    if s.len() == 0 {
        -1
    } else {
        let r = key_index(s.drop_last(), k);
        if r >= 0 {
            r
        } else if s.last().0 == k {
            s.len() - 1
        } else {
            -1
        }
    }
}

/// Index of the first rename edge whose destination is `p`, or -1.
pub open spec fn target_index(s: Seq<(Seq<char>, Option<Seq<char>>)>, p: Seq<char>) -> int
    decreases s.len(),
{
    if s.len() == 0 {
        -1
    } else {
        let r = target_index(s.drop_last(), p);
        if r >= 0 {
            r
        } else if s.last().1 == Some(p) {
            s.len() - 1
        } else {
            -1
        }
    }
}

/// No key occurs twice.
pub open spec fn keys_distinct<V>(s: Seq<(Seq<char>, V)>) -> bool {
    forall|i: int, j: int| 0 <= i < j < s.len() ==> s[i].0 != s[j].0
}

/// Sets the record at path `k`, replacing the one there.
pub open spec fn put_rec(
    acc: Seq<(Seq<char>, (Map<Seq<char>, nat>, nat))>,
    k: Seq<char>,
    r: (Map<Seq<char>, nat>, nat),
) -> Seq<(Seq<char>, (Map<Seq<char>, nat>, nat))> {
    let j = key_index(acc, k);
    if j >= 0 {
        acc.update(j, (k, r))
    } else {
        acc.push((k, r))
    }
}

/// Where the rename edges send path `p`: `None` if no edge leaves it.
pub open spec fn rename_lookup(renames: Seq<(Seq<char>, Option<Seq<char>>)>, p: Seq<char>) -> Option<
    Option<Seq<char>>,
> {
    let j = key_index(renames, p);
    if j >= 0 {
        Some(renames[j].1)
    } else {
        None
    }
}

/// The older records carried through the newer renames: a renamed path moves, a removed path
/// is dropped, any other stays where it is.
pub open spec fn relocate(
    older: Seq<(Seq<char>, (Map<Seq<char>, nat>, nat))>,
    renames: Seq<(Seq<char>, Option<Seq<char>>)>,
) -> Seq<(Seq<char>, (Map<Seq<char>, nat>, nat))>
    decreases older.len(),
{
    if older.len() == 0 {
        Seq::empty()
    } else {
        let acc = relocate(older.drop_last(), renames);
        let (p, r) = older.last();
        match rename_lookup(renames, p) {
            Some(Some(q)) => put_rec(acc, q, r),
            Some(None) => acc,
            None => put_rec(acc, p, r),
        }
    }
}

/// The newer records merged into `acc`, path by path.
pub open spec fn absorb(
    acc: Seq<(Seq<char>, (Map<Seq<char>, nat>, nat))>,
    newer: Seq<(Seq<char>, (Map<Seq<char>, nat>, nat))>,
) -> Seq<(Seq<char>, (Map<Seq<char>, nat>, nat))>
    decreases newer.len(),
{
    if newer.len() == 0 {
        acc
    } else {
        let a = absorb(acc, newer.drop_last());
        let (p, r) = newer.last();
        let j = key_index(a, p);
        if j >= 0 {
            a.update(j, (p, add_recs(a[j].1, r)))
        } else {
            a.push((p, r))
        }
    }
}

/// Adds one newer edge `from -> to` to the older edges: the first older edge that ends at `from`
/// now ends at `to`; without one, the edge is set as it is.
pub open spec fn compose_step(
    acc: Seq<(Seq<char>, Option<Seq<char>>)>,
    e: (Seq<char>, Option<Seq<char>>),
) -> Seq<(Seq<char>, Option<Seq<char>>)> {
    let i = target_index(acc, e.0);
    if i >= 0 {
        acc.update(i, (acc[i].0, e.1))
    } else {
        let j = key_index(acc, e.0);
        if j >= 0 {
            acc.update(j, e)
        } else {
            acc.push(e)
        }
    }
}

/// The older edges composed with each newer edge in turn.
pub open spec fn compose(
    older: Seq<(Seq<char>, Option<Seq<char>>)>,
    newer: Seq<(Seq<char>, Option<Seq<char>>)>,
) -> Seq<(Seq<char>, Option<Seq<char>>)>
    decreases newer.len(),
{
    if newer.len() == 0 {
        older
    } else {
        compose_step(compose(older, newer.drop_last()), newer.last())
    }
}

/// What combining an older and a newer partial yields, over their views.
pub open spec fn combine_view(
    older: (Seq<(Seq<char>, (Map<Seq<char>, nat>, nat))>, Seq<(Seq<char>, Option<Seq<char>>)>),
    newer: (Seq<(Seq<char>, (Map<Seq<char>, nat>, nat))>, Seq<(Seq<char>, Option<Seq<char>>)>),
) -> (Seq<(Seq<char>, (Map<Seq<char>, nat>, nat))>, Seq<(Seq<char>, Option<Seq<char>>)>) {
    (absorb(relocate(older.0, newer.1), newer.0), compose(older.1, newer.1))
}

/// The view of a partial: its records and its rename edges.
pub open spec fn partial_view(p: Partial) -> (
    Seq<(Seq<char>, (Map<Seq<char>, nat>, nat))>,
    Seq<(Seq<char>, Option<Seq<char>>)>,
) {
    (p.records(), p.edges())
}

/// The partials, oldest first, combined from left to right.
pub open spec fn fold_partials(parts: Seq<Partial>) -> (
    Seq<(Seq<char>, (Map<Seq<char>, nat>, nat))>,
    Seq<(Seq<char>, Option<Seq<char>>)>,
)
    decreases parts.len(),
{
    if parts.len() == 0 {
        (Seq::empty(), Seq::empty())
    } else if parts.len() == 1 {
        partial_view(parts[0])
    } else {
        combine_view(fold_partials(parts.drop_last()), partial_view(parts.last()))
    }
}

/// Lines counted over all the partials.
pub open spec fn lines_of_parts(parts: Seq<Partial>) -> nat
    decreases parts.len(),
{
    if parts.len() == 0 {
        0
    } else {
        lines_of_parts(parts.drop_last()) + lines_in(parts.last().records())
    }
}

/// The entries whose path lies in `paths`, in order.
pub open spec fn keep_paths(
    s: Seq<(Seq<char>, (Map<Seq<char>, nat>, nat))>,
    paths: Set<Seq<char>>,
) -> Seq<(Seq<char>, (Map<Seq<char>, nat>, nat))>
    decreases s.len(),
{
    if s.len() == 0 {
        Seq::empty()
    } else if paths.contains(s.last().0) {
        keep_paths(s.drop_last(), paths).push(s.last())
    } else {
        keep_paths(s.drop_last(), paths)
    }
}

/// Sum of the totals of path-to-record entries.
pub open spec fn lines_in(s: Seq<(Seq<char>, (Map<Seq<char>, nat>, nat))>) -> nat
    decreases s.len(),
{
    if s.len() == 0 {
        0
    } else {
        lines_in(s.drop_last()) + s.last().1.1
    }
}

pub proof fn lemma_key_index<V>(s: Seq<(Seq<char>, V)>, k: Seq<char>)
    ensures
        -1 <= key_index(s, k) < s.len(),
        key_index(s, k) >= 0 ==> s[key_index(s, k)].0 == k,
        forall|j: int| 0 <= j < key_index(s, k) ==> s[j].0 != k,
        key_index(s, k) == -1 ==> forall|j: int| 0 <= j < s.len() ==> s[j].0 != k,
    decreases s.len(),
{
    if s.len() > 0 {
        lemma_key_index(s.drop_last(), k);
        assert forall|j: int| 0 <= j < s.len() - 1 implies s.drop_last()[j] == s[j] by {}
    }
}

pub proof fn lemma_key_index_is<V>(s: Seq<(Seq<char>, V)>, k: Seq<char>, i: int)
    requires
        0 <= i < s.len(),
        s[i].0 == k,
        forall|j: int| 0 <= j < i ==> s[j].0 != k,
    ensures
        key_index(s, k) == i,
{
    lemma_key_index(s, k);
}

pub proof fn lemma_target_index(s: Seq<(Seq<char>, Option<Seq<char>>)>, p: Seq<char>)
    ensures
        -1 <= target_index(s, p) < s.len(),
        target_index(s, p) >= 0 ==> s[target_index(s, p)].1 == Some(p),
        forall|j: int| 0 <= j < target_index(s, p) ==> s[j].1 != Some(p),
        target_index(s, p) == -1 ==> forall|j: int| 0 <= j < s.len() ==> s[j].1 != Some(p),
    decreases s.len(),
{
    if s.len() > 0 {
        lemma_target_index(s.drop_last(), p);
        assert forall|j: int| 0 <= j < s.len() - 1 implies s.drop_last()[j] == s[j] by {}
    }
}

pub proof fn lemma_lines_update(s: Seq<(Seq<char>, (Map<Seq<char>, nat>, nat))>, j: int, x: (Seq<char>, (Map<Seq<char>, nat>, nat)))
    requires
        0 <= j < s.len(),
    ensures
        lines_in(s.update(j, x)) + s[j].1.1 == lines_in(s) + x.1.1,
    decreases s.len(),
{
    if j < s.len() - 1 {
        assert(s.update(j, x).drop_last() == s.drop_last().update(j, x));
        lemma_lines_update(s.drop_last(), j, x);
    } else {
        assert(s.update(j, x).drop_last() == s.drop_last());
    }
}

proof fn lemma_lines_prefix(s: Seq<(Seq<char>, (Map<Seq<char>, nat>, nat))>, i: int)
    requires
        0 <= i <= s.len(),
    ensures
        lines_in(s.take(i)) <= lines_in(s),
    decreases s.len(),
{
    if i < s.len() {
        assert(s.take(i) == s.drop_last().take(i));
        lemma_lines_prefix(s.drop_last(), i);
    } else {
        assert(s.take(i) == s);
    }
}

proof fn lemma_parts_prefix(s: Seq<Partial>, i: int)
    requires
        0 <= i <= s.len(),
    ensures
        lines_of_parts(s.take(i)) <= lines_of_parts(s),
    decreases s.len(),
{
    if i < s.len() {
        assert(s.take(i) == s.drop_last().take(i));
        lemma_parts_prefix(s.drop_last(), i);
    } else {
        assert(s.take(i) == s);
    }
}

pub proof fn lemma_lines_entry(s: Seq<(Seq<char>, (Map<Seq<char>, nat>, nat))>, j: int)
    requires
        0 <= j < s.len(),
    ensures
        s[j].1.1 <= lines_in(s),
    decreases s.len(),
{
    if j < s.len() - 1 {
        lemma_lines_entry(s.drop_last(), j);
    }
}


/// What one range of commits yields: line counts per path, and the rename edges of the range.
pub struct Partial {
    pub contributions: Vec<(String, Contributions)>,
    pub renames: Vec<(String, Option<String>)>,
}

impl Partial {
    /// Paths and rename sources are unique and every record is well formed.
    pub open spec fn wf(&self) -> bool {
        &&& keys_distinct(contrib_view(self.contributions@))
        &&& keys_distinct(renames_view(self.renames@))
        &&& forall|i: int| 0 <= i < self.contributions@.len() ==> (#[trigger] self.contributions@[i]).1.wf()
    }

    /// The records per path.
    pub open spec fn records(&self) -> Seq<(Seq<char>, (Map<Seq<char>, nat>, nat))> {
        contrib_view(self.contributions@)
    }

    /// The rename edges.
    pub open spec fn edges(&self) -> Seq<(Seq<char>, Option<Seq<char>>)> {
        renames_view(self.renames@)
    }

    /// A partial with no records and no edges.
    pub fn new() -> (r: Self)
        ensures
            r.wf(),
            r.records() == Seq::<(Seq<char>, (Map<Seq<char>, nat>, nat))>::empty(),
            r.edges() == Seq::<(Seq<char>, Option<Seq<char>>)>::empty(),
    {
        let r = Partial { contributions: Vec::new(), renames: Vec::new() };
        proof {
            assert(r.records() =~= Seq::<(Seq<char>, (Map<Seq<char>, nat>, nat))>::empty());
            assert(r.edges() =~= Seq::<(Seq<char>, Option<Seq<char>>)>::empty());
        }
        r
    }
}

/// Where the rename edges send `p`.
fn rename_target(renames: &Vec<(String, Option<String>)>, p: String) -> (r: Option<String>)
    requires
        keys_distinct(renames_view(renames@)),
    ensures
        opt_view(r) == match rename_lookup(renames_view(renames@), p@) {
            Some(t) => t,
            None => Some(p@),
        },
{
    let ghost rv = renames_view(renames@);
    match find_key(renames, &p) {
        Some(j) => {
            proof {
                lemma_key_index_is(rv, p@, j as int);
            }
            match &renames[j].1 {
                Some(q) => Some(q.clone()),
                None => None,
            }
        },
        None => {
            proof {
                lemma_key_index(rv, p@);
                if key_index(rv, p@) >= 0 {
                    assert(rv[key_index(rv, p@)].0 == renames@[key_index(rv, p@)].0@);
                }
            }
            Some(p)
        },
    }
}

/// Sets `k` to `c` in the entries, replacing the record already there.
fn put_entry(acc: &mut Vec<(String, Contributions)>, k: String, c: Contributions)
    requires
        keys_distinct(contrib_view(old(acc)@)),
    ensures
        contrib_view(final(acc)@) == put_rec(contrib_view(old(acc)@), k@, rec_view(c)),
        keys_distinct(contrib_view(final(acc)@)),
        forall|i: int|
            0 <= i < final(acc)@.len() ==> (#[trigger] final(acc)@[i]).1 == c || exists|m: int|
                0 <= m < old(acc)@.len() && final(acc)@[i].1 == old(acc)@[m].1,
        lines_in(contrib_view(final(acc)@)) <= lines_in(contrib_view(old(acc)@)) + c.total_lines,
{
    let ghost v0 = contrib_view(acc@);
    let ghost a0 = acc@;
    match find_key(acc, &k) {
        Some(j) => {
            proof {
                lemma_key_index_is(v0, k@, j as int);
                lemma_lines_update(v0, j as int, (k@, rec_view(c)));
            }
            acc.set(j, (k, c));
            proof {
                assert(contrib_view(acc@) =~= v0.update(j as int, (k@, rec_view(c))));
                assert forall|i: int| 0 <= i < acc@.len() implies (#[trigger] acc@[i]).1 == c || exists|m: int|
                    0 <= m < a0.len() && acc@[i].1 == a0[m].1 by {
                    if i != j {
                        assert(acc@[i].1 == a0[i].1);
                    }
                }
            }
        },
        None => {
            proof {
                lemma_key_index(v0, k@);
                if key_index(v0, k@) >= 0 {
                    assert(v0[key_index(v0, k@)].0 == a0[key_index(v0, k@)].0@);
                }
            }
            acc.push((k, c));
            proof {
                assert(contrib_view(acc@) =~= v0.push((k@, rec_view(c))));
                assert(contrib_view(acc@).drop_last() == v0);
                assert forall|i: int| 0 <= i < acc@.len() implies (#[trigger] acc@[i]).1 == c || exists|m: int|
                    0 <= m < a0.len() && acc@[i].1 == a0[m].1 by {
                    if i < a0.len() {
                        assert(acc@[i].1 == a0[i].1);
                    }
                }
            }
        },
    }
}


/// Combining is order-sensitive: a record at `a` in the older partial moves to `b` when the
/// newer partial renames `a` to `b`, while with the two partials swapped it stays at `a`.
pub proof fn law_combine_follows_renames_in_order(older: Partial, newer: Partial, a: Seq<char>, b: Seq<char>)
    requires
        older.wf(),
        newer.wf(),
        older.records().len() == 1,
        older.records()[0].0 == a,
        older.edges().len() == 0,
        newer.records().len() == 0,
        newer.edges() == seq![(a, Some(b))],
        a != b,
    ensures
        combine_view(partial_view(older), partial_view(newer)).0 == seq![(b, older.records()[0].1)],
        combine_view(partial_view(newer), partial_view(older)).0 == seq![(a, older.records()[0].1)],
        combine_view(partial_view(older), partial_view(newer)) != combine_view(
            partial_view(newer),
            partial_view(older),
        ),
{
    let r = older.records()[0].1;
    let o = older.records();
    let n = newer.edges();
    assert(o.drop_last() =~= Seq::<(Seq<char>, (Map<Seq<char>, nat>, nat))>::empty());
    assert(n[0] == (a, Some(b)));
    lemma_key_index_is(n, a, 0);
    assert(rename_lookup(n, a) == Some(Some(b)));
    let e = Seq::<(Seq<char>, (Map<Seq<char>, nat>, nat))>::empty();
    assert(relocate(o.drop_last(), n) == e);
    assert(o.last() == (a, r));
    assert(key_index(e, b) == -1);
    assert(relocate(o, n) == put_rec(e, b, r));
    assert(relocate(o, n) =~= seq![(b, r)]);
    assert(absorb(relocate(o, n), newer.records()) == relocate(o, n));
    let ne = Seq::<(Seq<char>, Option<Seq<char>>)>::empty();
    assert(key_index(ne, a) == -1);
    assert(relocate(newer.records(), older.edges()) == e);
    assert(absorb(e, o.drop_last()) == e);
    assert(key_index(e, a) == -1);
    assert(absorb(e, o) == e.push((a, r)));
    assert(absorb(e, o) =~= seq![(a, r)]);
    assert(seq![(b, r)][0].0 != seq![(a, r)][0].0);
}

/// Rename chaining: an older edge `x -> y` followed by a newer edge `y -> z` composes into the
/// single edge `x -> z`.
pub proof fn law_rename_chaining(older: Partial, newer: Partial, x: Seq<char>, y: Seq<char>, z: Seq<char>)
    requires
        older.wf(),
        newer.wf(),
        older.edges() == seq![(x, Some(y))],
        newer.edges() == seq![(y, Some(z))],
    ensures
        combine_view(partial_view(older), partial_view(newer)).1 == seq![(x, Some(z))],
{
    let o = older.edges();
    let n = newer.edges();
    assert(n.drop_last() =~= Seq::<(Seq<char>, Option<Seq<char>>)>::empty());
    assert(compose(o, n.drop_last()) == o);
    assert(o.drop_last() =~= Seq::<(Seq<char>, Option<Seq<char>>)>::empty());
    assert(o[0] == (x, Some(y)));
    lemma_target_index(o, y);
    assert(target_index(o, y) == 0);
    assert(compose(o, n) =~= seq![(x, Some(z))]);
}

/// Removal: a record at `p` in the older partial is dropped when the newer partial marks `p`
/// as removed and has no record of its own there.
pub proof fn law_removed_path_is_dropped(older: Partial, newer: Partial, p: Seq<char>)
    requires
        older.wf(),
        newer.wf(),
        older.records().len() == 1,
        older.records()[0].0 == p,
        newer.edges() == seq![(p, None::<Seq<char>>)],
        forall|j: int| 0 <= j < newer.records().len() ==> newer.records()[j].0 != p,
    ensures
        forall|j: int|
            0 <= j < combine_view(partial_view(older), partial_view(newer)).0.len() ==> combine_view(
                partial_view(older),
                partial_view(newer),
            ).0[j].0 != p,
{
    let o = older.records();
    let n = newer.edges();
    assert(o.drop_last() =~= Seq::<(Seq<char>, (Map<Seq<char>, nat>, nat))>::empty());
    assert(n[0] == (p, None::<Seq<char>>));
    lemma_key_index_is(n, p, 0);
    let e = Seq::<(Seq<char>, (Map<Seq<char>, nat>, nat))>::empty();
    assert(relocate(o.drop_last(), n) == e);
    assert(o.last().0 == p);
    assert(relocate(o, n) == e);
    lemma_absorb_keys(e, newer.records(), p);
}

proof fn lemma_absorb_keys(
    acc: Seq<(Seq<char>, (Map<Seq<char>, nat>, nat))>,
    newer: Seq<(Seq<char>, (Map<Seq<char>, nat>, nat))>,
    p: Seq<char>,
)
    requires
        forall|j: int| 0 <= j < acc.len() ==> acc[j].0 != p,
        forall|j: int| 0 <= j < newer.len() ==> newer[j].0 != p,
    ensures
        forall|j: int| 0 <= j < absorb(acc, newer).len() ==> absorb(acc, newer)[j].0 != p,
    decreases newer.len(),
{
    if newer.len() > 0 {
        assert forall|j: int| 0 <= j < newer.drop_last().len() implies newer.drop_last()[j].0 != p by {
            assert(newer.drop_last()[j] == newer[j]);
        }
        lemma_absorb_keys(acc, newer.drop_last(), p);
        let a = absorb(acc, newer.drop_last());
        lemma_key_index(a, newer.last().0);
    }
}

/// Carries the older records through the newer rename edges.
fn relocate_older(older: Vec<(String, Contributions)>, renames: &Vec<(String, Option<String>)>) -> (r: Vec<
    (String, Contributions),
>)
    requires
        keys_distinct(renames_view(renames@)),
        forall|k: int| 0 <= k < older@.len() ==> (#[trigger] older@[k]).1.wf(),
    ensures
        contrib_view(r@) == relocate(contrib_view(older@), renames_view(renames@)),
        keys_distinct(contrib_view(r@)),
        forall|m: int| 0 <= m < r@.len() ==> (#[trigger] r@[m]).1.wf(),
        lines_in(contrib_view(r@)) <= lines_in(contrib_view(older@)),
{
    let ghost o = older@;
    let ghost ov = contrib_view(older@);
    let ghost rv = renames_view(renames@);
    let mut rest = older;
    let mut acc: Vec<(String, Contributions)> = Vec::new();
    let ghost mut i: int = 0;
    proof {
        assert(ov.take(0) =~= Seq::<(Seq<char>, (Map<Seq<char>, nat>, nat))>::empty());
        assert(contrib_view(acc@) =~= Seq::<(Seq<char>, (Map<Seq<char>, nat>, nat))>::empty());
        assert(rest@ == o.skip(0));
    }
    while rest.len() > 0
        invariant
            0 <= i <= o.len(),
            o.len() == i + rest@.len(),
            rest@ == o.skip(i),
            ov == contrib_view(o),
            rv == renames_view(renames@),
            keys_distinct(rv),
            forall|k: int| 0 <= k < o.len() ==> (#[trigger] o[k]).1.wf(),
            contrib_view(acc@) == relocate(ov.take(i), rv),
            keys_distinct(contrib_view(acc@)),
            forall|m: int| 0 <= m < acc@.len() ==> (#[trigger] acc@[m]).1.wf(),
            lines_in(contrib_view(acc@)) <= lines_in(ov.take(i)),
        decreases rest@.len(),
    {
        let (p, c) = rest.remove(0);
        proof {
            assert(o[i] == (p, c));
            assert(ov.take(i + 1).drop_last() == ov.take(i));
            assert(ov.take(i + 1).last() == (p@, rec_view(c)));
            assert(rest@ == o.skip(i + 1));
        }
        let t = rename_target(renames, p);
        match t {
            Some(q) => {
                put_entry(&mut acc, q, c);
            },
            None => {},
        }
        proof {
            i = i + 1;
        }
    }
    proof {
        assert(ov.take(i) == ov);
    }
    acc
}


/// Merges the newer records into `acc`, path by path.
fn absorb_newer(acc: &mut Vec<(String, Contributions)>, newer: Vec<(String, Contributions)>)
    requires
        keys_distinct(contrib_view(old(acc)@)),
        forall|m: int| 0 <= m < old(acc)@.len() ==> (#[trigger] old(acc)@[m]).1.wf(),
        forall|k: int| 0 <= k < newer@.len() ==> (#[trigger] newer@[k]).1.wf(),
        lines_in(contrib_view(old(acc)@)) + lines_in(contrib_view(newer@)) <= usize::MAX,
    ensures
        contrib_view(final(acc)@) == absorb(contrib_view(old(acc)@), contrib_view(newer@)),
        keys_distinct(contrib_view(final(acc)@)),
        forall|m: int| 0 <= m < final(acc)@.len() ==> (#[trigger] final(acc)@[m]).1.wf(),
        lines_in(contrib_view(final(acc)@)) == lines_in(contrib_view(old(acc)@)) + lines_in(
            contrib_view(newer@),
        ),
{
    let ghost o = newer@;
    let ghost nv = contrib_view(newer@);
    let ghost v0 = contrib_view(acc@);
    let mut rest = newer;
    let ghost mut i: int = 0;
    proof {
        assert(nv.take(0) =~= Seq::<(Seq<char>, (Map<Seq<char>, nat>, nat))>::empty());
        assert(rest@ == o.skip(0));
    }
    while rest.len() > 0
        invariant
            0 <= i <= o.len(),
            o.len() == i + rest@.len(),
            rest@ == o.skip(i),
            nv == contrib_view(o),
            forall|k: int| 0 <= k < o.len() ==> (#[trigger] o[k]).1.wf(),
            lines_in(v0) + lines_in(nv) <= usize::MAX,
            contrib_view(acc@) == absorb(v0, nv.take(i)),
            keys_distinct(contrib_view(acc@)),
            forall|m: int| 0 <= m < acc@.len() ==> (#[trigger] acc@[m]).1.wf(),
            lines_in(contrib_view(acc@)) == lines_in(v0) + lines_in(nv.take(i)),
        decreases rest@.len(),
    {
        let (p, c) = rest.remove(0);
        let ghost a = contrib_view(acc@);
        let ghost a0 = acc@;
        proof {
            assert(o[i] == (p, c));
            assert(nv.take(i + 1).drop_last() == nv.take(i));
            assert(nv.take(i + 1).last() == (p@, rec_view(c)));
            assert(rest@ == o.skip(i + 1));
            lemma_lines_prefix(nv, i + 1);
        }
        match find_key(acc, &p) {
            Some(j) => {
                proof {
                    lemma_key_index_is(a, p@, j as int);
                    lemma_lines_entry(a, j as int);
                }
                let mut e = acc.remove(j);
                e.1.merge(c);
                acc.insert(j, e);
                proof {
                    let x = (p@, add_recs(a[j as int].1, rec_view(c)));
                    assert(acc@ =~= a0.update(j as int, e));
                    assert(contrib_view(acc@) =~= a.update(j as int, x));
                    lemma_lines_update(a, j as int, x);
                    assert forall|m: int| 0 <= m < acc@.len() implies (#[trigger] acc@[m]).1.wf() by {
                        if m != j {
                            assert(acc@[m] == a0[m]);
                        }
                    }
                }
            },
            None => {
                proof {
                    lemma_key_index(a, p@);
                    if key_index(a, p@) >= 0 {
                        assert(a[key_index(a, p@)].0 == a0[key_index(a, p@)].0@);
                    }
                }
                acc.push((p, c));
                proof {
                    assert(contrib_view(acc@) =~= a.push((p@, rec_view(c))));
                    assert(contrib_view(acc@).drop_last() == a);
                    assert forall|m: int| 0 <= m < acc@.len() implies (#[trigger] acc@[m]).1.wf() by {
                        if m < a0.len() {
                            assert(acc@[m] == a0[m]);
                        }
                    }
                }
            },
        }
        proof {
            i = i + 1;
        }
    }
    proof {
        assert(nv.take(i) == nv);
    }
}


/// Position of the first edge that ends at `p`, if any.
fn find_target(acc: &Vec<(String, Option<String>)>, p: &String) -> (r: Option<usize>)
    ensures
        match r {
            Some(i) => i < acc@.len() && opt_view(acc@[i as int].1) == Some(p@) && forall|j: int|
                0 <= j < i ==> opt_view(acc@[j].1) != Some(p@),
            None => forall|j: int| 0 <= j < acc@.len() ==> opt_view(acc@[j].1) != Some(p@),
        },
{
    let mut i: usize = 0;
    while i < acc.len()
        invariant
            i <= acc@.len(),
            forall|j: int| 0 <= j < i ==> opt_view(acc@[j].1) != Some(p@),
        decreases acc@.len() - i,
    {
        match &acc[i].1 {
            Some(q) => {
                if *q == *p {
                    return Some(i);
                }
            },
            None => {},
        }
        i = i + 1;
    }
    None
}

/// Composes the older rename edges with the newer ones, in order.
fn compose_renames(acc: &mut Vec<(String, Option<String>)>, newer: Vec<(String, Option<String>)>)
    requires
        keys_distinct(renames_view(old(acc)@)),
    ensures
        renames_view(final(acc)@) == compose(renames_view(old(acc)@), renames_view(newer@)),
        keys_distinct(renames_view(final(acc)@)),
{
    let ghost o = newer@;
    let ghost nv = renames_view(newer@);
    let ghost v0 = renames_view(acc@);
    let mut rest = newer;
    let ghost mut i: int = 0;
    proof {
        assert(nv.take(0) =~= Seq::<(Seq<char>, Option<Seq<char>>)>::empty());
        assert(rest@ == o.skip(0));
    }
    while rest.len() > 0
        invariant
            0 <= i <= o.len(),
            o.len() == i + rest@.len(),
            rest@ == o.skip(i),
            nv == renames_view(o),
            renames_view(acc@) == compose(v0, nv.take(i)),
            keys_distinct(renames_view(acc@)),
        decreases rest@.len(),
    {
        let (f, t) = rest.remove(0);
        let ghost a = renames_view(acc@);
        let ghost a0 = acc@;
        proof {
            assert(o[i] == (f, t));
            assert(nv.take(i + 1).drop_last() == nv.take(i));
            assert(nv.take(i + 1).last() == (f@, opt_view(t)));
            assert(rest@ == o.skip(i + 1));
            lemma_target_index(a, f@);
            lemma_key_index(a, f@);
        }
        match find_target(acc, &f) {
            Some(k) => {
                proof {
                    assert(forall|j: int| 0 <= j < k ==> a[j].1 == opt_view(a0[j].1));
                    assert(target_index(a, f@) == k);
                }
                let src = acc[k].0.clone();
                acc.set(k, (src, t));
                proof {
                    assert(renames_view(acc@) =~= a.update(k as int, (a[k as int].0, opt_view(t))));
                }
            },
            None => {
                proof {
                    if target_index(a, f@) >= 0 {
                        assert(a[target_index(a, f@)].1 == opt_view(a0[target_index(a, f@)].1));
                    }
                }
                match find_key(acc, &f) {
                    Some(k) => {
                        proof {
                            lemma_key_index_is(a, f@, k as int);
                        }
                        let src = acc[k].0.clone();
                        acc.set(k, (src, t));
                        proof {
                            assert(renames_view(acc@) =~= a.update(k as int, (f@, opt_view(t))));
                        }
                    },
                    None => {
                        proof {
                            if key_index(a, f@) >= 0 {
                                assert(a[key_index(a, f@)].0 == a0[key_index(a, f@)].0@);
                            }
                        }
                        acc.push((f, t));
                        proof {
                            assert(renames_view(acc@) =~= a.push((f@, opt_view(t))));
                        }
                    },
                }
            },
        }
        proof {
            i = i + 1;
        }
    }
    proof {
        assert(nv.take(i) == nv);
    }
}

/// Combines the partial of an older range of commits with that of the adjacent newer range:
/// older records follow the newer renames, newer records are merged in, and the rename edges
/// are composed. The order of the two arguments matters.
pub fn combine(older: Partial, newer: Partial) -> (r: Partial)
    requires
        older.wf(),
        newer.wf(),
        lines_in(older.records()) + lines_in(newer.records()) <= usize::MAX,
    ensures
        r.wf(),
        r.records() == absorb(relocate(older.records(), newer.edges()), newer.records()),
        r.edges() == compose(older.edges(), newer.edges()),
        lines_in(r.records()) <= lines_in(older.records()) + lines_in(newer.records()),
{
    let Partial { contributions: older_c, renames: older_r } = older;
    let Partial { contributions: newer_c, renames: newer_r } = newer;
    let mut moved = relocate_older(older_c, &newer_r);
    absorb_newer(&mut moved, newer_c);
    let mut edges = older_r;
    compose_renames(&mut edges, newer_r);
    Partial { contributions: moved, renames: edges }
}


/// Combines the partials of consecutive commit ranges, oldest first, always treating the
/// accumulated left part as the older one.
pub fn reduce_partials(parts: Vec<Partial>) -> (r: Partial)
    requires
        forall|k: int| 0 <= k < parts@.len() ==> (#[trigger] parts@[k]).wf(),
        lines_of_parts(parts@) <= usize::MAX,
    ensures
        r.wf(),
        partial_view(r) == fold_partials(parts@),
{
    let ghost o = parts@;
    if parts.len() == 0 {
        let r = Partial::new();
        return r;
    }
    let mut rest = parts;
    let mut acc = rest.remove(0);
    let ghost mut i: int = 1;
    proof {
        assert(o.take(1).drop_last() =~= Seq::<Partial>::empty());
        assert(lines_of_parts(Seq::<Partial>::empty()) == 0);
        assert(o.take(1).last() == o[0]);
        assert(o.take(1) =~= seq![o[0]]);
        assert(lines_of_parts(o.take(1)) == lines_in(o[0].records()));
        assert(rest@ == o.skip(1));
    }
    while rest.len() > 0
        invariant
            1 <= i <= o.len(),
            o.len() == i + rest@.len(),
            rest@ == o.skip(i),
            forall|k: int| 0 <= k < o.len() ==> (#[trigger] o[k]).wf(),
            lines_of_parts(o) <= usize::MAX,
            acc.wf(),
            partial_view(acc) == fold_partials(o.take(i)),
            lines_in(acc.records()) <= lines_of_parts(o.take(i)),
        decreases rest@.len(),
    {
        let next = rest.remove(0);
        proof {
            assert(o[i] == next);
            assert(o.take(i + 1).drop_last() == o.take(i));
            assert(o.take(i + 1).last() == next);
            assert(rest@ == o.skip(i + 1));
            lemma_parts_prefix(o, i + 1);
        }
        acc = combine(acc, next);
        proof {
            i = i + 1;
        }
    }
    proof {
        assert(o.take(i) == o);
    }
    acc
}

/// Keeps the entries whose path is one of `paths`.
pub fn retain_paths(entries: Vec<(String, Contributions)>, paths: &[String]) -> (r: Vec<
    (String, Contributions),
>)
    requires
        keys_distinct(contrib_view(entries@)),
        forall|k: int| 0 <= k < entries@.len() ==> (#[trigger] entries@[k]).1.wf(),
    ensures
        contrib_view(r@) == keep_paths(contrib_view(entries@), identity_set(paths@)),
        keys_distinct(contrib_view(r@)),
        forall|k: int| 0 <= k < r@.len() ==> (#[trigger] r@[k]).1.wf(),
{
    let ghost o = entries@;
    let ghost ov = contrib_view(entries@);
    let ghost sel = identity_set(paths@);
    let mut rest = entries;
    let mut kept: Vec<(String, Contributions)> = Vec::new();
    let ghost mut i: int = 0;
    proof {
        assert(ov.take(0) =~= Seq::<(Seq<char>, (Map<Seq<char>, nat>, nat))>::empty());
        assert(contrib_view(kept@) =~= Seq::<(Seq<char>, (Map<Seq<char>, nat>, nat))>::empty());
        assert(rest@ == o.skip(0));
    }
    while rest.len() > 0
        invariant
            0 <= i <= o.len(),
            o.len() == i + rest@.len(),
            rest@ == o.skip(i),
            ov == contrib_view(o),
            sel == identity_set(paths@),
            keys_distinct(ov),
            forall|k: int| 0 <= k < o.len() ==> (#[trigger] o[k]).1.wf(),
            contrib_view(kept@) == keep_paths(ov.take(i), sel),
            forall|k: int| 0 <= k < kept@.len() ==> (#[trigger] kept@[k]).1.wf(),
            forall|k: int| 0 <= k < kept@.len() ==> exists|m: int| 0 <= m < i && #[trigger] kept@[k].0@ == ov[m].0,
            keys_distinct(contrib_view(kept@)),
        decreases rest@.len(),
    {
        let (p, c) = rest.remove(0);
        let ghost k0 = kept@;
        proof {
            assert(o[i] == (p, c));
            assert(ov.take(i + 1).drop_last() == ov.take(i));
            assert(ov.take(i + 1).last() == (p@, rec_view(c)));
            assert(rest@ == o.skip(i + 1));
        }
        if is_listed(paths, &p) {
            kept.push((p, c));
            proof {
                assert(contrib_view(kept@) =~= contrib_view(k0).push((ov[i].0, rec_view(c))));
                assert forall|k: int| 0 <= k < kept@.len() implies exists|m: int|
                    0 <= m < i + 1 && #[trigger] kept@[k].0@ == ov[m].0 by {
                    if k < k0.len() {
                        assert(kept@[k] == k0[k]);
                        let m = choose|m: int| 0 <= m < i && k0[k].0@ == ov[m].0;
                        assert(kept@[k].0@ == ov[m].0);
                    } else {
                        assert(kept@[k].0@ == ov[i].0);
                    }
                }
                assert forall|a: int, b: int| 0 <= a < b < kept@.len() implies contrib_view(kept@)[a].0
                    != contrib_view(kept@)[b].0 by {
                    if b == kept@.len() - 1 {
                        assert(kept@[a] == k0[a]);
                        let m = choose|m: int| 0 <= m < i && k0[a].0@ == ov[m].0;
                        assert(contrib_view(kept@)[a].0 == ov[m].0);
                    } else {
                        assert(contrib_view(kept@)[a] == contrib_view(k0)[a]);
                        assert(contrib_view(kept@)[b] == contrib_view(k0)[b]);
                    }
                }
                assert forall|k: int| 0 <= k < kept@.len() implies (#[trigger] kept@[k]).1.wf() by {
                    if k < k0.len() {
                        assert(kept@[k] == k0[k]);
                    }
                }
            }
        } else {
            proof {
                assert forall|k: int| 0 <= k < kept@.len() implies exists|m: int|
                    0 <= m < i + 1 && #[trigger] kept@[k].0@ == ov[m].0 by {
                    let m = choose|m: int| 0 <= m < i && kept@[k].0@ == ov[m].0;
                    assert(kept@[k].0@ == ov[m].0);
                }
            }
        }
        proof {
            i = i + 1;
        }
    }
    proof {
        assert(ov.take(i) == ov);
    }
    kept
}


/// Lines in the records of a partial, unless the sum exceeds `limit`.
fn lines_within(p: &Partial, limit: usize) -> (r: Option<usize>)
    ensures
        match r {
            Some(n) => n == lines_in(p.records()) && n <= limit,
            None => lines_in(p.records()) > limit,
        },
{
    let ghost v = p.records();
    let mut sum: usize = 0;
    let mut i: usize = 0;
    proof {
        assert(v.take(0) =~= Seq::<(Seq<char>, (Map<Seq<char>, nat>, nat))>::empty());
    }
    while i < p.contributions.len()
        invariant
            v == p.records(),
            i <= v.len(),
            sum == lines_in(v.take(i as int)),
            sum <= limit,
        decreases v.len() - i,
    {
        proof {
            assert(v.take(i as int + 1).drop_last() == v.take(i as int));
            assert(v.take(i as int + 1).last() == v[i as int]);
            lemma_lines_prefix(v, i as int + 1);
        }
        let t = p.contributions[i].1.total_lines;
        if t > limit - sum {
            return None;
        }
        sum = sum + t;
        i = i + 1;
    }
    proof {
        assert(v.take(i as int) == v);
    }
    Some(sum)
}

/// Lines in all the partials, unless the sum exceeds `usize::MAX`.
fn lines_of_all(parts: &Vec<Partial>) -> (r: Option<usize>)
    ensures
        match r {
            Some(n) => n == lines_of_parts(parts@),
            None => lines_of_parts(parts@) > usize::MAX,
        },
{
    let ghost ps = parts@;
    let mut sum: usize = 0;
    let mut i: usize = 0;
    proof {
        assert(ps.take(0) =~= Seq::<Partial>::empty());
    }
    while i < parts.len()
        invariant
            ps == parts@,
            i <= ps.len(),
            sum == lines_of_parts(ps.take(i as int)),
        decreases ps.len() - i,
    {
        proof {
            assert(ps.take(i as int + 1).drop_last() == ps.take(i as int));
            assert(ps.take(i as int + 1).last() == ps[i as int]);
            lemma_parts_prefix(ps, i as int + 1);
        }
        match lines_within(&parts[i], usize::MAX - sum) {
            Some(n) => {
                sum = sum + n;
            },
            None => {
                proof {
                    lemma_parts_prefix(ps, i as int + 1);
                }
                return None;
            },
        }
        i = i + 1;
    }
    proof {
        assert(ps.take(i as int) == ps);
    }
    Some(sum)
}

/// Overwritten-lines attribution: combines the partials of single commits, oldest first, and
/// keeps the records of the paths of interest. `None` where the lines counted over all the
/// partials do not fit in a `usize`.
pub fn overwritten_contributions(parts: Vec<Partial>, paths: &[String]) -> (r: Option<
    Vec<(String, Contributions)>,
>)
    requires
        forall|k: int| 0 <= k < parts@.len() ==> (#[trigger] parts@[k]).wf(),
    ensures
        r is Some <==> lines_of_parts(parts@) <= usize::MAX,
        r matches Some(v) ==> {
            &&& contrib_view(v@) == keep_paths(fold_partials(parts@).0, identity_set(paths@))
            &&& forall|k: int| 0 <= k < v@.len() ==> (#[trigger] v@[k]).1.wf()
        },
{
    match lines_of_all(&parts) {
        None => None,
        Some(_) => {
            let all = reduce_partials(parts);
            Some(retain_paths(all.contributions, paths))
        },
    }
}

} // verus!
