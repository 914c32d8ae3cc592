use vstd::prelude::*;

use crate::assoc::find_key;

verus! {

/// Sum of the line counts of a list of (identity, lines) entries.
pub open spec fn sum_counts(entries: Seq<(String, usize)>) -> nat
    decreases entries.len(),
{
    if entries.len() == 0 {
        0
    } else {
        sum_counts(entries.drop_last()) + entries.last().1 as nat
    }
}

/// No identity occurs twice in the list.
pub open spec fn keys_unique(entries: Seq<(String, usize)>) -> bool {
    forall|i: int, j: int| 0 <= i < j < entries.len() ==> entries[i].0@ != entries[j].0@
}

/// The mapping from identity to line count that a list of entries denotes.
pub open spec fn count_map(entries: Seq<(String, usize)>) -> Map<Seq<char>, nat>
    decreases entries.len(),
{
    if entries.len() == 0 {
        Map::empty()
    } else {
        count_map(entries.drop_last()).insert(entries.last().0@, entries.last().1 as nat)
    }
}

/// The count of `k` in `m`, zero where `k` is absent.
pub open spec fn count_of(m: Map<Seq<char>, nat>, k: Seq<char>) -> nat {
    if m.contains_key(k) { m[k] } else { 0 }
}

/// Elementwise sum of two author mappings.
pub open spec fn add_maps(a: Map<Seq<char>, nat>, b: Map<Seq<char>, nat>) -> Map<Seq<char>, nat> {
    Map::new(|k: Seq<char>| a.contains_key(k) || b.contains_key(k), |k: Seq<char>| count_of(a, k) + count_of(b, k))
}

/// The set of identities named in a list.
pub open spec fn identity_set(ids: Seq<String>) -> Set<Seq<char>> {
    Set::new(|k: Seq<char>| exists|i: int| 0 <= i < ids.len() && ids[i]@ == k)
}

/// Sum of the counts of the entries whose identity lies in `sel`.
pub open spec fn selected_sum(entries: Seq<(String, usize)>, sel: Set<Seq<char>>) -> nat
    decreases entries.len(),
{
    if entries.len() == 0 {
        0
    } else if sel.contains(entries.last().0@) {
        selected_sum(entries.drop_last(), sel) + entries.last().1 as nat
    } else {
        selected_sum(entries.drop_last(), sel)
    }
}

/// Line counts of one path or subtree, per author identity.
pub struct Contributions {
    pub authors: Vec<(String, usize)>,
    pub total_lines: usize,
}

pub proof fn lemma_count_map_index(e: Seq<(String, usize)>, i: int)
    requires
        keys_unique(e),
        0 <= i < e.len(),
    ensures
        count_map(e).contains_key(e[i].0@),
        count_map(e)[e[i].0@] == e[i].1 as nat,
    decreases e.len(),
{
    if i < e.len() - 1 {
        lemma_count_map_index(e.drop_last(), i);
    }
}

pub proof fn lemma_count_map_domain(e: Seq<(String, usize)>, k: Seq<char>)
    ensures
        count_map(e).contains_key(k) <==> exists|i: int| 0 <= i < e.len() && e[i].0@ == k,
    decreases e.len(),
{
    if e.len() > 0 {
        lemma_count_map_domain(e.drop_last(), k);
        if count_map(e.drop_last()).contains_key(k) {
            let i = choose|i: int| 0 <= i < e.drop_last().len() && e.drop_last()[i].0@ == k;
            assert(e[i].0@ == k);
        }
        if exists|i: int| 0 <= i < e.len() && e[i].0@ == k {
            let i = choose|i: int| 0 <= i < e.len() && e[i].0@ == k;
            if i < e.len() - 1 {
                assert(e.drop_last()[i].0@ == k);
            }
        }
    }
}

pub proof fn lemma_entry_le_sum(e: Seq<(String, usize)>, i: int)
    requires
        0 <= i < e.len(),
    ensures
        e[i].1 <= sum_counts(e),
    decreases e.len(),
{
    if i < e.len() - 1 {
        lemma_entry_le_sum(e.drop_last(), i);
    }
}

proof fn lemma_prefix_sum(e: Seq<(String, usize)>, i: int)
    requires
        0 <= i <= e.len(),
    ensures
        sum_counts(e.take(i)) <= sum_counts(e),
    decreases e.len(),
{
    if i < e.len() {
        assert(e.take(i) == e.drop_last().take(i));
        lemma_prefix_sum(e.drop_last(), i);
    } else {
        assert(e.take(i) == e);
    }
}

proof fn lemma_selected_le(e: Seq<(String, usize)>, sel: Set<Seq<char>>)
    ensures
        selected_sum(e, sel) <= sum_counts(e),
    decreases e.len(),
{
    if e.len() > 0 {
        lemma_selected_le(e.drop_last(), sel);
    }
}

proof fn lemma_update(e: Seq<(String, usize)>, i: int, x: (String, usize))
    requires
        keys_unique(e),
        0 <= i < e.len(),
        x.0@ == e[i].0@,
    ensures
        keys_unique(e.update(i, x)),
        count_map(e.update(i, x)) == count_map(e).insert(x.0@, x.1 as nat),
        sum_counts(e.update(i, x)) + e[i].1 == sum_counts(e) + x.1,
    decreases e.len(),
{
    let u = e.update(i, x);
    if i == e.len() - 1 {
        assert(u.drop_last() == e.drop_last());
        lemma_count_map_index(e, i);
        lemma_count_map_domain(e.drop_last(), x.0@);
        assert(!count_map(e.drop_last()).contains_key(x.0@));
        assert(count_map(e.drop_last()).insert(x.0@, e[i].1 as nat).insert(x.0@, x.1 as nat)
            == count_map(e.drop_last()).insert(x.0@, x.1 as nat));
    } else {
        assert(u.drop_last() == e.drop_last().update(i, x));
        lemma_update(e.drop_last(), i, x);
        assert(e.last().0@ != x.0@);
        assert(count_map(u) == count_map(e).insert(x.0@, x.1 as nat));
    }
}


/// Whether `k` is one of `ids`.
pub fn is_listed(ids: &[String], k: &String) -> (r: bool)
    ensures
        r == identity_set(ids@).contains(k@),
{
    let mut i: usize = 0;
    while i < ids.len()
        invariant
            i <= ids@.len(),
            forall|j: int| 0 <= j < i ==> ids@[j]@ != k@,
        decreases ids@.len() - i,
    {
        if ids[i] == *k {
            return true;
        }
        i = i + 1;
    }
    false
}

/// Merging a record with an empty record, on either side, leaves its counts and total unchanged.
pub proof fn law_merge_empty_identity(a: Contributions, empty: Contributions)
    requires
        a.wf(),
        empty.wf(),
        empty.authors@.len() == 0,
    ensures
        add_maps(a.author_map(), empty.author_map()) == a.author_map(),
        add_maps(empty.author_map(), a.author_map()) == a.author_map(),
        a.total_lines + empty.total_lines == a.total_lines,
        empty.total_lines + a.total_lines == a.total_lines,
{
    assert(add_maps(a.author_map(), empty.author_map()) =~= a.author_map());
    assert(add_maps(empty.author_map(), a.author_map()) =~= a.author_map());
}

/// Merging is order-independent: the author counts and totals of a merge do not depend on
/// the order or the grouping of the records merged.
pub proof fn law_merge_commutative_associative(a: Contributions, b: Contributions, c: Contributions)
    requires
        a.wf(),
        b.wf(),
        c.wf(),
    ensures
        add_maps(a.author_map(), b.author_map()) == add_maps(b.author_map(), a.author_map()),
        add_maps(add_maps(a.author_map(), b.author_map()), c.author_map()) == add_maps(
            a.author_map(),
            add_maps(b.author_map(), c.author_map()),
        ),
        a.total_lines + b.total_lines == b.total_lines + a.total_lines,
        (a.total_lines + b.total_lines) + c.total_lines == a.total_lines + (b.total_lines
            + c.total_lines),
{
    assert(add_maps(a.author_map(), b.author_map()) =~= add_maps(b.author_map(), a.author_map()));
    assert(add_maps(add_maps(a.author_map(), b.author_map()), c.author_map()) =~= add_maps(
        a.author_map(),
        add_maps(b.author_map(), c.author_map()),
    ));
}

proof fn lemma_selected_ge(e: Seq<(String, usize)>, sel: Set<Seq<char>>, i: int)
    requires
        0 <= i < e.len(),
        sel.contains(e[i].0@),
    ensures
        e[i].1 <= selected_sum(e, sel),
    decreases e.len(),
{
    if i < e.len() - 1 {
        lemma_selected_ge(e.drop_last(), sel, i);
    }
}

/// When one identity holds all the lines of a record, the lines by any list of identities that
/// names it equal the total: that identity's share is complete.
pub proof fn law_sole_author_share(c: Contributions, ids: Seq<String>, a: Seq<char>)
    requires
        c.wf(),
        c.author_map().contains_key(a),
        c.author_map()[a] == c.total_lines,
        identity_set(ids).contains(a),
    ensures
        selected_sum(c.authors@, identity_set(ids)) == c.total_lines,
{
    let e = c.authors@;
    lemma_count_map_domain(e, a);
    let i = choose|i: int| 0 <= i < e.len() && e[i].0@ == a;
    lemma_count_map_index(e, i);
    lemma_selected_ge(e, identity_set(ids), i);
    lemma_selected_le(e, identity_set(ids));
}

impl Contributions {
    /// The record is well formed: identities are unique and the total is the sum of the counts.
    pub open spec fn wf(&self) -> bool {
        &&& keys_unique(self.authors@)
        &&& self.total_lines as nat == sum_counts(self.authors@)
    }

    /// Line count per identity.
    pub open spec fn author_map(&self) -> Map<Seq<char>, nat> {
        count_map(self.authors@)
    }

    /// An empty record.
    pub fn new() -> (r: Self)
        ensures
            r.wf(),
            r.author_map() == Map::<Seq<char>, nat>::empty(),
            r.total_lines == 0,
    {
        Contributions { authors: Vec::new(), total_lines: 0 }
    }

    /// Adds `lines` lines written by `author`.
    pub fn add_lines(&mut self, author: String, lines: usize)
        requires
            old(self).wf(),
            old(self).total_lines + lines <= usize::MAX,
        ensures
            final(self).wf(),
            final(self).total_lines == old(self).total_lines + lines,
            final(self).author_map() == old(self).author_map().insert(
                author@,
                count_of(old(self).author_map(), author@) + lines as nat,
            ),
    {
        let ghost e = self.authors@;
        match find_key(&self.authors, &author) {
            Some(i) => {
                proof {
                    lemma_entry_le_sum(e, i as int);
                    lemma_count_map_index(e, i as int);
                }
                let n = self.authors[i].1 + lines;
                self.authors.set(i, (author, n));
                proof {
                    lemma_update(e, i as int, (author, n));
                }
            },
            None => {
                proof {
                    lemma_count_map_domain(e, author@);
                }
                self.authors.push((author, lines));
                proof {
                    assert(self.authors@.drop_last() == e);
                }
            },
        }
        self.total_lines = self.total_lines + lines;
    }

    /// Adds every count of `other` to this record.
    pub fn add_contribution(&mut self, other: &Self)
        requires
            old(self).wf(),
            other.wf(),
            old(self).total_lines + other.total_lines <= usize::MAX,
        ensures
            final(self).wf(),
            final(self).total_lines == old(self).total_lines + other.total_lines,
            final(self).author_map() == add_maps(old(self).author_map(), other.author_map()),
    {
        let ghost m0 = self.author_map();
        let ghost t0 = self.total_lines;
        let ghost e = other.authors@;
        let mut i: usize = 0;
        proof {
            assert(e.take(0) == Seq::<(String, usize)>::empty());
            assert(add_maps(m0, Map::empty()) == m0);
        }
        while i < other.authors.len()
            invariant
                other.wf(),
                e == other.authors@,
                i <= e.len(),
                t0 + other.total_lines <= usize::MAX,
                self.wf(),
                self.total_lines == t0 + sum_counts(e.take(i as int)),
                self.author_map() == add_maps(m0, count_map(e.take(i as int))),
            decreases e.len() - i,
        {
            proof {
                assert(e.take(i as int + 1).drop_last() == e.take(i as int));
                lemma_prefix_sum(e, i as int + 1);
                lemma_count_map_domain(e.take(i as int), e[i as int].0@);
            }
            let author = other.authors[i].0.clone();
            let n = other.authors[i].1;
            self.add_lines(author, n);
            proof {
                let before = add_maps(m0, count_map(e.take(i as int)));
                assert(add_maps(m0, count_map(e.take(i as int + 1))) =~= before.insert(
                    e[i as int].0@,
                    count_of(before, e[i as int].0@) + n as nat,
                ));
            }
            i = i + 1;
        }
        proof {
            assert(e.take(e.len() as int) == e);
        }
    }

    /// Adds every count of `other` to this record, consuming `other`.
    pub fn merge(&mut self, other: Self)
        requires
            old(self).wf(),
            other.wf(),
            old(self).total_lines + other.total_lines <= usize::MAX,
        ensures
            final(self).wf(),
            final(self).total_lines == old(self).total_lines + other.total_lines,
            final(self).author_map() == add_maps(old(self).author_map(), other.author_map()),
    {
        self.add_contribution(&other);
    }

    /// Removes every identity listed in `ignored`, with its lines.
    pub fn filter_ignored(&mut self, ignored: &[String])
        requires
            old(self).wf(),
        ensures
            final(self).wf(),
            final(self).author_map() == old(self).author_map().remove_keys(identity_set(ignored@)),
            final(self).total_lines == old(self).total_lines - selected_sum(
                old(self).authors@,
                identity_set(ignored@),
            ),
    {
        let ghost sel = identity_set(ignored@);
        let ghost e = self.authors@;
        let mut kept: Vec<(String, usize)> = Vec::new();
        let mut kept_total: usize = 0;
        let mut i: usize = 0;
        proof {
            assert(e.take(0) == Seq::<(String, usize)>::empty());
            assert(count_map(Seq::<(String, usize)>::empty()).remove_keys(sel) =~= Map::empty());
        }
        while i < self.authors.len()
            invariant
                e == self.authors@,
                sel == identity_set(ignored@),
                keys_unique(e),
                self.total_lines == sum_counts(e),
                i <= e.len(),
                keys_unique(kept@),
                forall|j: int|
                    0 <= j < kept@.len() ==> exists|m: int| 0 <= m < i && #[trigger] kept@[j].0@ == e[m].0@,
                kept_total == sum_counts(kept@),
                sum_counts(kept@) + selected_sum(e.take(i as int), sel) == sum_counts(e.take(i as int)),
                count_map(kept@) == count_map(e.take(i as int)).remove_keys(sel),
            decreases e.len() - i,
        {
            proof {
                assert(e.take(i as int + 1).drop_last() == e.take(i as int));
                assert(e.take(i as int + 1).last() == e[i as int]);
                lemma_prefix_sum(e, i as int + 1);
                lemma_selected_le(e.take(i as int + 1), sel);
            }
            let listed = is_listed(ignored, &self.authors[i].0);
            let ghost k = e[i as int].0@;
            if !listed {
                let author = self.authors[i].0.clone();
                let n = self.authors[i].1;
                let ghost kept0 = kept@;
                kept.push((author, n));
                kept_total = kept_total + n;
                proof {
                    assert(kept@.drop_last() == kept0);
                    assert forall|a: int, b: int| 0 <= a < b < kept@.len() implies kept@[a].0@ != kept@[b].0@ by {
                        if b == kept@.len() - 1 {
                            let m = choose|m: int| 0 <= m < i && kept0[a].0@ == e[m].0@;
                            assert(kept0[a].0@ == e[m].0@);
                        }
                    }
                    assert forall|j: int| 0 <= j < kept@.len() implies exists|m: int|
                        0 <= m < i + 1 && #[trigger] kept@[j].0@ == e[m].0@ by {
                        if j < kept@.len() - 1 {
                            let m = choose|m: int| 0 <= m < i && kept0[j].0@ == e[m].0@;
                            assert(kept@[j].0@ == e[m].0@);
                        } else {
                            assert(kept@[j].0@ == e[i as int].0@);
                        }
                    }
                    assert(count_map(kept@) =~= count_map(e.take(i as int + 1)).remove_keys(sel));
                }
            } else {
                proof {
                    assert(count_map(kept@) =~= count_map(e.take(i as int + 1)).remove_keys(sel));
                    assert forall|j: int| 0 <= j < kept@.len() implies exists|m: int|
                        0 <= m < i + 1 && #[trigger] kept@[j].0@ == e[m].0@ by {
                        let m = choose|m: int| 0 <= m < i && kept@[j].0@ == e[m].0@;
                        assert(kept@[j].0@ == e[m].0@);
                    }
                }
            }
            i = i + 1;
        }
        proof {
            assert(e.take(e.len() as int) == e);
        }
        self.authors = kept;
        self.total_lines = kept_total;
    }

    /// Lines written by any of the identities in `author`.
    pub fn lines_by_user(&self, author: &[String]) -> (r: usize)
        requires
            self.wf(),
        ensures
            r == selected_sum(self.authors@, identity_set(author@)),
    {
        let ghost sel = identity_set(author@);
        let ghost e = self.authors@;
        let mut sum: usize = 0;
        let mut i: usize = 0;
        proof {
            assert(e.take(0) == Seq::<(String, usize)>::empty());
        }
        while i < self.authors.len()
            invariant
                e == self.authors@,
                sel == identity_set(author@),
                self.total_lines == sum_counts(e),
                i <= e.len(),
                sum == selected_sum(e.take(i as int), sel),
            decreases e.len() - i,
        {
            proof {
                assert(e.take(i as int + 1).drop_last() == e.take(i as int));
                assert(e.take(i as int + 1).last() == e[i as int]);
                lemma_prefix_sum(e, i as int + 1);
                lemma_selected_le(e.take(i as int + 1), sel);
            }
            let listed = is_listed(author, &self.authors[i].0);
            proof {
                assert(listed == sel.contains(e[i as int].0@));
                if listed {
                    assert(selected_sum(e.take(i as int + 1), sel) == sum + e[i as int].1);
                } else {
                    assert(selected_sum(e.take(i as int + 1), sel) == sum);
                }
            }
            if listed {
                sum = sum + self.authors[i].1;
            }
            i = i + 1;
        }
        proof {
            assert(e.take(e.len() as int) == e);
        }
        sum
    }
}

} // verus!
