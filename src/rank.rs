use vstd::prelude::*;
use vstd::string::*;

use crate::record::{Contributions, count_map, keys_unique, lemma_count_map_domain, lemma_count_map_index, lemma_entry_le_sum};
use crate::text::{push_share, share_text};

verus! {

/// Byte-wise (equivalently, code point) lexicographic order on identities.
pub open spec fn key_less(a: Seq<char>, b: Seq<char>) -> bool
    decreases a.len(),
{
    if a.len() == 0 {
        b.len() > 0
    } else if b.len() == 0 {
        false
    } else if a[0] != b[0] {
        (a[0] as int) < (b[0] as int)
    } else {
        key_less(a.drop_first(), b.drop_first())
    }
}

/// Ranking order of authors: more lines first, then identities in ascending order.
pub open spec fn outranks(a: Seq<char>, a_lines: nat, b: Seq<char>, b_lines: nat) -> bool {
    a_lines > b_lines || (a_lines == b_lines && key_less(a, b))
}

/// `top` lists the `n` highest-ranked entries of `entries` (all of them if fewer), in rank order.
pub open spec fn is_top_authors(entries: Seq<(String, usize)>, n: nat, top: Seq<(String, usize)>) -> bool {
    let m = count_map(entries);
    &&& top.len() == if n < entries.len() { n } else { entries.len() }
    &&& keys_unique(top)
    &&& forall|i: int|
        0 <= i < top.len() ==> m.contains_key(#[trigger] top[i].0@) && m[top[i].0@] == top[i].1 as nat
    &&& forall|i: int, j: int|
        0 <= i < j < top.len() ==> outranks(top[i].0@, top[i].1 as nat, top[j].0@, top[j].1 as nat)
    &&& forall|k: Seq<char>, i: int|
        m.contains_key(k) && !count_map(top).contains_key(k) && 0 <= i < top.len() ==> outranks(
            #[trigger] top[i].0@,
            top[i].1 as nat,
            k,
            #[trigger] m[k],
        )
}

/// One ranked author as text: its identity and its share of `total`.
pub open spec fn entry_text(e: (String, usize), total: nat) -> Seq<char> {
    e.0@ + seq![':', ' '] + share_text(e.1 as nat, total) + seq!['%']
}

/// The entries' texts separated by commas.
pub open spec fn joined_entries(s: Seq<(String, usize)>, total: nat) -> Seq<char>
    decreases s.len(),
{
    if s.len() == 0 {
        Seq::empty()
    } else if s.len() == 1 {
        entry_text(s[0], total)
    } else {
        joined_entries(s.drop_last(), total) + seq![',', ' '] + entry_text(s.last(), total)
    }
}

/// The parenthesised list of the entries' texts.
pub open spec fn authors_text(s: Seq<(String, usize)>, total: nat) -> Seq<char> {
    seq!['('] + joined_entries(s, total) + seq![')']
}

proof fn lemma_key_less_total(a: Seq<char>, b: Seq<char>)
    requires
        a != b,
    ensures
        key_less(a, b) || key_less(b, a),
    decreases a.len(),
{
    if a.len() > 0 && b.len() > 0 {
        if a[0] == b[0] {
            if a.drop_first() == b.drop_first() {
                assert(a == seq![a[0]] + a.drop_first());
                assert(b == seq![b[0]] + b.drop_first());
            }
            lemma_key_less_total(a.drop_first(), b.drop_first());
        } else {
            assert((a[0] as int) != (b[0] as int));
        }
    } else if a.len() == 0 && b.len() == 0 {
        assert(a == b);
    }
}

proof fn lemma_key_less_transitive(a: Seq<char>, b: Seq<char>, c: Seq<char>)
    requires
        key_less(a, b),
        key_less(b, c),
    ensures
        key_less(a, c),
    decreases a.len(),
{
    if a.len() > 0 && b.len() > 0 && c.len() > 0 && a[0] == b[0] && b[0] == c[0] {
        lemma_key_less_transitive(a.drop_first(), b.drop_first(), c.drop_first());
    }
}

proof fn lemma_outranks_transitive(
    a: Seq<char>,
    x: nat,
    b: Seq<char>,
    y: nat,
    c: Seq<char>,
    z: nat,
)
    requires
        outranks(a, x, b, y),
        outranks(b, y, c, z),
    ensures
        outranks(a, x, c, z),
{
    if x == y && y == z {
        lemma_key_less_transitive(a, b, c);
    }
}

proof fn lemma_outranks_total(a: Seq<char>, x: nat, b: Seq<char>, y: nat)
    requires
        a != b,
    ensures
        outranks(a, x, b, y) || outranks(b, y, a, x),
{
    lemma_key_less_total(a, b);
}

/// Whether `a` comes before `b` in identity order.
fn key_precedes(a: &String, b: &String) -> (r: bool)
    ensures
        r == key_less(a@, b@),
{
    let sa = a.as_str();
    let sb = b.as_str();
    let la = sa.unicode_len();
    let lb = sb.unicode_len();
    let mut i: usize = 0;
    proof {
        assert(a@.skip(0) == a@);
        assert(b@.skip(0) == b@);
    }
    while i < la && i < lb
        invariant
            sa@ == a@,
            sb@ == b@,
            la == a@.len(),
            lb == b@.len(),
            i <= la,
            i <= lb,
            key_less(a@, b@) == key_less(a@.skip(i as int), b@.skip(i as int)),
        decreases la - i,
    {
        let ca = sa.get_char(i);
        let cb = sb.get_char(i);
        if ca != cb {
            proof {
                assert(a@.skip(i as int)[0] == ca);
                assert(b@.skip(i as int)[0] == cb);
            }
            let (xa, xb) = (ca as u32, cb as u32);
            proof {
                assert(xa as int == ca as int);
                assert(xb as int == cb as int);
            }
            return xa < xb;
        }
        proof {
            assert(a@.skip(i as int).drop_first() == a@.skip(i as int + 1));
            assert(b@.skip(i as int).drop_first() == b@.skip(i as int + 1));
        }
        i = i + 1;
    }
    i < lb
}


/// Whether entry `a` ranks before entry `b`.
fn entry_outranks(a: &(String, usize), b: &(String, usize)) -> (r: bool)
    ensures
        r == outranks(a.0@, a.1 as nat, b.0@, b.1 as nat),
{
    a.1 > b.1 || (a.1 == b.1 && key_precedes(&a.0, &b.0))
}

/// Index of the highest-ranked entry.
fn best_index(rest: &Vec<(String, usize)>) -> (b: usize)
    requires
        rest@.len() > 0,
        keys_unique(rest@),
    ensures
        b < rest@.len(),
        forall|j: int|
            0 <= j < rest@.len() && j != b ==> outranks(
                rest@[b as int].0@,
                rest@[b as int].1 as nat,
                #[trigger] rest@[j].0@,
                rest@[j].1 as nat,
            ),
{
    let mut best: usize = 0;
    let mut j: usize = 1;
    while j < rest.len()
        invariant
            keys_unique(rest@),
            1 <= j <= rest@.len(),
            best < j,
            forall|m: int|
                0 <= m < j && m != best ==> outranks(
                    rest@[best as int].0@,
                    rest@[best as int].1 as nat,
                    #[trigger] rest@[m].0@,
                    rest@[m].1 as nat,
                ),
        decreases rest@.len() - j,
    {
        let ghost old_best = best;
        if entry_outranks(&rest[j], &rest[best]) {
            best = j;
            proof {
                let r = rest@;
                assert forall|m: int| 0 <= m < j + 1 && m != best implies outranks(
                    r[best as int].0@,
                    r[best as int].1 as nat,
                    #[trigger] r[m].0@,
                    r[m].1 as nat,
                ) by {
                    if m != old_best {
                        lemma_outranks_transitive(
                            r[best as int].0@,
                            r[best as int].1 as nat,
                            r[old_best as int].0@,
                            r[old_best as int].1 as nat,
                            r[m].0@,
                            r[m].1 as nat,
                        );
                    }
                }
            }
        } else {
            proof {
                lemma_outranks_total(
                    rest@[j as int].0@,
                    rest@[j as int].1 as nat,
                    rest@[best as int].0@,
                    rest@[best as int].1 as nat,
                );
            }
        }
        j = j + 1;
    }
    best
}

impl Contributions {
    /// The `n` authors with the most lines, most lines first; authors with equal counts come
    /// in identity order.
    pub fn top_authors(&self, n: usize) -> (r: Vec<(String, usize)>)
        requires
            self.wf(),
        ensures
            is_top_authors(self.authors@, n as nat, r@),
    {
        let ghost e = self.authors@;
        let ghost m = count_map(e);
        let mut rest: Vec<(String, usize)> = Vec::new();
        let mut i: usize = 0;
        while i < self.authors.len()
            invariant
                e == self.authors@,
                keys_unique(e),
                i <= e.len(),
                rest@ == e.take(i as int),
            decreases e.len() - i,
        {
            rest.push((self.authors[i].0.clone(), self.authors[i].1));
            proof {
                assert(rest@ == e.take(i as int + 1));
            }
            i = i + 1;
        }
        proof {
            assert(rest@ == e);
            assert forall|b: int| 0 <= b < rest@.len() implies m.contains_key(#[trigger] rest@[b].0@)
                && m[rest@[b].0@] == rest@[b].1 as nat by {
                lemma_count_map_index(e, b);
            }
        }
        let mut top: Vec<(String, usize)> = Vec::new();
        while top.len() < n && rest.len() > 0
            invariant
                m == count_map(e),
                keys_unique(e),
                keys_unique(rest@),
                keys_unique(top@),
                top@.len() + rest@.len() == e.len(),
                top@.len() <= n,
                forall|a: int, b: int|
                    0 <= a < top@.len() && 0 <= b < rest@.len() ==> top@[a].0@ != rest@[b].0@,
                forall|a: int|
                    0 <= a < top@.len() ==> m.contains_key(#[trigger] top@[a].0@) && m[top@[a].0@]
                        == top@[a].1 as nat,
                forall|b: int|
                    0 <= b < rest@.len() ==> m.contains_key(#[trigger] rest@[b].0@) && m[rest@[b].0@]
                        == rest@[b].1 as nat,
                forall|k: Seq<char>|
                    m.contains_key(k) ==> count_map(top@).contains_key(k) || count_map(
                        rest@,
                    ).contains_key(k),
                forall|a: int, b: int|
                    0 <= a < b < top@.len() ==> outranks(
                        top@[a].0@,
                        top@[a].1 as nat,
                        top@[b].0@,
                        top@[b].1 as nat,
                    ),
                forall|a: int, b: int|
                    0 <= a < top@.len() && 0 <= b < rest@.len() ==> outranks(
                        #[trigger] top@[a].0@,
                        top@[a].1 as nat,
                        #[trigger] rest@[b].0@,
                        rest@[b].1 as nat,
                    ),
            decreases rest@.len(),
        {
            let b = best_index(&rest);
            let ghost r0 = rest@;
            let ghost t0 = top@;
            let x = rest.remove(b);
            top.push(x);
            proof {
                assert(top@.drop_last() == t0);
                assert forall|k: Seq<char>| m.contains_key(k) implies count_map(top@).contains_key(k)
                    || count_map(rest@).contains_key(k) by {
                    lemma_count_map_domain(t0, k);
                    lemma_count_map_domain(top@, k);
                    lemma_count_map_domain(r0, k);
                    lemma_count_map_domain(rest@, k);
                    if count_map(r0).contains_key(k) {
                        let j = choose|j: int| 0 <= j < r0.len() && r0[j].0@ == k;
                        if j < b {
                            assert(rest@[j].0@ == k);
                        } else if j > b {
                            assert(rest@[j - 1].0@ == k);
                        } else {
                            assert(top@[t0.len() as int].0@ == k);
                        }
                    } else {
                        let j = choose|j: int| 0 <= j < t0.len() && t0[j].0@ == k;
                        assert(top@[j].0@ == k);
                    }
                }
                assert forall|a: int, c: int|
                    0 <= a < top@.len() && 0 <= c < rest@.len() implies outranks(
                        #[trigger] top@[a].0@,
                        top@[a].1 as nat,
                        #[trigger] rest@[c].0@,
                        rest@[c].1 as nat,
                    ) by {
                    let c0 = if c < b { c } else { c + 1 };
                    assert(rest@[c] == r0[c0]);
                    if a < t0.len() {
                        assert(top@[a] == t0[a]);
                    }
                }
                assert forall|a: int, c: int| 0 <= a < c < top@.len() implies outranks(
                    top@[a].0@,
                    top@[a].1 as nat,
                    top@[c].0@,
                    top@[c].1 as nat,
                ) by {
                    if c == t0.len() {
                        assert(top@[a] == t0[a]);
                        assert(top@[c] == r0[b as int]);
                    } else {
                        assert(top@[a] == t0[a]);
                        assert(top@[c] == t0[c]);
                    }
                }
            }
        }
        proof {
            assert forall|k: Seq<char>, a: int|
                m.contains_key(k) && !count_map(top@).contains_key(k) && 0 <= a < top@.len() implies outranks(
                #[trigger] top@[a].0@,
                top@[a].1 as nat,
                k,
                #[trigger] m[k],
            ) by {
                lemma_count_map_domain(rest@, k);
                let c = choose|c: int| 0 <= c < rest@.len() && rest@[c].0@ == k;
                assert(rest@[c].0@ == k);
            }
        }
        top
    }

    /// The top `num_authors` authors with their shares, e.g. `(a@x: 66.7%, b@x: 33.3%)`.
    pub fn authors_str(&self, num_authors: usize) -> (r: String)
        requires
            self.wf(),
        ensures
            exists|t: Seq<(String, usize)>|
                is_top_authors(self.authors@, num_authors as nat, t) && r@ == authors_text(
                    t,
                    self.total_lines as nat,
                ),
    {
        let top = self.top_authors(num_authors);
        let ghost e = self.authors@;
        let ghost total = self.total_lines as nat;
        let mut s = String::from_str("(");
        proof {
            reveal_strlit("(");
            reveal_strlit(", ");
            reveal_strlit(": ");
            reveal_strlit("%");
            reveal_strlit(")");
            assert("("@ =~= seq!['(']);
            assert(", "@ =~= seq![',', ' ']);
            assert(": "@ =~= seq![':', ' ']);
            assert("%"@ =~= seq!['%']);
            assert(")"@ =~= seq![')']);
            assert(s@ =~= seq!['('] + joined_entries(top@.take(0), total));
        }
        let mut i: usize = 0;
        while i < top.len()
            invariant
                self.wf(),
                e == self.authors@,
                total == self.total_lines,
                is_top_authors(e, num_authors as nat, top@),
                i <= top@.len(),
                s@ == seq!['('] + joined_entries(top@.take(i as int), total),
            decreases top@.len() - i,
        {
            proof {
                reveal_strlit(", ");
                reveal_strlit(": ");
                reveal_strlit("%");
                assert(", "@ =~= seq![',', ' ']);
                assert(": "@ =~= seq![':', ' ']);
                assert("%"@ =~= seq!['%']);
                let k = top@[i as int].0@;
                lemma_count_map_domain(e, k);
                let j = choose|j: int| 0 <= j < e.len() && e[j].0@ == k;
                lemma_count_map_index(e, j);
                lemma_entry_le_sum(e, j);
                assert(top@.take(i as int + 1).drop_last() == top@.take(i as int));
                assert(top@.take(i as int + 1).last() == top@[i as int]);
            }
            let ghost s0 = s@;
            if i > 0 {
                s.append(", ");
            }
            let ghost s1 = s@;
            s.append(top[i].0.as_str());
            s.append(": ");
            push_share(&mut s, top[i].1, self.total_lines);
            s.append("%");
            proof {
                let t = entry_text(top@[i as int], total);
                assert(s@ =~= s1 + t);
                if i == 0 {
                    assert(top@.take(1) =~= seq![top@[0]]);
                    assert(s1 == s0);
                    assert(s@ =~= seq!['('] + joined_entries(top@.take(i as int + 1), total));
                } else {
                    assert(s1 == s0 + seq![',', ' ']);
                    assert(joined_entries(top@.take(i as int + 1), total) == joined_entries(
                        top@.take(i as int),
                        total,
                    ) + seq![',', ' '] + t);
                    assert(s@ =~= seq!['('] + joined_entries(top@.take(i as int + 1), total));
                }
            }
            i = i + 1;
        }
        s.append(")");
        proof {
            assert(top@.take(top@.len() as int) == top@);
            assert(s@ =~= authors_text(top@, total));
            assert(is_top_authors(e, num_authors as nat, top@) && s@ == authors_text(top@, total));
        }
        s
    }
}


/// Name `i` comes before name `j`: in identity order, equal names in their given order.
pub open spec fn name_before(names: Seq<String>, i: int, j: int) -> bool {
    key_less(names[i]@, names[j]@) || (names[i]@ == names[j]@ && i < j)
}

proof fn lemma_name_transitive(names: Seq<String>, i: int, j: int, k: int)
    requires
        name_before(names, i, j),
        name_before(names, j, k),
    ensures
        name_before(names, i, k),
{
    if key_less(names[i]@, names[j]@) && key_less(names[j]@, names[k]@) {
        lemma_key_less_transitive(names[i]@, names[j]@, names[k]@);
    }
}

proof fn lemma_name_total(names: Seq<String>, i: int, j: int)
    requires
        i != j,
    ensures
        name_before(names, i, j) || name_before(names, j, i),
{
    if names[i]@ != names[j]@ {
        lemma_key_less_total(names[i]@, names[j]@);
    }
}

/// The positions of `names` in name order, equal names in their given order.
pub fn order_by_name(names: &Vec<String>) -> (r: Vec<usize>)
    ensures
        r@.len() == names@.len(),
        forall|k: int| 0 <= k < r@.len() ==> #[trigger] r@[k] < names@.len(),
        forall|i: int| 0 <= i < names@.len() ==> #[trigger] r@.contains(i as usize),
        forall|k: int, l: int| 0 <= k < l < r@.len() ==> name_before(names@, r@[k] as int, r@[l] as int),
{
    let ghost ns = names@;
    let mut rest: Vec<usize> = Vec::new();
    let mut i: usize = 0;
    while i < names.len()
        invariant
            i <= ns.len(),
            ns == names@,
            rest@.len() == i,
            forall|k: int| 0 <= k < i ==> rest@[k] == k,
        decreases ns.len() - i,
    {
        rest.push(i);
        i = i + 1;
    }
    proof {
        assert forall|m: int| 0 <= m < ns.len() implies #[trigger] rest@.contains(m as usize) by {
            assert(rest@[m] == m as usize);
        }
    }
    let mut out: Vec<usize> = Vec::new();
    while rest.len() > 0
        invariant
            ns == names@,
            out@.len() + rest@.len() == ns.len(),
            forall|k: int| 0 <= k < rest@.len() ==> #[trigger] rest@[k] < ns.len(),
            forall|k: int| 0 <= k < out@.len() ==> #[trigger] out@[k] < ns.len(),
            forall|a: int, b: int| 0 <= a < rest@.len() && 0 <= b < rest@.len() && a != b ==> rest@[a] != rest@[b],
            forall|m: int|
                #![trigger rest@.contains(m as usize)]
                #![trigger out@.contains(m as usize)]
                0 <= m < ns.len() ==> rest@.contains(m as usize) || out@.contains(m as usize),
            forall|k: int, l: int| 0 <= k < l < out@.len() ==> name_before(ns, out@[k] as int, out@[l] as int),
            forall|k: int, l: int|
                0 <= k < out@.len() && 0 <= l < rest@.len() ==> name_before(ns, #[trigger] out@[k] as int, #[trigger] rest@[l] as int),
        decreases rest@.len(),
    {
        let mut best: usize = 0;
        let mut j: usize = 1;
        while j < rest.len()
            invariant
                ns == names@,
                forall|k: int| 0 <= k < rest@.len() ==> #[trigger] rest@[k] < ns.len(),
                forall|a: int, b: int| 0 <= a < rest@.len() && 0 <= b < rest@.len() && a != b ==> rest@[a] != rest@[b],
                1 <= j <= rest@.len(),
                best < j,
                forall|m: int| 0 <= m < j && m != best ==> name_before(ns, rest@[best as int] as int, #[trigger] rest@[m] as int),
            decreases rest@.len() - j,
        {
            let ghost old_best = best;
            let (cj, cb) = (rest[j], rest[best]);
            let earlier = key_precedes(&names[cj], &names[cb]) || (names[cj] == names[cb] && cj < cb);
            if earlier {
                best = j;
                proof {
                    assert forall|m: int| 0 <= m < j + 1 && m != best implies name_before(
                        ns,
                        rest@[best as int] as int,
                        #[trigger] rest@[m] as int,
                    ) by {
                        if m != old_best {
                            lemma_name_transitive(ns, rest@[best as int] as int, rest@[old_best as int] as int, rest@[m] as int);
                        }
                    }
                }
            } else {
                proof {
                    lemma_name_total(ns, rest@[j as int] as int, rest@[best as int] as int);
                }
            }
            j = j + 1;
        }
        let ghost r0 = rest@;
        let ghost o0 = out@;
        let x = rest.remove(best);
        out.push(x);
        proof {
            assert(out@.drop_last() == o0);
            assert forall|k: int, l: int| 0 <= k < l < out@.len() implies name_before(ns, out@[k] as int, out@[l] as int) by {
                if l == o0.len() {
                    assert(out@[k] == o0[k]);
                    assert(out@[l] == r0[best as int]);
                } else {
                    assert(out@[k] == o0[k]);
                    assert(out@[l] == o0[l]);
                }
            }
            assert forall|k: int, l: int|
                0 <= k < out@.len() && 0 <= l < rest@.len() implies name_before(ns, #[trigger] out@[k] as int, #[trigger] rest@[l] as int) by {
                let l0 = if l < best { l } else { l + 1 };
                assert(rest@[l] == r0[l0]);
                if k < o0.len() {
                    assert(out@[k] == o0[k]);
                } else {
                    assert(out@[k] == r0[best as int]);
                }
            }
            assert forall|a: int, b: int| 0 <= a < rest@.len() && 0 <= b < rest@.len() && a != b implies rest@[a] != rest@[b] by {
                let a0 = if a < best { a } else { a + 1 };
                let b0 = if b < best { b } else { b + 1 };
                assert(rest@[a] == r0[a0]);
                assert(rest@[b] == r0[b0]);
            }
            assert forall|m: int| 0 <= m < ns.len() implies #[trigger] rest@.contains(m as usize) || out@.contains(m as usize) by {
                if r0.contains(m as usize) {
                    let k = choose|k: int| 0 <= k < r0.len() && r0[k] == m as usize;
                    if k < best {
                        assert(rest@[k] == m as usize);
                    } else if k > best {
                        assert(rest@[k - 1] == m as usize);
                    } else {
                        assert(out@[o0.len() as int] == m as usize);
                    }
                } else {
                    let k = choose|k: int| 0 <= k < o0.len() && o0[k] == m as usize;
                    assert(out@[k] == m as usize);
                }
            }
        }
    }
    out
}

} // verus!
