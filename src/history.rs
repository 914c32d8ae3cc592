use vstd::prelude::*;

use crate::assoc::find_key;
use crate::record::{Contributions, count_of};
use crate::reducer::{
    Partial, contrib_view, key_index, keys_distinct, lemma_key_index, lemma_key_index_is, lines_in,
    opt_view, renames_view,
};

verus! {

/// The kind of change a diff delta records, as far as attribution tells kinds apart.
pub enum DeltaStatus {
    Added,
    Modified,
    Renamed,
    Other,
}

/// One file of a commit's diff against its parent: both sides' paths and existence, the kind
/// of change, and per hunk the old and the new line count.
pub struct FileDelta {
    pub old_exists: bool,
    pub old_path: Option<String>,
    pub new_exists: bool,
    pub new_path: Option<String>,
    pub status: DeltaStatus,
    pub hunks: Vec<(u32, u32)>,
}

/// The delta's hunks are credited to the commit's author at its new path: the file was added,
/// modified, or renamed (with its changes).
pub open spec fn delta_attributable(d: FileDelta) -> bool {
    &&& d.new_exists
    &&& (d.status is Added || d.status is Modified || d.status is Renamed)
    &&& d.new_path is Some
}

/// The delta moves content away from its old path.
pub open spec fn delta_renames(d: FileDelta) -> bool {
    &&& d.old_exists
    &&& d.old_path is Some
    &&& opt_view(d.old_path) != opt_view(d.new_path)
}

/// Lines changed in a hunk: the larger of its old and new line counts.
pub open spec fn hunk_span(h: (u32, u32)) -> nat {
    if h.0 >= h.1 {
        h.0 as nat
    } else {
        h.1 as nat
    }
}

/// A record with `n` more lines by `a`.
pub open spec fn add_author_lines(r: (Map<Seq<char>, nat>, nat), a: Seq<char>, n: nat) -> (
    Map<Seq<char>, nat>,
    nat,
) {
    (r.0.insert(a, count_of(r.0, a) + n), r.1 + n)
}

/// Credits `n` lines by `a` at `path`, creating the path's record if needed.
pub open spec fn credit(
    acc: Seq<(Seq<char>, (Map<Seq<char>, nat>, nat))>,
    path: Seq<char>,
    a: Seq<char>,
    n: nat,
) -> Seq<(Seq<char>, (Map<Seq<char>, nat>, nat))> {
    let j = key_index(acc, path);
    if j >= 0 {
        acc.update(j, (path, add_author_lines(acc[j].1, a, n)))
    } else {
        acc.push((path, add_author_lines((Map::empty(), 0), a, n)))
    }
}

/// Credits every hunk at `path` to `a`, in order.
pub open spec fn credit_hunks(
    acc: Seq<(Seq<char>, (Map<Seq<char>, nat>, nat))>,
    path: Seq<char>,
    a: Seq<char>,
    hunks: Seq<(u32, u32)>,
) -> Seq<(Seq<char>, (Map<Seq<char>, nat>, nat))>
    decreases hunks.len(),
{
    if hunks.len() == 0 {
        acc
    } else {
        credit(credit_hunks(acc, path, a, hunks.drop_last()), path, a, hunk_span(hunks.last()))
    }
}

/// The records of one commit: the hunks of every attributable delta credited to the author.
pub open spec fn credit_deltas(author: Option<Seq<char>>, deltas: Seq<FileDelta>) -> Seq<
    (Seq<char>, (Map<Seq<char>, nat>, nat)),
>
    decreases deltas.len(),
{
    if deltas.len() == 0 {
        Seq::empty()
    } else {
        let acc = credit_deltas(author, deltas.drop_last());
        let d = deltas.last();
        match author {
            Some(a) => if delta_attributable(d) {
                credit_hunks(acc, d.new_path->Some_0@, a, d.hunks@)
            } else {
                acc
            },
            None => acc,
        }
    }
}

/// Sets the edge leaving `from`, replacing the one there.
pub open spec fn set_edge(
    acc: Seq<(Seq<char>, Option<Seq<char>>)>,
    from: Seq<char>,
    to: Option<Seq<char>>,
) -> Seq<(Seq<char>, Option<Seq<char>>)> {
    let j = key_index(acc, from);
    if j >= 0 {
        acc.update(j, (from, to))
    } else {
        acc.push((from, to))
    }
}

/// The rename edges of one commit: old path to new path, or to `None` where the file is gone.
pub open spec fn edges_of(deltas: Seq<FileDelta>) -> Seq<(Seq<char>, Option<Seq<char>>)>
    decreases deltas.len(),
{
    if deltas.len() == 0 {
        Seq::empty()
    } else {
        let acc = edges_of(deltas.drop_last());
        let d = deltas.last();
        if delta_renames(d) {
            set_edge(acc, d.old_path->Some_0@, opt_view(d.new_path))
        } else {
            acc
        }
    }
}

/// Sum of the spans of the hunks.
pub open spec fn hunks_span(hunks: Seq<(u32, u32)>) -> nat
    decreases hunks.len(),
{
    if hunks.len() == 0 {
        0
    } else {
        hunks_span(hunks.drop_last()) + hunk_span(hunks.last())
    }
}

/// Sum of the spans of all hunks of the deltas.
pub open spec fn deltas_span(deltas: Seq<FileDelta>) -> nat
    decreases deltas.len(),
{
    if deltas.len() == 0 {
        0
    } else {
        deltas_span(deltas.drop_last()) + hunks_span(deltas.last().hunks@)
    }
}

proof fn lemma_hunks_prefix(h: Seq<(u32, u32)>, i: int)
    requires
        0 <= i <= h.len(),
    ensures
        hunks_span(h.take(i)) <= hunks_span(h),
    decreases h.len(),
{
    if i < h.len() {
        assert(h.take(i) == h.drop_last().take(i));
        lemma_hunks_prefix(h.drop_last(), i);
    } else {
        assert(h.take(i) == h);
    }
}

proof fn lemma_deltas_prefix(d: Seq<FileDelta>, i: int)
    requires
        0 <= i <= d.len(),
    ensures
        deltas_span(d.take(i)) <= deltas_span(d),
    decreases d.len(),
{
    if i < d.len() {
        assert(d.take(i) == d.drop_last().take(i));
        lemma_deltas_prefix(d.drop_last(), i);
    } else {
        assert(d.take(i) == d);
    }
}

fn same_path(a: &Option<String>, b: &Option<String>) -> (r: bool)
    ensures
        r == (opt_view(*a) == opt_view(*b)),
{
    match (a, b) {
        (Some(x), Some(y)) => *x == *y,
        (None, None) => true,
        _ => false,
    }
}

fn copy_path(a: &Option<String>) -> (r: Option<String>)
    ensures
        opt_view(r) == opt_view(*a),
{
    match a {
        Some(x) => Some(x.clone()),
        None => None,
    }
}

/// Credits `n` lines by `author` at `path`.
fn credit_path(acc: &mut Vec<(String, Contributions)>, path: &String, author: &String, n: usize)
    requires
        keys_distinct(contrib_view(old(acc)@)),
        forall|m: int| 0 <= m < old(acc)@.len() ==> (#[trigger] old(acc)@[m]).1.wf(),
        lines_in(contrib_view(old(acc)@)) + n <= usize::MAX,
    ensures
        contrib_view(final(acc)@) == credit(contrib_view(old(acc)@), path@, author@, n as nat),
        keys_distinct(contrib_view(final(acc)@)),
        forall|m: int| 0 <= m < final(acc)@.len() ==> (#[trigger] final(acc)@[m]).1.wf(),
        lines_in(contrib_view(final(acc)@)) == lines_in(contrib_view(old(acc)@)) + n,
{
    let ghost a = contrib_view(acc@);
    let ghost a0 = acc@;
    match find_key(acc, path) {
        Some(j) => {
            proof {
                lemma_key_index_is(a, path@, j as int);
                crate::reducer::lemma_lines_entry(a, j as int);
            }
            let mut e = acc.remove(j);
            e.1.add_lines(author.clone(), n);
            acc.insert(j, e);
            proof {
                let x = (path@, add_author_lines(a[j as int].1, author@, n as nat));
                assert(acc@ =~= a0.update(j as int, e));
                assert(contrib_view(acc@) =~= a.update(j as int, x));
                crate::reducer::lemma_lines_update(a, j as int, x);
                assert forall|m: int| 0 <= m < acc@.len() implies (#[trigger] acc@[m]).1.wf() by {
                    if m != j {
                        assert(acc@[m] == a0[m]);
                    }
                }
            }
        },
        None => {
            proof {
                lemma_key_index(a, path@);
                if key_index(a, path@) >= 0 {
                    assert(a[key_index(a, path@)].0 == a0[key_index(a, path@)].0@);
                }
            }
            let mut c = Contributions::new();
            c.add_lines(author.clone(), n);
            acc.push((path.clone(), c));
            proof {
                assert(c.author_map() =~= Map::<Seq<char>, nat>::empty().insert(author@, n as nat));
                assert(contrib_view(acc@) =~= a.push(
                    (path@, add_author_lines((Map::empty(), 0), author@, n as nat)),
                ));
                assert(contrib_view(acc@).drop_last() == a);
                assert forall|m: int| 0 <= m < acc@.len() implies (#[trigger] acc@[m]).1.wf() by {
                    if m < a0.len() {
                        assert(acc@[m] == a0[m]);
                    }
                }
            }
        },
    }
}

/// Sets the edge leaving `from` to `to`.
fn put_edge(acc: &mut Vec<(String, Option<String>)>, from: String, to: Option<String>)
    requires
        keys_distinct(renames_view(old(acc)@)),
    ensures
        renames_view(final(acc)@) == set_edge(renames_view(old(acc)@), from@, opt_view(to)),
        keys_distinct(renames_view(final(acc)@)),
{
    let ghost a = renames_view(acc@);
    let ghost a0 = acc@;
    match find_key(acc, &from) {
        Some(j) => {
            proof {
                lemma_key_index_is(a, from@, j as int);
            }
            acc.set(j, (from, to));
            proof {
                assert(renames_view(acc@) =~= a.update(j as int, (from@, opt_view(to))));
            }
        },
        None => {
            proof {
                lemma_key_index(a, from@);
                if key_index(a, from@) >= 0 {
                    assert(a[key_index(a, from@)].0 == a0[key_index(a, from@)].0@);
                }
            }
            acc.push((from, to));
            proof {
                assert(renames_view(acc@) =~= a.push((from@, opt_view(to))));
            }
        },
    }
}


/// What one commit contributes: the hunks of every added, modified or renamed file credited to the
/// commit's author at the file's new path, and the commit's rename edges. Without an author,
/// no lines are credited but the rename edges are still recorded.
pub fn commit_partial(author: Option<String>, deltas: &Vec<FileDelta>) -> (r: Partial)
    requires
        deltas_span(deltas@) <= usize::MAX,
    ensures
        r.wf(),
        r.records() == credit_deltas(opt_view(author), deltas@),
        r.edges() == edges_of(deltas@),
        lines_in(r.records()) <= deltas_span(deltas@),
{
    let ghost ds = deltas@;
    let ghost av = opt_view(author);
    let mut contributions: Vec<(String, Contributions)> = Vec::new();
    let mut renames: Vec<(String, Option<String>)> = Vec::new();
    let mut i: usize = 0;
    proof {
        assert(ds.take(0) =~= Seq::<FileDelta>::empty());
        assert(contrib_view(contributions@) =~= Seq::<(Seq<char>, (Map<Seq<char>, nat>, nat))>::empty());
        assert(renames_view(renames@) =~= Seq::<(Seq<char>, Option<Seq<char>>)>::empty());
    }
    while i < deltas.len()
        invariant
            ds == deltas@,
            av == opt_view(author),
            deltas_span(ds) <= usize::MAX,
            i <= ds.len(),
            contrib_view(contributions@) == credit_deltas(av, ds.take(i as int)),
            renames_view(renames@) == edges_of(ds.take(i as int)),
            keys_distinct(contrib_view(contributions@)),
            keys_distinct(renames_view(renames@)),
            forall|m: int| 0 <= m < contributions@.len() ==> (#[trigger] contributions@[m]).1.wf(),
            lines_in(contrib_view(contributions@)) <= deltas_span(ds.take(i as int)),
        decreases ds.len() - i,
    {
        let d = &deltas[i];
        proof {
            assert(ds.take(i as int + 1).drop_last() == ds.take(i as int));
            assert(ds.take(i as int + 1).last() == ds[i as int]);
            lemma_deltas_prefix(ds, i as int + 1);
        }
        if d.old_exists && !same_path(&d.old_path, &d.new_path) {
            match &d.old_path {
                Some(old) => {
                    put_edge(&mut renames, old.clone(), copy_path(&d.new_path));
                },
                None => {},
            }
        }
        let attributable = d.new_exists && match d.status {
            DeltaStatus::Added => true,
            DeltaStatus::Modified => true,
            DeltaStatus::Renamed => true,
            DeltaStatus::Other => false,
        };
        match &author {
            Some(a) => {
                if attributable {
                    match &d.new_path {
                        Some(p) => {
                            let ghost base = contrib_view(contributions@);
                            let ghost l0 = lines_in(base);
                            let ghost hs = d.hunks@;
                            let mut k: usize = 0;
                            proof {
                                assert(hs.take(0) =~= Seq::<(u32, u32)>::empty());
                            }
                            while k < d.hunks.len()
                                invariant
                                    hs == d.hunks@,
                                    k <= hs.len(),
                                    l0 + hunks_span(hs) <= usize::MAX,
                                    contrib_view(contributions@) == credit_hunks(
                                        base,
                                        p@,
                                        a@,
                                        hs.take(k as int),
                                    ),
                                    keys_distinct(contrib_view(contributions@)),
                                    forall|m: int|
                                        0 <= m < contributions@.len() ==> (
                                        #[trigger] contributions@[m]).1.wf(),
                                    lines_in(contrib_view(contributions@)) == l0 + hunks_span(
                                        hs.take(k as int),
                                    ),
                                decreases hs.len() - k,
                            {
                                let (o, n) = d.hunks[k];
                                let span: u32 = if o >= n { o } else { n };
                                proof {
                                    assert(hs.take(k as int + 1).drop_last() == hs.take(k as int));
                                    assert(hs.take(k as int + 1).last() == hs[k as int]);
                                    lemma_hunks_prefix(hs, k as int + 1);
                                }
                                credit_path(&mut contributions, p, a, span as usize);
                                k = k + 1;
                            }
                            proof {
                                assert(hs.take(k as int) == hs);
                            }
                        },
                        None => {},
                    }
                }
            },
            None => {},
        }
        i = i + 1;
    }
    proof {
        assert(ds.take(ds.len() as int) == ds);
    }
    Partial { contributions, renames }
}

} // verus!
