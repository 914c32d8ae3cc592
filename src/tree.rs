use vstd::prelude::*;
use vstd::string::*;

use crate::record::{Contributions, add_maps};
use crate::reducer::{add_recs, rec_view};

verus! {

/// The segments of a path, seen as character sequences.
pub open spec fn seg_view(v: Seq<String>) -> Seq<Seq<char>> {
    v.map_values(|s: String| s@)
}

/// Scanning a path left to right: the segments completed so far and the one being read.
pub open spec fn split_state(s: Seq<char>) -> (Seq<Seq<char>>, Seq<char>)
    decreases s.len(),
{
    if s.len() == 0 {
        (Seq::empty(), Seq::empty())
    } else {
        let (done, cur) = split_state(s.drop_last());
        if s.last() == '/' {
            if cur.len() > 0 {
                (done.push(cur), Seq::empty())
            } else {
                (done, Seq::empty())
            }
        } else {
            (done, cur.push(s.last()))
        }
    }
}

/// The non-empty `/`-separated segments of a path, in order.
pub open spec fn segments_of(s: Seq<char>) -> Seq<Seq<char>> {
    let (done, cur) = split_state(s);
    if cur.len() > 0 {
        done.push(cur)
    } else {
        done
    }
}

/// `p` is a leading part of `s`.
pub open spec fn is_prefix(p: Seq<Seq<char>>, s: Seq<Seq<char>>) -> bool {
    p.len() <= s.len() && s.subrange(0, p.len() as int) == p
}

/// The record of the directory `p`: the merge of the records of every file below it.
pub open spec fn subtree(files: Seq<(Vec<String>, Contributions)>, p: Seq<Seq<char>>) -> (
    Map<Seq<char>, nat>,
    nat,
)
    decreases files.len(),
{
    if files.len() == 0 {
        (Map::empty(), 0)
    } else {
        let acc = subtree(files.drop_last(), p);
        if is_prefix(p, seg_view(files.last().0@)) {
            add_recs(acc, rec_view(files.last().1))
        } else {
            acc
        }
    }
}

/// Sum of the totals of the files.
pub open spec fn files_lines(files: Seq<(Vec<String>, Contributions)>) -> nat
    decreases files.len(),
{
    if files.len() == 0 {
        0
    } else {
        files_lines(files.drop_last()) + files.last().1.total_lines as nat
    }
}

/// Some node stands for directory `p`.
pub open spec fn has_node(n: Seq<(Vec<String>, Contributions)>, p: Seq<Seq<char>>) -> bool {
    exists|a: int| 0 <= a < n.len() && seg_view(n[a].0@) == p
}

/// Directories aggregated from files: one node per leading part of a file's path (the empty
/// part is the root), each with the merged record of the files below it.
pub struct DirTree {
    pub nodes: Vec<(Vec<String>, Contributions)>,
}

impl DirTree {
    /// The tree holds exactly the directories of `files`, each with its aggregated record.
    pub open spec fn aggregates(&self, files: Seq<(Vec<String>, Contributions)>) -> bool {
        let n = self.nodes@;
        &&& forall|a: int, b: int|
            0 <= a < b < n.len() ==> seg_view(n[a].0@) != seg_view(n[b].0@)
        &&& forall|a: int|
            0 <= a < n.len() ==> exists|f: int|
                0 <= f < files.len() && is_prefix(
                    seg_view(#[trigger] n[a].0@),
                    seg_view(files[f].0@),
                )
        &&& forall|f: int, k: int|
            0 <= f < files.len() && 0 <= k <= files[f].0@.len() ==> #[trigger] has_node(
                n,
                seg_view(files[f].0@).take(k),
            )
        &&& forall|a: int|
            0 <= a < n.len() ==> (#[trigger] n[a]).1.wf() && rec_view(n[a].1) == subtree(
                files,
                seg_view(n[a].0@),
            )
    }
}

proof fn lemma_subtree_bound(files: Seq<(Vec<String>, Contributions)>, p: Seq<Seq<char>>)
    ensures
        subtree(files, p).1 <= files_lines(files),
    decreases files.len(),
{
    if files.len() > 0 {
        lemma_subtree_bound(files.drop_last(), p);
    }
}

proof fn lemma_subtree_none(files: Seq<(Vec<String>, Contributions)>, p: Seq<Seq<char>>)
    requires
        forall|f: int| 0 <= f < files.len() ==> !is_prefix(p, seg_view(#[trigger] files[f].0@)),
    ensures
        subtree(files, p) == (Map::<Seq<char>, nat>::empty(), 0nat),
    decreases files.len(),
{
    if files.len() > 0 {
        assert forall|f: int| 0 <= f < files.drop_last().len() implies !is_prefix(
            p,
            seg_view(#[trigger] files.drop_last()[f].0@),
        ) by {
            assert(files.drop_last()[f] == files[f]);
        }
        lemma_subtree_none(files.drop_last(), p);
        assert(!is_prefix(p, seg_view(files[files.len() - 1].0@)));
    }
}

proof fn lemma_files_prefix(files: Seq<(Vec<String>, Contributions)>, i: int)
    requires
        0 <= i <= files.len(),
    ensures
        files_lines(files.take(i)) <= files_lines(files),
    decreases files.len(),
{
    if i < files.len() {
        assert(files.take(i) == files.drop_last().take(i));
        lemma_files_prefix(files.drop_last(), i);
    } else {
        assert(files.take(i) == files);
    }
}

/// Whether two segment lists are equal.
fn same_segments(a: &Vec<String>, b: &Vec<String>) -> (r: bool)
    ensures
        r == (seg_view(a@) == seg_view(b@)),
{
    if a.len() != b.len() {
        proof {
            assert(seg_view(a@).len() != seg_view(b@).len());
        }
        return false;
    }
    let mut i: usize = 0;
    while i < a.len()
        invariant
            a@.len() == b@.len(),
            i <= a@.len(),
            forall|j: int| 0 <= j < i ==> a@[j]@ == b@[j]@,
        decreases a@.len() - i,
    {
        if a[i] != b[i] {
            proof {
                assert(seg_view(a@)[i as int] != seg_view(b@)[i as int]);
            }
            return false;
        }
        i = i + 1;
    }
    proof {
        assert(seg_view(a@) =~= seg_view(b@));
    }
    true
}

/// Position of the node for `p`, if any.
fn find_node(nodes: &Vec<(Vec<String>, Contributions)>, p: &Vec<String>) -> (r: Option<usize>)
    ensures
        match r {
            Some(i) => i < nodes@.len() && seg_view(nodes@[i as int].0@) == seg_view(p@),
            None => forall|j: int| 0 <= j < nodes@.len() ==> seg_view(nodes@[j].0@) != seg_view(p@),
        },
{
    let mut i: usize = 0;
    while i < nodes.len()
        invariant
            i <= nodes@.len(),
            forall|j: int| 0 <= j < i ==> seg_view(nodes@[j].0@) != seg_view(p@),
        decreases nodes@.len() - i,
    {
        if same_segments(&nodes[i].0, p) {
            return Some(i);
        }
        i = i + 1;
    }
    None
}

/// Splits a slash-separated path into its non-empty segments.
pub fn path_segments(path: &str) -> (r: Vec<String>)
    ensures
        seg_view(r@) == segments_of(path@),
{
    let n = path.unicode_len();
    let mut out: Vec<String> = Vec::new();
    let mut start: usize = 0;
    let mut i: usize = 0;
    proof {
        assert(path@.take(0) =~= Seq::<char>::empty());
        assert(seg_view(out@) =~= Seq::<Seq<char>>::empty());
        assert(path@.subrange(0, 0) =~= Seq::<char>::empty());
    }
    while i < n
        invariant
            n == path@.len(),
            start <= i <= n,
            split_state(path@.take(i as int)) == (seg_view(out@), path@.subrange(start as int, i as int)),
        decreases n - i,
    {
        let ch = path.get_char(i);
        let ghost o0 = out@;
        proof {
            assert(path@.take(i as int + 1).drop_last() == path@.take(i as int));
            assert(path@.take(i as int + 1).last() == ch);
        }
        if ch == '/' {
            if i > start {
                let seg = String::from_str(path.substring_char(start, i));
                out.push(seg);
                proof {
                    assert(seg_view(out@) =~= seg_view(o0).push(path@.subrange(start as int, i as int)));
                }
            }
            start = i + 1;
            proof {
                assert(path@.subrange(start as int, i as int + 1) =~= Seq::<char>::empty());
            }
        } else {
            proof {
                assert(path@.subrange(start as int, i as int + 1) =~= path@.subrange(start as int, i as int).push(ch));
            }
        }
        i = i + 1;
    }
    proof {
        assert(path@.take(n as int) == path@);
    }
    if n > start {
        let seg = String::from_str(path.substring_char(start, n));
        let ghost o0 = out@;
        out.push(seg);
        proof {
            assert(seg_view(out@) =~= seg_view(o0).push(path@.subrange(start as int, n as int)));
        }
    }
    out
}

fn copy_segments(v: &Vec<String>) -> (r: Vec<String>)
    ensures
        r@ == v@,
{
    let mut r: Vec<String> = Vec::new();
    let mut i: usize = 0;
    while i < v.len()
        invariant
            i <= v@.len(),
            r@ == v@.take(i as int),
        decreases v@.len() - i,
    {
        r.push(v[i].clone());
        proof {
            assert(r@ =~= v@.take(i as int + 1));
        }
        i = i + 1;
    }
    proof {
        assert(r@ =~= v@);
    }
    r
}


/// What the node for `p` holds while file `j` is being added, its first `k` directories done.
pub open spec fn partial_subtree(
    files: Seq<(Vec<String>, Contributions)>,
    j: int,
    k: int,
    p: Seq<Seq<char>>,
) -> (Map<Seq<char>, nat>, nat) {
    if is_prefix(p, seg_view(files[j].0@)) && p.len() < k {
        add_recs(subtree(files.take(j), p), rec_view(files[j].1))
    } else {
        subtree(files.take(j), p)
    }
}

/// Adds the record `c` of a file to the node for directory `p`, creating the node if needed.
fn add_to_node(nodes: &mut Vec<(Vec<String>, Contributions)>, p: &Vec<String>, c: &Contributions) -> (found: Option<usize>)
    requires
        c.wf(),
        forall|a: int| 0 <= a < old(nodes)@.len() ==> (#[trigger] old(nodes)@[a]).1.wf(),
        forall|a: int|
            0 <= a < old(nodes)@.len() && seg_view((#[trigger] old(nodes)@[a]).0@) == seg_view(p@)
                ==> old(nodes)@[a].1.total_lines + c.total_lines <= usize::MAX,
    ensures
        match found {
            Some(i) => {
                &&& i < old(nodes)@.len()
                &&& seg_view(old(nodes)@[i as int].0@) == seg_view(p@)
                &&& final(nodes)@.len() == old(nodes)@.len()
                &&& forall|a: int| 0 <= a < final(nodes)@.len() && a != i ==> final(nodes)@[a] == old(nodes)@[a]
                &&& final(nodes)@[i as int].0 == old(nodes)@[i as int].0
                &&& final(nodes)@[i as int].1.wf()
                &&& rec_view(final(nodes)@[i as int].1) == add_recs(rec_view(old(nodes)@[i as int].1), rec_view(*c))
            },
            None => {
                &&& forall|a: int| 0 <= a < old(nodes)@.len() ==> seg_view(old(nodes)@[a].0@) != seg_view(p@)
                &&& final(nodes)@.len() == old(nodes)@.len() + 1
                &&& forall|a: int| 0 <= a < old(nodes)@.len() ==> final(nodes)@[a] == old(nodes)@[a]
                &&& final(nodes)@.last().0@ == p@
                &&& final(nodes)@.last().1.wf()
                &&& rec_view(final(nodes)@.last().1) == rec_view(*c)
            },
        },
{
    match find_node(nodes, p) {
        Some(i) => {
            let mut e = nodes.remove(i);
            e.1.add_contribution(c);
            nodes.insert(i, e);
            proof {
                assert(nodes@ =~= old(nodes)@.update(i as int, e));
            }
            Some(i)
        },
        None => {
            let mut r = Contributions::new();
            r.add_contribution(c);
            proof {
                assert(r.author_map() =~= c.author_map());
            }
            nodes.push((copy_segments(p), r));
            None
        },
    }
}

/// Whether `p` is a leading part of `s`.
fn starts_with_segments(s: &Vec<String>, p: &Vec<String>) -> (r: bool)
    ensures
        r == is_prefix(seg_view(p@), seg_view(s@)),
{
    if p.len() > s.len() {
        return false;
    }
    let mut i: usize = 0;
    while i < p.len()
        invariant
            p@.len() <= s@.len(),
            i <= p@.len(),
            forall|j: int| 0 <= j < i ==> s@[j]@ == p@[j]@,
        decreases p@.len() - i,
    {
        if s[i] != p[i] {
            proof {
                assert(seg_view(s@).subrange(0, p@.len() as int)[i as int] != seg_view(p@)[i as int]);
            }
            return false;
        }
        i = i + 1;
    }
    proof {
        assert(seg_view(s@).subrange(0, p@.len() as int) =~= seg_view(p@));
    }
    true
}

/// Node `a` stands for a directory or file directly inside the directory of node `i`.
pub open spec fn is_child(n: Seq<(Vec<String>, Contributions)>, i: int, a: int) -> bool {
    &&& seg_view(n[a].0@).len() == seg_view(n[i].0@).len() + 1
    &&& is_prefix(seg_view(n[i].0@), seg_view(n[a].0@))
}

impl DirTree {
    /// Position of the node for directory `p` (the root for no segments), if there is one.
    pub fn node_index(&self, p: &Vec<String>) -> (r: Option<usize>)
        ensures
            match r {
                Some(i) => i < self.nodes@.len() && seg_view(self.nodes@[i as int].0@) == seg_view(p@),
                None => forall|j: int| 0 <= j < self.nodes@.len() ==> seg_view(self.nodes@[j].0@) != seg_view(p@),
            },
    {
        find_node(&self.nodes, p)
    }

    /// The positions of the children of node `i`, in ascending order.
    pub fn children_of(&self, i: usize) -> (r: Vec<usize>)
        requires
            i < self.nodes@.len(),
        ensures
            forall|k: int| 0 <= k < r@.len() ==> r@[k] < self.nodes@.len() && is_child(self.nodes@, i as int, #[trigger] r@[k] as int),
            forall|k: int, l: int| 0 <= k < l < r@.len() ==> r@[k] < r@[l],
            forall|a: int| 0 <= a < self.nodes@.len() && is_child(self.nodes@, i as int, a) ==> r@.contains(a as usize),
    {
        let n = &self.nodes;
        let parent = &n[i].0;
        let mut out: Vec<usize> = Vec::new();
        let mut a: usize = 0;
        while a < n.len()
            invariant
                n == &self.nodes,
                i < n@.len(),
                parent == n@[i as int].0,
                a <= n@.len(),
                forall|k: int| 0 <= k < out@.len() ==> out@[k] < a && is_child(n@, i as int, #[trigger] out@[k] as int),
                forall|k: int, l: int| 0 <= k < l < out@.len() ==> out@[k] < out@[l],
                forall|b: int| 0 <= b < a && is_child(n@, i as int, b) ==> out@.contains(b as usize),
            decreases n@.len() - a,
        {
            let ghost o0 = out@;
            if n[a].0.len() > parent.len() && n[a].0.len() - 1 == parent.len() && starts_with_segments(&n[a].0, parent) {
                out.push(a);
                proof {
                    assert(out@[o0.len() as int] == a);
                    assert forall|b: int| 0 <= b < a + 1 && is_child(n@, i as int, b) implies out@.contains(b as usize) by {
                        if b < a {
                            let k = choose|k: int| 0 <= k < o0.len() && o0[k] == b as usize;
                            assert(out@[k] == b as usize);
                        } else {
                            assert(out@[o0.len() as int] == b as usize);
                        }
                    }
                }
            } else {
                proof {
                    assert(!is_child(n@, i as int, a as int));
                }
            }
            a = a + 1;
        }
        out
    }

    /// Builds the directory tree of `files`, each given as its path segments and its record.
    /// `None` where the lines of all files together do not fit in a `usize`.
    pub fn from_files(files: &Vec<(Vec<String>, Contributions)>) -> (r: Option<DirTree>)
        requires
            forall|f: int| 0 <= f < files@.len() ==> (#[trigger] files@[f]).1.wf(),
            forall|f: int| 0 <= f < files@.len() ==> (#[trigger] files@[f]).0@.len() < usize::MAX,
        ensures
            r is Some <==> files_lines(files@) <= usize::MAX,
            r matches Some(t) ==> t.aggregates(files@),
    {
        let ghost fs = files@;
        let mut sum: usize = 0;
        let mut i: usize = 0;
        proof {
            assert(fs.take(0) =~= Seq::<(Vec<String>, Contributions)>::empty());
        }
        while i < files.len()
            invariant
                fs == files@,
                i <= fs.len(),
                sum == files_lines(fs.take(i as int)),
            decreases fs.len() - i,
        {
            proof {
                assert(fs.take(i as int + 1).drop_last() == fs.take(i as int));
                assert(fs.take(i as int + 1).last() == fs[i as int]);
                lemma_files_prefix(fs, i as int + 1);
            }
            if files[i].1.total_lines > usize::MAX - sum {
                proof {
                    lemma_files_prefix(fs, i as int + 1);
                }
                return None;
            }
            sum = sum + files[i].1.total_lines;
            i = i + 1;
        }
        proof {
            assert(fs.take(i as int) == fs);
        }
        let mut nodes: Vec<(Vec<String>, Contributions)> = Vec::new();
        let mut j: usize = 0;
        while j < files.len()
            invariant
                fs == files@,
                files_lines(fs) <= usize::MAX,
                forall|f: int| 0 <= f < fs.len() ==> (#[trigger] fs[f]).1.wf(),
                forall|f: int| 0 <= f < fs.len() ==> (#[trigger] fs[f]).0@.len() < usize::MAX,
                j <= fs.len(),
                forall|a: int, b: int|
                    0 <= a < b < nodes@.len() ==> seg_view(nodes@[a].0@) != seg_view(nodes@[b].0@),
                forall|a: int|
                    0 <= a < nodes@.len() ==> exists|f: int|
                        0 <= f < fs.len() && is_prefix(seg_view(#[trigger] nodes@[a].0@), seg_view(fs[f].0@)),
                forall|f: int, k: int|
                    0 <= f < j && 0 <= k <= fs[f].0@.len() ==> #[trigger] has_node(
                        nodes@,
                        seg_view(fs[f].0@).take(k),
                    ),
                forall|a: int|
                    0 <= a < nodes@.len() ==> (#[trigger] nodes@[a]).1.wf() && rec_view(nodes@[a].1) == subtree(
                        fs.take(j as int),
                        seg_view(nodes@[a].0@),
                    ),
            decreases fs.len() - j,
        {
            let segs = &files[j].0;
            proof {
                assert(fs[j as int].0@.len() < usize::MAX);
            }
            let c = &files[j].1;
            let ghost sj = seg_view(fs[j as int].0@);
            let mut prefix: Vec<String> = Vec::new();
            let mut k: usize = 0;
            proof {
                assert(fs.take(j as int + 1).drop_last() == fs.take(j as int));
                assert(fs.take(j as int + 1).last() == fs[j as int]);
                lemma_files_prefix(fs, j as int + 1);
                assert(seg_view(prefix@) =~= sj.take(0));
                assert forall|a: int| 0 <= a < nodes@.len() implies rec_view(#[trigger] nodes@[a].1) == partial_subtree(
                    fs,
                    j as int,
                    0,
                    seg_view(nodes@[a].0@),
                ) by {}
            }
            while k <= segs.len()
                invariant
                    fs == files@,
                    files_lines(fs) <= usize::MAX,
                    forall|f: int| 0 <= f < fs.len() ==> (#[trigger] fs[f]).1.wf(),
                    j < fs.len(),
                    segs == fs[j as int].0,
                    segs@.len() < usize::MAX,
                    c == fs[j as int].1,
                    sj == seg_view(segs@),
                    k <= segs@.len() + 1,
                    k <= segs@.len() ==> seg_view(prefix@) == sj.take(k as int),
                    files_lines(fs.take(j as int + 1)) == files_lines(fs.take(j as int)) + c.total_lines,
                    files_lines(fs.take(j as int + 1)) <= files_lines(fs),
                    forall|a: int, b: int|
                        0 <= a < b < nodes@.len() ==> seg_view(nodes@[a].0@) != seg_view(nodes@[b].0@),
                    forall|a: int|
                        0 <= a < nodes@.len() ==> exists|f: int|
                            0 <= f < fs.len() && is_prefix(seg_view(#[trigger] nodes@[a].0@), seg_view(fs[f].0@)),
                    forall|f: int, kk: int|
                        0 <= f < j && 0 <= kk <= fs[f].0@.len() ==> #[trigger] has_node(
                            nodes@,
                            seg_view(fs[f].0@).take(kk),
                        ),
                    forall|kk: int| 0 <= kk < k ==> #[trigger] has_node(nodes@, sj.take(kk)),
                    forall|a: int|
                        0 <= a < nodes@.len() ==> (#[trigger] nodes@[a]).1.wf() && rec_view(nodes@[a].1)
                            == partial_subtree(fs, j as int, k as int, seg_view(nodes@[a].0@)),
                decreases segs@.len() + 1 - k,
            {
                let ghost n0 = nodes@;
                let ghost pk = sj.take(k as int);
                let ghost rc = rec_view(*c);
                proof {
                    assert forall|a: int|
                        0 <= a < n0.len() && seg_view((#[trigger] n0[a]).0@) == seg_view(prefix@) implies n0[a].1.total_lines
                        + c.total_lines <= usize::MAX by {
                        lemma_subtree_bound(fs.take(j as int), pk);
                    }
                }
                let found = add_to_node(&mut nodes, &prefix, c);
                proof {
                    assert(is_prefix(pk, sj));
                    // nodes other than the one for `pk` keep their records
                    assert forall|a: int| 0 <= a < n0.len() && seg_view(n0[a].0@) != pk implies partial_subtree(
                        fs,
                        j as int,
                        k as int,
                        seg_view(#[trigger] n0[a].0@),
                    ) == partial_subtree(fs, j as int, k as int + 1, seg_view(n0[a].0@)) by {
                        let p = seg_view(n0[a].0@);
                        if is_prefix(p, sj) && p.len() == k {
                            assert(p =~= pk);
                        }
                    }
                    match found {
                        Some(i) => {
                            assert forall|a: int| 0 <= a < nodes@.len() implies (#[trigger] nodes@[a]).1.wf()
                                && rec_view(nodes@[a].1) == partial_subtree(
                                fs,
                                j as int,
                                k as int + 1,
                                seg_view(nodes@[a].0@),
                            ) by {
                                if a != i {
                                    assert(nodes@[a] == n0[a]);
                                    assert(seg_view(n0[a].0@) != seg_view(n0[i as int].0@));
                                }
                            }
                            assert forall|kk: int| 0 <= kk < k + 1 implies #[trigger] has_node(nodes@, sj.take(kk)) by {
                                if kk == k {
                                    assert(seg_view(nodes@[i as int].0@) == sj.take(kk));
                                } else {
                                    assert(has_node(n0, sj.take(kk)));
                                    let a = choose|a: int| 0 <= a < n0.len() && seg_view(n0[a].0@) == sj.take(kk);
                                    assert(seg_view(nodes@[a].0@) == sj.take(kk));
                                }
                            }
                            assert forall|f: int, kk: int|
                                0 <= f < j && 0 <= kk <= fs[f].0@.len() implies #[trigger] has_node(
                                nodes@,
                                seg_view(fs[f].0@).take(kk),
                            ) by {
                                assert(has_node(n0, seg_view(fs[f].0@).take(kk)));
                                let a = choose|a: int| 0 <= a < n0.len() && seg_view(n0[a].0@) == seg_view(fs[f].0@).take(kk);
                                assert(seg_view(nodes@[a].0@) == seg_view(fs[f].0@).take(kk));
                            }
                            assert forall|a: int| 0 <= a < nodes@.len() implies exists|f: int|
                                0 <= f < fs.len() && is_prefix(seg_view(#[trigger] nodes@[a].0@), seg_view(fs[f].0@)) by {
                                assert(nodes@[a].0 == n0[a].0);
                                assert(exists|f: int|
                                    0 <= f < fs.len() && is_prefix(seg_view(#[trigger] n0[a].0@), seg_view(fs[f].0@)));
                            }
                        },
                        None => {
                            let last = nodes@.len() - 1;
                            assert(seg_view(nodes@[last].0@) == pk);
                            assert forall|f: int| 0 <= f < fs.take(j as int).len() implies !is_prefix(
                                pk,
                                seg_view(#[trigger] fs.take(j as int)[f].0@),
                            ) by {
                                assert(fs.take(j as int)[f] == fs[f]);
                                if is_prefix(pk, seg_view(fs[f].0@)) {
                                    assert(seg_view(fs[f].0@).take(k as int) =~= pk);
                                    assert(has_node(n0, seg_view(fs[f].0@).take(k as int)));
                                }
                            }
                            lemma_subtree_none(fs.take(j as int), pk);
                            assert(add_maps(Map::empty(), rc.0) =~= rc.0);
                            assert forall|a: int| 0 <= a < nodes@.len() implies (#[trigger] nodes@[a]).1.wf()
                                && rec_view(nodes@[a].1) == partial_subtree(
                                fs,
                                j as int,
                                k as int + 1,
                                seg_view(nodes@[a].0@),
                            ) by {
                                if a < n0.len() {
                                    assert(nodes@[a] == n0[a]);
                                }
                            }
                            assert forall|a: int, b: int|
                                0 <= a < b < nodes@.len() implies seg_view(nodes@[a].0@) != seg_view(nodes@[b].0@) by {
                                if b < n0.len() {
                                    assert(nodes@[a] == n0[a]);
                                    assert(nodes@[b] == n0[b]);
                                } else {
                                    assert(nodes@[a] == n0[a]);
                                }
                            }
                            assert forall|kk: int| 0 <= kk < k + 1 implies #[trigger] has_node(nodes@, sj.take(kk)) by {
                                if kk == k {
                                    assert(seg_view(nodes@[last].0@) == sj.take(kk));
                                } else {
                                    assert(has_node(n0, sj.take(kk)));
                                    let a = choose|a: int| 0 <= a < n0.len() && seg_view(n0[a].0@) == sj.take(kk);
                                    assert(nodes@[a] == n0[a]);
                                    assert(seg_view(nodes@[a].0@) == sj.take(kk));
                                }
                            }
                            assert forall|f: int, kk: int|
                                0 <= f < j && 0 <= kk <= fs[f].0@.len() implies #[trigger] has_node(
                                nodes@,
                                seg_view(fs[f].0@).take(kk),
                            ) by {
                                assert(has_node(n0, seg_view(fs[f].0@).take(kk)));
                                let a = choose|a: int| 0 <= a < n0.len() && seg_view(n0[a].0@) == seg_view(fs[f].0@).take(kk);
                                assert(nodes@[a] == n0[a]);
                                assert(seg_view(nodes@[a].0@) == seg_view(fs[f].0@).take(kk));
                            }
                            assert forall|a: int| 0 <= a < nodes@.len() implies exists|f: int|
                                0 <= f < fs.len() && is_prefix(seg_view(#[trigger] nodes@[a].0@), seg_view(fs[f].0@)) by {
                                if a < n0.len() {
                                    assert(nodes@[a] == n0[a]);
                                    assert(exists|f: int|
                                        0 <= f < fs.len() && is_prefix(seg_view(#[trigger] n0[a].0@), seg_view(fs[f].0@)));
                                } else {
                                    assert(is_prefix(seg_view(nodes@[a].0@), seg_view(fs[j as int].0@)));
                                }
                            }
                        },
                    }
                }
                if k < segs.len() {
                    prefix.push(segs[k].clone());
                    proof {
                        assert(seg_view(prefix@) =~= sj.take(k as int + 1));
                    }
                }
                k = k + 1;
            }
            proof {
                assert(fs.take(j as int + 1).drop_last() == fs.take(j as int));
                assert(fs.take(j as int + 1).last() == fs[j as int]);
                assert forall|a: int| 0 <= a < nodes@.len() implies (#[trigger] nodes@[a]).1.wf() && rec_view(
                    nodes@[a].1,
                ) == subtree(fs.take(j as int + 1), seg_view(nodes@[a].0@)) by {}
                assert forall|f: int, kk: int|
                    0 <= f < j + 1 && 0 <= kk <= fs[f].0@.len() implies #[trigger] has_node(
                    nodes@,
                    seg_view(fs[f].0@).take(kk),
                ) by {
                    if f == j {
                        assert(has_node(nodes@, sj.take(kk)));
                    }
                }
            }
            j = j + 1;
        }
        proof {
            assert(fs.take(j as int) == fs);
        }
        Some(DirTree { nodes })
    }
}

} // verus!
