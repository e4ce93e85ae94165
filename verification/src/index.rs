//! A BK-tree metric index over frames under the Hamming distance on their
//! hash codes.
//!
//! Every node owns one frame. A child subtree hangs off its parent at the
//! exact distance between the parent's frame and the child's root frame,
//! and every frame in that subtree lies at that same distance from the
//! parent — the invariant that lets bounded-radius queries prune whole
//! subtrees with the triangle inequality and still return every
//! within-radius frame.

use vstd::prelude::*;

use crate::frame::distance;
use crate::frame::hamming_dist;
use crate::frame::lemma_distance_symmetric;
use crate::frame::lemma_distance_triangle;
use crate::frame::Frame;

verus! {

struct Node {
    frame: Frame,
    children: Vec<Node>,
}

/// Does frame `g` occur in the subtree rooted at `n`?
spec fn in_tree(n: Node, g: Frame) -> bool
    decreases n,
{
    g == n.frame || child_in(n.children@, g)
}

/// Does frame `g` occur in one of the subtrees `cs`?
spec fn child_in(cs: Seq<Node>, g: Frame) -> bool
    decreases cs,
{
    exists|i: int| 0 <= i < cs.len() && in_tree(cs[i], g)
}

/// Every frame of the subtree `c` lies at the same distance from `pf` as
/// the subtree's root frame does: the BK-tree bucketing invariant.
spec fn subtree_same_dist(pf: Frame, c: Node) -> bool {
    forall|g: Frame| in_tree(c, g) ==> hamming_dist(pf, g) == hamming_dist(pf, c.frame)
}

spec fn node_wf(n: Node) -> bool
    decreases n,
{
    &&& forall|i: int| 0 <= i < n.children@.len() ==> node_wf(#[trigger] n.children@[i])
    &&& forall|i: int|
        0 <= i < n.children@.len() ==> subtree_same_dist(n.frame, #[trigger] n.children@[i])
}

proof fn child_in_witness(cs: Seq<Node>, g: Frame) -> (i: int)
    requires
        child_in(cs, g),
    ensures
        0 <= i < cs.len() && in_tree(cs[i], g),
{
    choose|i: int| 0 <= i < cs.len() && in_tree(cs[i], g)
}

proof fn lemma_child_in_push(cs: Seq<Node>, c: Node, g: Frame)
    ensures
        child_in(cs.push(c), g) <==> (child_in(cs, g) || in_tree(c, g)),
{
    let cs2 = cs.push(c);
    if child_in(cs2, g) {
        let i = child_in_witness(cs2, g);
        if i < cs.len() {
            assert(cs[i] == cs2[i]);
            assert(child_in(cs, g));
        } else {
            assert(cs2[i] == c);
        }
    }
    if child_in(cs, g) {
        let i = child_in_witness(cs, g);
        assert(in_tree(cs2[i], g));
        assert(child_in(cs2, g));
    }
    if in_tree(c, g) {
        assert(in_tree(cs2[cs.len() as int], g));
        assert(child_in(cs2, g));
    }
}

proof fn lemma_child_in_skip(s: Seq<Node>, m: int, g: Frame)
    requires
        0 <= m < s.len(),
    ensures
        child_in(s.skip(m), g) <==> (in_tree(s[m], g) || child_in(s.skip(m + 1), g)),
{
    if child_in(s.skip(m), g) {
        let i = child_in_witness(s.skip(m), g);
        if i == 0 {
            assert(s.skip(m)[0] == s[m]);
        } else {
            assert(s.skip(m + 1)[i - 1] == s.skip(m)[i]);
            assert(child_in(s.skip(m + 1), g));
        }
    }
    if in_tree(s[m], g) {
        assert(s.skip(m)[0] == s[m]);
        assert(in_tree(s.skip(m)[0], g));
        assert(child_in(s.skip(m), g));
    }
    if child_in(s.skip(m + 1), g) {
        let i = child_in_witness(s.skip(m + 1), g);
        assert(s.skip(m)[i + 1] == s.skip(m + 1)[i]);
        assert(in_tree(s.skip(m)[i + 1], g));
        assert(child_in(s.skip(m), g));
    }
}

/// Insert `f` into the subtree rooted at `n`: descend into the child whose
/// root lies at the same distance from this node's frame as `f` does, or
/// start a new child subtree at that distance.
#[verifier::loop_isolation(false)]
fn node_insert(n: Node, f: Frame) -> (r: Node)
    requires
        node_wf(n),
    ensures
        node_wf(r),
        r.frame == n.frame,
        forall|g: Frame| in_tree(r, g) <==> (in_tree(n, g) || g == f),
    decreases n,
{
    let ghost n0 = n;
    let nframe = n.frame;
    let d = distance(&nframe, &f);
    let mut children = n.children;
    let ghost orig = children@;
    let mut new_children: Vec<Node> = Vec::new();
    let mut found = false;
    proof {
        assert(children@ =~= orig.take(children@.len() as int));
    }
    while children.len() > 0
        invariant
            node_wf(n0),
            n0.frame == nframe,
            n0.children@ == orig,
            children@.len() <= orig.len(),
            children@ == orig.take(children@.len() as int),
            d as nat == hamming_dist(nframe, f),
            found ==> hamming_dist(nframe, f) <= 128,
            forall|i: int| 0 <= i < new_children@.len() ==> node_wf(#[trigger] new_children@[i]),
            forall|i: int|
                0 <= i < new_children@.len() ==> subtree_same_dist(
                    nframe,
                    #[trigger] new_children@[i],
                ),
            !found ==> forall|g: Frame|
                child_in(new_children@, g) <==> child_in(
                    orig.skip(children@.len() as int),
                    g,
                ),
            found ==> forall|g: Frame|
                child_in(new_children@, g) <==> (child_in(orig.skip(children@.len() as int), g)
                    || g == f),
        decreases children@.len(),
    {
        let ghost m = children@.len() as int;
        let ghost prev = new_children@;
        let ghost was_found = found;
        let c = children.pop().unwrap();
        proof {
            assert(orig.take(m)[m - 1] == orig[m - 1]);
            assert(c == orig[m - 1]);
            assert(children@ =~= orig.take(m - 1));
            assert(children@.len() as int == m - 1);
            assert(orig.skip(m - 1 + 1) =~= orig.skip(m));
            assert(n0.children@[m - 1] == c);
            assert(node_wf(c));
            assert(subtree_same_dist(nframe, c));
        }
        let cd = distance(&nframe, &c.frame);
        if !found && cd == d {
            let ghost c_old = c;
            proof {
                assert(decreases_to!(n0 => n0.children));
                assert(decreases_to!(n0.children => n0.children@));
                assert(decreases_to!(n0.children@ => n0.children@[m - 1]));
                assert(decreases_to!(n0 => c));
            }
            let c2 = node_insert(c, f);
            proof {
                assert(subtree_same_dist(nframe, c2)) by {
                    assert forall|g: Frame|
                        in_tree(c2, g) implies hamming_dist(nframe, g) == hamming_dist(
                        nframe,
                        c2.frame,
                    ) by {
                        if g == f {
                            assert(hamming_dist(nframe, f) == hamming_dist(nframe, c_old.frame));
                        }
                    }
                }
            }
            new_children.push(c2);
            found = true;
            proof {
                assert(new_children@ == prev.push(c2));
                assert forall|g: Frame|
                    child_in(new_children@, g) <==> (child_in(orig.skip(m - 1), g)
                        || g == f) by {
                    lemma_child_in_push(prev, c2, g);
                    lemma_child_in_skip(orig, m - 1, g);
                    assert(child_in(prev, g) <==> child_in(orig.skip(m), g));
                    assert(in_tree(c2, g) <==> (in_tree(c_old, g) || g == f));
                }
            }
        } else {
            new_children.push(c);
            proof {
                assert(new_children@ == prev.push(c));
                if !was_found {
                    assert forall|g: Frame|
                        child_in(new_children@, g) <==> child_in(orig.skip(m - 1), g) by {
                        lemma_child_in_push(prev, c, g);
                        lemma_child_in_skip(orig, m - 1, g);
                        assert(child_in(prev, g) <==> child_in(orig.skip(m), g));
                    }
                } else {
                    assert forall|g: Frame|
                        child_in(new_children@, g) <==> (child_in(orig.skip(m - 1), g)
                            || g == f) by {
                        lemma_child_in_push(prev, c, g);
                        lemma_child_in_skip(orig, m - 1, g);
                        assert(child_in(prev, g) <==> (child_in(orig.skip(m), g) || g == f));
                    }
                }
            }
        }
    }
    proof {
        assert(orig.take(0) =~= Seq::<Node>::empty());
        assert(orig.skip(0) =~= orig);
    }
    if !found {
        let leaf = Node { frame: f, children: Vec::new() };
        let ghost prev = new_children@;
        proof {
            assert(node_wf(leaf));
            assert(subtree_same_dist(nframe, leaf)) by {
                assert forall|g: Frame|
                    in_tree(leaf, g) implies hamming_dist(nframe, g) == hamming_dist(
                    nframe,
                    leaf.frame,
                ) by {
                    assert(g == f);
                }
            }
        }
        new_children.push(leaf);
        proof {
            assert forall|g: Frame|
                child_in(new_children@, g) <==> (child_in(prev, g) || g == f) by {
                lemma_child_in_push(prev, leaf, g);
                assert(in_tree(leaf, g) <==> g == f);
            }
            assert forall|g: Frame|
                child_in(new_children@, g) <==> (child_in(orig, g) || g == f) by {
                assert(child_in(prev, g) <==> child_in(orig.skip(0), g));
            }
        }
    }
    let ghost final_children = new_children@;
    proof {
        assert(forall|g: Frame| child_in(final_children, g) <==> (child_in(orig, g) || g == f));
    }
    let r = Node { frame: nframe, children: new_children };
    proof {
        assert(r.children@ == final_children);
        assert forall|g: Frame| in_tree(r, g) <==> (in_tree(n0, g) || g == f) by {
            assert(in_tree(r, g) <==> (g == nframe || child_in(final_children, g)));
            assert(in_tree(n0, g) <==> (g == nframe || child_in(orig, g)));
        }
        assert(node_wf(r)) by {
            assert(forall|i: int|
                0 <= i < final_children.len() ==> node_wf(#[trigger] final_children[i]));
            assert(forall|i: int|
                0 <= i < final_children.len() ==> subtree_same_dist(
                    nframe,
                    #[trigger] final_children[i],
                ));
        }
    }
    r
}

proof fn seq_contains_witness<T>(s: Seq<T>, x: T) -> (i: int)
    requires
        s.contains(x),
    ensures
        0 <= i < s.len() && s[i] == x,
{
    choose|i: int| 0 <= i < s.len() && s[i] == x
}

proof fn lemma_concat_contains<T>(a: Seq<T>, b: Seq<T>, x: T)
    ensures
        (a + b).contains(x) <==> (a.contains(x) || b.contains(x)),
{
    if (a + b).contains(x) {
        let i = seq_contains_witness(a + b, x);
        if i < a.len() {
            assert(a[i] == x);
        } else {
            assert(b[i - a.len()] == x);
        }
    }
    if a.contains(x) {
        let i = seq_contains_witness(a, x);
        assert((a + b)[i] == x);
    }
    if b.contains(x) {
        let i = seq_contains_witness(b, x);
        assert((a + b)[a.len() + i] == x);
    }
}

/// Bounded-radius query of the subtree rooted at `n`: returns, with its
/// distance, every frame of the subtree that lies within `radius` of
/// `target`, pruning with the triangle inequality.
#[verifier::loop_isolation(false)]
fn find_node(n: &Node, target: &Frame, radius: u32) -> (out: Vec<(u32, Frame)>)
    requires
        node_wf(*n),
    ensures
        forall|p: int|
            0 <= p < out@.len() ==> in_tree(*n, (#[trigger] out@[p]).1) && out@[p].0 as nat
                == hamming_dist(out@[p].1, *target) && out@[p].0 <= radius,
        forall|g: Frame|
            in_tree(*n, g) && hamming_dist(g, *target) <= radius as nat ==> out@.contains(
                (hamming_dist(g, *target) as u32, g),
            ),
    decreases *n,
{
    let d = distance(&n.frame, target);
    let mut out: Vec<(u32, Frame)> = Vec::new();
    if d <= radius {
        out.push((d, n.frame));
        proof {
            assert(out@[0] == (d, n.frame));
            assert((hamming_dist(n.frame, *target) as u32) == d);
            assert(out@.contains((hamming_dist(n.frame, *target) as u32, n.frame)));
        }
    }
    let mut j: usize = 0;
    while j < n.children.len()
        invariant
            j <= n.children@.len(),
            forall|p: int|
                0 <= p < out@.len() ==> in_tree(*n, (#[trigger] out@[p]).1) && out@[p].0 as nat
                    == hamming_dist(out@[p].1, *target) && out@[p].0 <= radius,
            hamming_dist(n.frame, *target) <= radius as nat ==> out@.contains(
                (hamming_dist(n.frame, *target) as u32, n.frame),
            ),
            forall|i: int, g: Frame|
                0 <= i < j && #[trigger] in_tree(n.children@[i], g) && hamming_dist(g, *target)
                    <= radius as nat ==> out@.contains((hamming_dist(g, *target) as u32, g)),
        decreases n.children@.len() - j,
    {
        let c = &n.children[j];
        let ghost cg = n.children@[j as int];
        proof {
            assert(node_wf(cg));
            assert(subtree_same_dist(n.frame, cg));
        }
        let k = distance(&n.frame, &c.frame);
        let diff = if k >= d {
            k - d
        } else {
            d - k
        };
        if diff <= radius {
            let mut sub = find_node(c, target, radius);
            let ghost out_old = out@;
            let ghost sub_old = sub@;
            out.append(&mut sub);
            proof {
                assert(out@ == out_old + sub_old);
                assert forall|p: int|
                    0 <= p < out@.len() implies in_tree(*n, (#[trigger] out@[p]).1) && out@[p].0
                    as nat == hamming_dist(out@[p].1, *target) && out@[p].0 <= radius by {
                    if p < out_old.len() {
                        assert(out@[p] == out_old[p]);
                    } else {
                        assert(out@[p] == sub_old[p - out_old.len()]);
                        assert(in_tree(cg, out@[p].1));
                        assert(child_in(n.children@, out@[p].1));
                    }
                }
                assert(hamming_dist(n.frame, *target) <= radius as nat ==> out@.contains(
                    (hamming_dist(n.frame, *target) as u32, n.frame),
                )) by {
                    let x = (hamming_dist(n.frame, *target) as u32, n.frame);
                    lemma_concat_contains(out_old, sub_old, x);
                }
                assert forall|i: int, g: Frame|
                    0 <= i < j + 1 && #[trigger] in_tree(n.children@[i], g) && hamming_dist(
                        g,
                        *target,
                    ) <= radius as nat implies out@.contains(
                    (hamming_dist(g, *target) as u32, g),
                ) by {
                    let x = (hamming_dist(g, *target) as u32, g);
                    lemma_concat_contains(out_old, sub_old, x);
                    if i < j {
                        assert(out_old.contains(x));
                    } else {
                        assert(in_tree(cg, g));
                        assert(sub_old.contains(x));
                    }
                }
            }
        } else {
            proof {
                assert forall|i: int, g: Frame|
                    0 <= i < j + 1 && #[trigger] in_tree(n.children@[i], g) && hamming_dist(
                        g,
                        *target,
                    ) <= radius as nat implies out@.contains(
                    (hamming_dist(g, *target) as u32, g),
                ) by {
                    if i == j {
                        assert(in_tree(cg, g));
                        assert(hamming_dist(n.frame, g) == hamming_dist(n.frame, cg.frame));
                        lemma_distance_triangle(n.frame, g, *target);
                        lemma_distance_triangle(n.frame, *target, g);
                        lemma_distance_symmetric(g, *target);
                        assert(false);
                    }
                }
            }
        }
        j += 1;
    }
    proof {
        assert forall|g: Frame|
            in_tree(*n, g) && hamming_dist(g, *target) <= radius as nat implies out@.contains(
            (hamming_dist(g, *target) as u32, g),
        ) by {
            if g != n.frame {
                assert(child_in(n.children@, g));
                let i = child_in_witness(n.children@, g);
                assert(in_tree(n.children@[i], g));
            }
        }
    }
    out
}

proof fn lemma_take_to_set_step(s: Seq<Frame>, i: int)
    requires
        0 <= i < s.len(),
    ensures
        s.take(i + 1).to_set() == s.take(i).to_set().insert(s[i]),
{
    assert forall|x: Frame|
        s.take(i + 1).to_set().contains(x) <==> s.take(i).to_set().insert(s[i]).contains(x) by {
        assert(s.take(i + 1).to_set().contains(x) == s.take(i + 1).contains(x));
        assert(s.take(i).to_set().contains(x) == s.take(i).contains(x));
        if s.take(i + 1).contains(x) {
            let j = seq_contains_witness(s.take(i + 1), x);
            if j < i {
                assert(s.take(i)[j] == x);
            } else {
                assert(x == s[i]);
            }
        }
        if s.take(i).contains(x) {
            let j = seq_contains_witness(s.take(i), x);
            assert(s.take(i + 1)[j] == x);
        }
        if x == s[i] {
            assert(s.take(i + 1)[i] == x);
        }
    }
    assert(s.take(i + 1).to_set() =~= s.take(i).to_set().insert(s[i]));
}

/// A metric index over frames: built once from one sequence's frames, then
/// only queried.
pub struct MetricIndex {
    root: Option<Node>,
}

impl MetricIndex {
    /// The index is well formed: every subtree hangs at the right distance.
    pub closed spec fn wf(self) -> bool {
        match self.root {
            None => true,
            Some(n) => node_wf(n),
        }
    }

    /// The set of frames the index holds.
    pub closed spec fn elems(self) -> Set<Frame> {
        match self.root {
            None => Set::empty(),
            Some(n) => Set::new(|g: Frame| in_tree(n, g)),
        }
    }

    /// An empty index.
    pub fn new() -> (r: Self)
        ensures
            r.wf(),
            r.elems() == Set::<Frame>::empty(),
    {
        let r = MetricIndex { root: None };
        proof {
            assert(r.elems() =~= Set::<Frame>::empty());
        }
        r
    }

    /// Insert one frame into the index.
    pub fn insert(&mut self, f: Frame)
        requires
            old(self).wf(),
        ensures
            final(self).wf(),
            final(self).elems() == old(self).elems().insert(f),
    {
        let ghost olds = *self;
        let root = self.root.take();
        match root {
            None => {
                let leaf = Node { frame: f, children: Vec::new() };
                self.root = Some(leaf);
                proof {
                    assert forall|g: Frame| in_tree(leaf, g) <==> g == f by {}
                    assert(self.elems() =~= olds.elems().insert(f));
                }
            },
            Some(node) => {
                let node2 = node_insert(node, f);
                self.root = Some(node2);
                proof {
                    assert(self.elems() =~= olds.elems().insert(f));
                }
            },
        }
    }

    /// Insert every frame of `frames` into the index.
    pub fn insert_all(&mut self, frames: &Vec<Frame>)
        requires
            old(self).wf(),
        ensures
            final(self).wf(),
            final(self).elems() == old(self).elems().union(frames@.to_set()),
    {
        let ghost orig_elems = old(self).elems();
        proof {
            assert(frames@.take(0).to_set() =~= Set::<Frame>::empty());
            assert(self.elems() =~= orig_elems.union(frames@.take(0).to_set()));
        }
        let mut i: usize = 0;
        while i < frames.len()
            invariant
                i <= frames@.len(),
                self.wf(),
                self.elems() == orig_elems.union(frames@.take(i as int).to_set()),
            decreases frames@.len() - i,
        {
            self.insert(frames[i]);
            proof {
                lemma_take_to_set_step(frames@, i as int);
                assert(self.elems() =~= orig_elems.union(frames@.take(i as int + 1).to_set()));
            }
            i += 1;
        }
        proof {
            assert(frames@.take(frames@.len() as int) =~= frames@);
        }
    }

    /// Bounded-radius query: returns, paired with its distance to
    /// `target`, every frame of the index whose Hamming distance to
    /// `target` is at most `radius` — no frame beyond the radius, and
    /// none within it missing.
    pub fn find_within(&self, target: &Frame, radius: u32) -> (out: Vec<(u32, Frame)>)
        requires
            self.wf(),
        ensures
            forall|p: int|
                0 <= p < out@.len() ==> self.elems().contains((#[trigger] out@[p]).1) && out@[p].0
                    as nat == hamming_dist(out@[p].1, *target) && out@[p].0 <= radius,
            forall|g: Frame|
                self.elems().contains(g) && hamming_dist(g, *target) <= radius as nat
                    ==> out@.contains((hamming_dist(g, *target) as u32, g)),
    {
        match &self.root {
            None => Vec::new(),
            Some(n) => find_node(n, target, radius),
        }
    }
}

} // verus!
