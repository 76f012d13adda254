use vstd::prelude::*;

use crate::registry::BoxNode;
use crate::registry::child_slot;
use crate::registry::Geometry;
use crate::registry::Registry;
use crate::registry::wf_boxes;
use crate::style::Dimension;
use crate::style::Style;

verus! {

/// One node of a solver request: its resolved style, plus the request
/// indices of its direct children, in visual order.  Children always
/// precede their parent in the request, so the root is the last node.
pub struct SolverNode {
    pub style: Style,
    pub children: Vec<usize>,
}

/// Everything the external box-layout solver needs for one pass: the
/// flattened subtree under the current root (root last), and the
/// available space, taken from the root's own resolved size.
pub struct LayoutRequest {
    pub nodes: Vec<SolverNode>,
    pub avail_width: Dimension,
    pub avail_height: Dimension,
}

/// Ghost mirror of a solver node.
pub ghost struct SNode {
    pub style: Style,
    pub children: Seq<int>,
}

/// Ghost mirror of one box: exactly the parts of the registry a
/// layout pass depends on.
pub ghost struct Skel {
    pub style: Style,
    pub children: Seq<u64>,
}

pub open spec fn snode_view(n: SolverNode) -> SNode {
    SNode { style: n.style, children: n.children@.map(|t: int, c: usize| c as int) }
}

pub open spec fn request_view(nodes: Seq<SolverNode>) -> Seq<SNode> {
    nodes.map(|t: int, n: SolverNode| snode_view(n))
}

pub open spec fn idx_view(v: Seq<usize>) -> Seq<int> {
    v.map(|t: int, c: usize| c as int)
}

/// The style-and-structure part of the registry: what a layout pass
/// reads, and all it reads.
pub open spec fn skel(boxes: Seq<BoxNode>) -> Seq<Skel> {
    boxes.map(|t: int, b: BoxNode| Skel { style: b.style, children: b.children@ })
}

pub open spec fn wf_skel(s: Seq<Skel>) -> bool {
    forall|i: int, k: int|
        0 <= i < s.len() && 0 <= k < s[i].children.len() ==> (#[trigger] s[i].children[k]) < i
}

/// The solver nodes for the subtree rooted at handle `h`, laid out
/// from request index `base` on, children before their parent, and
/// the map from each handle of the subtree to its request index.
pub open spec fn build_node(s: Seq<Skel>, h: int, base: int) -> (Seq<SNode>, Map<int, int>)
    decreases h, 1int, 0int,
    when wf_skel(s) && 0 <= h < s.len()
{
    let cl = build_list(s, h, s[h].children, base);
    (
        cl.0 + seq![SNode { style: s[h].style, children: cl.2 }],
        cl.1.insert(h, base + cl.0.len()),
    )
}

/// As `build_node`, for a list of sibling subtrees; the third part
/// lists the request index of each sibling's root, in order.
pub open spec fn build_list(s: Seq<Skel>, h: int, cs: Seq<u64>, base: int) -> (
    Seq<SNode>,
    Map<int, int>,
    Seq<int>,
)
    decreases h, 0int, cs.len(),
    when wf_skel(s) && 0 <= h < s.len() && (forall|k: int|
        0 <= k < cs.len() ==> (#[trigger] cs[k]) < h)
{
    if cs.len() == 0 {
        (Seq::empty(), Map::empty(), Seq::empty())
    } else {
        let first = build_node(s, cs[0] as int, base);
        let rest = build_list(s, h, cs.drop_first(), base + first.0.len());
        (
            first.0 + rest.0,
            first.1.union_prefer_right(rest.1),
            seq![base + first.0.len() - 1] + rest.2,
        )
    }
}

/// Index map bounds: a subtree build maps only handles at or below its
/// root, to indices inside its own region, with the root mapped last.
proof fn lemma_build_node_props(s: Seq<Skel>, h: int, base: int)
    requires
        wf_skel(s),
        0 <= h < s.len(),
    ensures
        build_node(s, h, base).0.len() >= 1,
        build_node(s, h, base).1.dom().contains(h),
        build_node(s, h, base).1[h] == base + build_node(s, h, base).0.len() - 1,
        forall|i: int| #[trigger] build_node(s, h, base).1.dom().contains(i) ==> 0 <= i <= h
            && base <= build_node(s, h, base).1[i] < base + build_node(s, h, base).0.len(),
    decreases h, 1int, 0int,
{
    lemma_build_list_props(s, h, s[h].children, base);
}

proof fn lemma_build_list_props(s: Seq<Skel>, h: int, cs: Seq<u64>, base: int)
    requires
        wf_skel(s),
        0 <= h < s.len(),
        forall|k: int| 0 <= k < cs.len() ==> (#[trigger] cs[k]) < h,
    ensures
        build_list(s, h, cs, base).2.len() == cs.len(),
        forall|i: int| #[trigger] build_list(s, h, cs, base).1.dom().contains(i) ==> 0 <= i < h
            && base <= build_list(s, h, cs, base).1[i] < base + build_list(s, h, cs, base).0.len(),
    decreases h, 0int, cs.len(),
{
    if cs.len() > 0 {
        let first = build_node(s, cs[0] as int, base);
        lemma_build_node_props(s, cs[0] as int, base);
        lemma_build_list_props(s, h, cs.drop_first(), base + first.0.len());
    }
}

/// Builds the request nodes for the subtree under `h`, appending to
/// `req`, and records each subtree handle's request index in `eidx`.
/// Returns the request index of `h` itself.
fn build_box(boxes: &Vec<BoxNode>, h: usize, req: &mut Vec<SolverNode>, eidx: &mut Vec<
    Option<usize>,
>) -> (pid: usize)
    requires
        wf_boxes(boxes@),
        h < boxes@.len(),
        old(eidx)@.len() == boxes@.len(),
    ensures
        ({
            let bn = build_node(skel(boxes@), h as int, old(req)@.len() as int);
            &&& request_view(final(req)@) =~= request_view(old(req)@) + bn.0
            &&& final(req)@.len() == old(req)@.len() + bn.0.len()
            &&& pid as int == old(req)@.len() + bn.0.len() - 1
            &&& final(eidx)@.len() == old(eidx)@.len()
            &&& forall|i: int|
                0 <= i < old(eidx)@.len() ==> #[trigger] final(eidx)@[i] == (
                if bn.1.dom().contains(i) {
                    Some(bn.1[i] as usize)
                } else {
                    old(eidx)@[i]
                })
        }),
    decreases h as int, 1int, 0int,
{
    let ghost s = skel(boxes@);
    let ghost base = req@.len() as int;
    let mut acc: Vec<usize> = Vec::new();
    build_kids(boxes, h, 0, req, eidx, &mut acc);
    proof {
        assert(s[h as int].children =~= boxes@[h as int].children@.skip(0));
    }
    let node = SolverNode { style: boxes[h].style, children: acc };
    let pid = req.len();
    req.push(node);
    eidx[h] = Some(pid);
    proof {
        let bn = build_node(s, h as int, base);
        let cl = build_list(s, h as int, s[h as int].children, base);
        assert(snode_view(node) == SNode { style: s[h as int].style, children: cl.2 });
        assert(request_view(req@) =~= request_view(old(req)@) + bn.0) by {
            assert(request_view(req@) =~= request_view(old(req)@) + cl.0 + seq![snode_view(node)]);
            assert(bn.0 =~= cl.0 + seq![SNode { style: s[h as int].style, children: cl.2 }]);
            assert(request_view(old(req)@) + cl.0 + seq![snode_view(node)]
                =~= request_view(old(req)@) + (cl.0 + seq![snode_view(node)]));
        }
        assert forall|i: int| 0 <= i < old(eidx)@.len() implies #[trigger] eidx@[i] == (
        if bn.1.dom().contains(i) {
            Some(bn.1[i] as usize)
        } else {
            old(eidx)@[i]
        }) by {
            if i == h as int {
                assert(bn.1.dom().contains(i));
                assert(bn.1[i] == base + cl.0.len());
            } else {
                if cl.1.dom().contains(i) {
                    assert(bn.1.dom().contains(i) && bn.1[i] == cl.1[i]);
                } else {
                    assert(!bn.1.dom().contains(i));
                }
            }
        }
    }
    pid
}

/// Builds the sibling subtrees `children[k..]` of `h`, appending each
/// sibling's root index to `acc`.
fn build_kids(boxes: &Vec<BoxNode>, h: usize, k: usize, req: &mut Vec<SolverNode>, eidx: &mut Vec<
    Option<usize>,
>, acc: &mut Vec<usize>)
    requires
        wf_boxes(boxes@),
        h < boxes@.len(),
        k <= boxes@[h as int].children@.len(),
        old(eidx)@.len() == boxes@.len(),
    ensures
        ({
            let bl = build_list(
                skel(boxes@),
                h as int,
                boxes@[h as int].children@.skip(k as int),
                old(req)@.len() as int,
            );
            &&& request_view(final(req)@) =~= request_view(old(req)@) + bl.0
            &&& final(req)@.len() == old(req)@.len() + bl.0.len()
            &&& idx_view(final(acc)@) =~= idx_view(old(acc)@) + bl.2
            &&& final(eidx)@.len() == old(eidx)@.len()
            &&& forall|i: int|
                0 <= i < old(eidx)@.len() ==> #[trigger] final(eidx)@[i] == (
                if bl.1.dom().contains(i) {
                    Some(bl.1[i] as usize)
                } else {
                    old(eidx)@[i]
                })
        }),
    decreases h as int, 0int, boxes@[h as int].children@.len() - k,
{
    let ghost s = skel(boxes@);
    let ghost cs = boxes@[h as int].children@.skip(k as int);
    let ghost base = req@.len() as int;
    if k < boxes[h].children.len() {
        let c = boxes[h].children[k];
        proof {
            assert(boxes@[h as int].children@[k as int] < h as int);
            assert(cs[0] == boxes@[h as int].children@[k as int]);
        }
        let cpid = build_box(boxes, c as usize, req, eidx);
        acc.push(cpid);
        let ghost mid_req = req@;
        let ghost mid_acc = acc@;
        let ghost mid_eidx = eidx@;
        build_kids(boxes, h, k + 1, req, eidx, acc);
        proof {
            let first = build_node(s, c as int, base);
            let rest = build_list(
                s,
                h as int,
                boxes@[h as int].children@.skip(k + 1 as int),
                base + first.0.len(),
            );
            assert(cs.drop_first() =~= boxes@[h as int].children@.skip(k + 1 as int));
            let bl = build_list(s, h as int, cs, base);
            assert(bl.0 =~= first.0 + rest.0);
            assert(bl.2 =~= seq![base + first.0.len() - 1] + rest.2);
            assert(request_view(req@) =~= request_view(old(req)@) + bl.0) by {
                assert(request_view(mid_req) =~= request_view(old(req)@) + first.0);
                assert(request_view(req@) =~= request_view(mid_req) + rest.0);
                assert(request_view(old(req)@) + first.0 + rest.0 =~= request_view(old(req)@) + (
                first.0 + rest.0));
            }
            assert(idx_view(acc@) =~= idx_view(old(acc)@) + bl.2) by {
                assert(idx_view(mid_acc) =~= idx_view(old(acc)@) + seq![base + first.0.len() - 1]);
                assert(idx_view(acc@) =~= idx_view(mid_acc) + rest.2);
                assert(idx_view(old(acc)@) + seq![base + first.0.len() - 1] + rest.2 =~= idx_view(
                    old(acc)@,
                ) + (seq![base + first.0.len() - 1] + rest.2));
            }
            assert forall|i: int| 0 <= i < old(eidx)@.len() implies #[trigger] eidx@[i] == (
            if bl.1.dom().contains(i) {
                Some(bl.1[i] as usize)
            } else {
                old(eidx)@[i]
            }) by {
                if rest.1.dom().contains(i) {
                    assert(bl.1.dom().contains(i) && bl.1[i] == rest.1[i]);
                } else if first.1.dom().contains(i) {
                    assert(mid_eidx[i] == Some(first.1[i] as usize));
                    assert(bl.1.dom().contains(i) && bl.1[i] == first.1[i]);
                } else {
                    assert(!bl.1.dom().contains(i));
                }
            }
        }
    } else {
        proof {
            assert(cs =~= Seq::<u64>::empty());
            let bl = build_list(s, h as int, cs, base);
            assert(bl.0 =~= Seq::<SNode>::empty());
            assert(bl.2 =~= Seq::<int>::empty());
            assert(request_view(req@) + Seq::<SNode>::empty() =~= request_view(req@));
            assert(idx_view(acc@) + Seq::<int>::empty() =~= idx_view(acc@));
        }
    }
}

/// The full request for a registry skeleton whose root is its last
/// box, and the handle-to-request-index map of the same pass.
pub open spec fn request_of(s: Seq<Skel>) -> Seq<SNode> {
    build_node(s, s.len() - 1, 0).0
}

pub open spec fn pass_map(s: Seq<Skel>) -> Map<int, int> {
    build_node(s, s.len() - 1, 0).1
}

/// The geometry box `i` holds after solver `results` are applied to a
/// registry with boxes `v`: boxes of the root's subtree take the
/// result at their request index, every other box keeps what it had.
/// A result list of the wrong length is rejected and changes nothing.
pub open spec fn applied_layout(v: Seq<BoxNode>, results: Seq<Geometry>, i: int) -> Option<
    Geometry,
> {
    if v.len() > 0 && results.len() == request_of(skel(v)).len() && pass_map(skel(v)).dom()
        .contains(i) {
        Some(results[pass_map(skel(v))[i]])
    } else {
        v[i].layout
    }
}

impl Registry {
    /// The solver request for the current root's subtree, or nothing
    /// at all when no box exists yet, which makes the pass a no-op.
    /// The request depends only on the boxes' styles and children, so
    /// an unchanged tree always yields the same request again.
    pub fn layout_request(&self) -> (r: Option<LayoutRequest>)
        requires
            self.wf(),
        ensures
            r is Some <==> self.boxes_view().len() > 0,
            r matches Some(q) ==> {
                &&& request_view(q.nodes@) =~= request_of(skel(self.boxes_view()))
                &&& q.nodes@.len() == request_of(skel(self.boxes_view())).len()
                &&& q.avail_width == self.boxes_view().last().style.width
                &&& q.avail_height == self.boxes_view().last().style.height
            },
    {
        proof {
            lemma_wf_skel(self.boxes@);
        }
        if self.boxes.len() == 0 {
            return None;
        }
        let root = self.boxes.len() - 1;
        let mut req: Vec<SolverNode> = Vec::new();
        let mut eidx: Vec<Option<usize>> = Vec::new();
        let mut i: usize = 0;
        while i < self.boxes.len()
            invariant
                eidx@.len() == i,
                i <= self.boxes@.len(),
                forall|t: int| 0 <= t < i ==> #[trigger] eidx@[t] is None,
            decreases self.boxes@.len() - i,
        {
            eidx.push(None);
            i = i + 1;
        }
        build_box(&self.boxes, root, &mut req, &mut eidx);
        proof {
            assert(request_view(req@) =~= request_of(skel(self.boxes@)));
        }
        Some(
            LayoutRequest {
                nodes: req,
                avail_width: self.boxes[root].style.width,
                avail_height: self.boxes[root].style.height,
            },
        )
    }

    /// Stores one solver result per request node back into the boxes
    /// of the root's subtree.  Boxes outside that subtree, and every
    /// box when the result list does not match the request (or when no
    /// box exists), keep their previous geometry.  Styles, children
    /// and the root are never touched, so what a pass stores is a
    /// function of the tree's skeleton and the results alone.
    pub fn apply_layout(&mut self, results: &Vec<Geometry>)
        requires
            old(self).wf(),
        ensures
            final(self).wf(),
            final(self).boxes_view().len() == old(self).boxes_view().len(),
            final(self).root == old(self).root,
            skel(final(self).boxes_view()) =~= skel(old(self).boxes_view()),
            forall|i: int|
                0 <= i < old(self).boxes_view().len() ==> {
                    &&& (#[trigger] final(self).boxes_view()[i]).attached == old(
                        self,
                    ).boxes_view()[i].attached
                    &&& final(self).boxes_view()[i].layout == applied_layout(
                        old(self).boxes_view(),
                        results@,
                        i,
                    )
                },
    {
        proof {
            lemma_wf_skel(self.boxes@);
        }
        if self.boxes.len() == 0 {
            return;
        }
        let ghost oldboxes = self.boxes@;
        let ghost s = skel(oldboxes);
        let root = self.boxes.len() - 1;
        let mut req: Vec<SolverNode> = Vec::new();
        let mut eidx: Vec<Option<usize>> = Vec::new();
        let mut i: usize = 0;
        while i < self.boxes.len()
            invariant
                eidx@.len() == i,
                i <= self.boxes@.len(),
                forall|t: int| 0 <= t < i ==> #[trigger] eidx@[t] is None,
            decreases self.boxes@.len() - i,
        {
            eidx.push(None);
            i = i + 1;
        }
        build_box(&self.boxes, root, &mut req, &mut eidx);
        proof {
            lemma_build_node_props(s, root as int, 0);
        }
        if results.len() != req.len() {
            return;
        }
        let mut t: usize = 0;
        while t < self.boxes.len()
            invariant
                t <= self.boxes@.len(),
                self.boxes@.len() == oldboxes.len(),
                self.root == old(self).root,
                results@.len() == request_of(s).len(),
                results@.len() <= usize::MAX,
                oldboxes.len() > 0,
                s =~= skel(oldboxes),
                eidx@.len() == oldboxes.len(),
                forall|i: int|
                    0 <= i < oldboxes.len() ==> #[trigger] eidx@[i] == (
                    if pass_map(s).dom().contains(i) {
                        Some(pass_map(s)[i] as usize)
                    } else {
                        None::<usize>
                    }),
                forall|i: int| #[trigger] pass_map(s).dom().contains(i) ==> 0 <= pass_map(s)[i]
                    < request_of(s).len(),
                forall|i: int|
                    0 <= i < oldboxes.len() ==> {
                        &&& (#[trigger] self.boxes@[i]).style == oldboxes[i].style
                        &&& self.boxes@[i].children@ == oldboxes[i].children@
                        &&& self.boxes@[i].attached == oldboxes[i].attached
                    },
                forall|i: int|
                    0 <= i < t ==> (#[trigger] self.boxes@[i]).layout == applied_layout(
                        oldboxes,
                        results@,
                        i,
                    ),
                forall|i: int|
                    t <= i < oldboxes.len() ==> (#[trigger] self.boxes@[i]).layout == oldboxes[
                        i
                    ].layout,
            decreases self.boxes@.len() - t,
        {
            match eidx[t] {
                None => {},
                Some(j) => {
                    self.boxes[t].layout = Some(results[j]);
                },
            }
            proof {
                let m = pass_map(s);
                if m.dom().contains(t as int) {
                    assert(eidx@[t as int] == Some(m[t as int] as usize));
                    assert(0 <= m[t as int] < results@.len());
                    assert(m[t as int] as usize as int == m[t as int]);
                    assert(self.boxes@[t as int].layout == Some(results@[m[t as int]]));
                    assert(applied_layout(oldboxes, results@, t as int) == Some(
                        results@[m[t as int]],
                    ));
                } else {
                    assert(self.boxes@[t as int].layout == oldboxes[t as int].layout);
                    assert(applied_layout(oldboxes, results@, t as int) == oldboxes[
                        t as int
                    ].layout);
                }
            }
            t = t + 1;
        }
        proof {
            assert(skel(self.boxes@) =~= skel(oldboxes));
            let nb = self.boxes@;
            assert forall|i: int, k: int| child_slot(nb, i, k) implies (
            #[trigger] nb[i].children@[k]) < i by {
                assert(nb[i].children@ == oldboxes[i].children@);
                assert(child_slot(oldboxes, i, k));
            }
            assert forall|i1: int, k1: int, i2: int, k2: int|
                child_slot(nb, i1, k1) && child_slot(nb, i2, k2) && #[trigger] nb[i1].children@[k1]
                    == #[trigger] nb[i2].children@[k2] implies i1 == i2 && k1 == k2 by {
                assert(nb[i1].children@ == oldboxes[i1].children@);
                assert(nb[i2].children@ == oldboxes[i2].children@);
                assert(child_slot(oldboxes, i1, k1) && child_slot(oldboxes, i2, k2));
            }
            assert forall|h: int| 0 <= h < nb.len() implies ((#[trigger] nb[h].attached)
                <==> exists|i: int, k: int| child_slot(nb, i, k) && nb[i].children@[k] == h) by {
                assert(nb[h].attached == oldboxes[h].attached);
                if oldboxes[h].attached {
                    let (i, k) = choose|i: int, k: int|
                        child_slot(oldboxes, i, k) && oldboxes[i].children@[k] == h;
                    assert(nb[i].children@ == oldboxes[i].children@);
                    assert(child_slot(nb, i, k) && nb[i].children@[k] == h);
                } else {
                    if exists|i: int, k: int| child_slot(nb, i, k) && nb[i].children@[k] == h {
                        let (i, k) = choose|i: int, k: int|
                            child_slot(nb, i, k) && nb[i].children@[k] == h;
                        assert(nb[i].children@ == oldboxes[i].children@);
                        assert(child_slot(oldboxes, i, k) && oldboxes[i].children@[k] == h);
                        assert(oldboxes[h].attached);
                        assert(false);
                    }
                }
            }
        }
    }
}

/// A well-formed registry's skeleton keeps the bottom-up discipline.
pub proof fn lemma_wf_skel(boxes: Seq<BoxNode>)
    requires
        wf_boxes(boxes),
    ensures
        wf_skel(skel(boxes)),
{
    assert forall|i: int, k: int|
        0 <= i < skel(boxes).len() && 0 <= k < skel(boxes)[i].children.len() implies (
    #[trigger] skel(boxes)[i].children[k]) < i by {
        assert(skel(boxes)[i].children == boxes[i].children@);
    }
}

/// Determinism of the request: two registries whose boxes agree on
/// styles and children are handed to the solver identically, whatever
/// geometry either one has stored.
pub proof fn lemma_request_deterministic(v1: Seq<BoxNode>, v2: Seq<BoxNode>)
    requires
        skel(v1) =~= skel(v2),
    ensures
        request_of(skel(v1)) == request_of(skel(v2)),
        pass_map(skel(v1)) == pass_map(skel(v2)),
{
    assert(skel(v1) == skel(v2));
}

/// Idempotence of a layout pass: if a second pass is given the same
/// solver results over an unchanged tree, it stores exactly what the
/// first pass stored, so every handle reads back identically.
pub proof fn lemma_apply_idempotent(v1: Seq<BoxNode>, v2: Seq<BoxNode>, results: Seq<Geometry>)
    requires
        v1.len() == v2.len(),
        skel(v2) =~= skel(v1),
        forall|i: int| 0 <= i < v2.len() ==> (#[trigger] v2[i]).layout == applied_layout(
            v1,
            results,
            i,
        ),
    ensures
        forall|i: int| 0 <= i < v2.len() ==> applied_layout(v2, results, i) == (
        #[trigger] v2[i]).layout,
{
    assert forall|i: int| 0 <= i < v2.len() implies applied_layout(v2, results, i) == (
    #[trigger] v2[i]).layout by {
        assert(skel(v2) == skel(v1));
        if v2.len() > 0 && results.len() == request_of(skel(v2)).len() && pass_map(
            skel(v2),
        ).dom().contains(i) {
            assert(applied_layout(v2, results, i) == Some(results[pass_map(skel(v1))[i]]));
            assert(applied_layout(v1, results, i) == Some(results[pass_map(skel(v1))[i]]));
        } else {
            assert(applied_layout(v2, results, i) == v2[i].layout);
        }
    }
}

} // verus!
