use vstd::prelude::*;

use crate::style::PropValue;
use crate::style::Style;
use crate::style::StyleTypeError;
use crate::style::resolve;
use crate::style::resolve_spec;
use crate::style::style_of;

verus! {

/// Geometry of a box after a layout pass, each field the 32-bit
/// encoding of the solver's floating-point result.
#[derive(Clone, Copy, Debug, PartialEq, Eq, Structural)]
pub struct Geometry {
    pub top: u32,
    pub left: u32,
    pub width: u32,
    pub height: u32,
}

/// A styled node of the layout tree.  Children are listed in visual
/// order; a box never refers to its parent.  `attached` records
/// whether some other box already lists this one as a child.
pub struct BoxNode {
    pub style: Style,
    pub children: Vec<u64>,
    pub layout: Option<Geometry>,
    pub attached: bool,
}

/// No box has ever been created, so there is no root to ask for.
#[derive(Clone, Copy, Debug, PartialEq, Eq, Structural)]
pub struct EmptyRegistryError;

/// Owns every box, keyed by handle, plus the current root.  A handle
/// is the number of boxes created before it, so handles are never
/// reused and never derived from an address.
pub struct Registry {
    pub boxes: Vec<BoxNode>,
    pub root: u64,
}

pub open spec fn child_slot(boxes: Seq<BoxNode>, i: int, k: int) -> bool {
    0 <= i < boxes.len() && 0 <= k < boxes[i].children@.len()
}

/// The tree discipline the registry maintains: every child handle
/// points at an earlier box (the tree is built bottom-up, so it is
/// acyclic by construction), no handle is listed as a child twice, and
/// the `attached` flags record exactly the handles listed somewhere.
pub open spec fn wf_boxes(boxes: Seq<BoxNode>) -> bool {
    &&& forall|i: int, k: int|
        child_slot(boxes, i, k) ==> (#[trigger] boxes[i].children@[k]) < i
    &&& forall|i1: int, k1: int, i2: int, k2: int|
        child_slot(boxes, i1, k1) && child_slot(boxes, i2, k2)
            && #[trigger] boxes[i1].children@[k1] == #[trigger] boxes[i2].children@[k2]
            ==> i1 == i2 && k1 == k2
    &&& forall|h: int|
        0 <= h < boxes.len() ==> ((#[trigger] boxes[h].attached) <==> exists|i: int, k: int|
            child_slot(boxes, i, k) && boxes[i].children@[k] == h)
}

impl Registry {
    /// The registry's invariant: well-formed boxes, and the root is
    /// the most recently created box, if any exists.
    pub open spec fn wf(self) -> bool {
        &&& wf_boxes(self.boxes@)
        &&& self.boxes@.len() > 0 ==> self.root == self.boxes@.len() - 1
        &&& self.boxes@.len() == 0 ==> self.root == 0
    }

    pub open spec fn boxes_view(self) -> Seq<BoxNode> {
        self.boxes@
    }

    /// Handles issued so far are exactly those below the box count.
    pub open spec fn issued(self, h: u64) -> bool {
        (h as int) < self.boxes@.len()
    }

    pub fn new() -> (r: Registry)
        ensures
            r.wf(),
            r.boxes_view() =~= Seq::<BoxNode>::empty(),
    {
        Registry { boxes: Vec::new(), root: 0 }
    }

    /// The last handle created, or the error that nothing exists yet.
    pub fn current_root(&self) -> (r: Result<u64, EmptyRegistryError>)
        requires
            self.wf(),
        ensures
            self.boxes_view().len() == 0 ==> r == Err::<u64, EmptyRegistryError>(
                EmptyRegistryError,
            ),
            self.boxes_view().len() > 0 ==> r == Ok::<u64, EmptyRegistryError>(
                (self.boxes_view().len() - 1) as u64,
            ),
    {
        if self.boxes.len() == 0 {
            Err(EmptyRegistryError)
        } else {
            Ok(self.root)
        }
    }

    /// Geometry of the most recent layout pass that included `h`, or
    /// nothing at all: an unknown handle and a box no pass has touched
    /// are both answered leniently, never with an error.
    pub fn layout_of(&self, h: u64) -> (r: Option<Geometry>)
        ensures
            r == layout_of_spec(self.boxes_view(), h),
    {
        if h < self.boxes.len() as u64 {
            self.boxes[h as usize].layout
        } else {
            None
        }
    }
}

/// What `layout_of` answers: the stored geometry for a known handle,
/// nothing for an unknown or never-laid-out one.
pub open spec fn layout_of_spec(boxes: Seq<BoxNode>, h: u64) -> Option<Geometry> {
    if (h as int) < boxes.len() {
        boxes[h as int].layout
    } else {
        None
    }
}

/// A handle usable as a child right now: it names an existing box that
/// no other box has attached yet.
pub open spec fn child_ok(boxes: Seq<BoxNode>, c: u64) -> bool {
    (c as int) < boxes.len() && !boxes[c as int].attached
}

/// The children actually adopted out of a requested child list: each
/// entry is kept at its position when it names an existing, still
/// unattached box not already kept earlier in this same list; all
/// other entries are silently skipped.  `taken` carries the handles
/// kept so far.
pub open spec fn kept_from(boxes: Seq<BoxNode>, cs: Seq<u64>, taken: Set<u64>) -> Seq<u64>
    decreases cs.len(),
{
    if cs.len() == 0 {
        Seq::empty()
    } else {
        let c = cs[0];
        if child_ok(boxes, c) && !taken.contains(c) {
            seq![c] + kept_from(boxes, cs.drop_first(), taken.insert(c))
        } else {
            kept_from(boxes, cs.drop_first(), taken)
        }
    }
}

/// The handles kept after walking all of `cs`, added to `taken`.
pub open spec fn taken_after(boxes: Seq<BoxNode>, cs: Seq<u64>, taken: Set<u64>) -> Set<u64>
    decreases cs.len(),
{
    if cs.len() == 0 {
        taken
    } else {
        let c = cs[0];
        if child_ok(boxes, c) && !taken.contains(c) {
            taken_after(boxes, cs.drop_first(), taken.insert(c))
        } else {
            taken_after(boxes, cs.drop_first(), taken)
        }
    }
}

pub open spec fn kept_children(boxes: Seq<BoxNode>, cs: Seq<u64>) -> Seq<u64> {
    kept_from(boxes, cs, Set::empty())
}

proof fn lemma_kept_push(boxes: Seq<BoxNode>, cs: Seq<u64>, taken: Set<u64>, x: u64)
    ensures
        kept_from(boxes, cs.push(x), taken) =~= kept_from(boxes, cs, taken) + (
        if child_ok(boxes, x) && !taken_after(boxes, cs, taken).contains(x) {
            seq![x]
        } else {
            Seq::<u64>::empty()
        }),
        taken_after(boxes, cs.push(x), taken) =~= (
        if child_ok(boxes, x) && !taken_after(boxes, cs, taken).contains(x) {
            taken_after(boxes, cs, taken).insert(x)
        } else {
            taken_after(boxes, cs, taken)
        }),
    decreases cs.len(),
{
    let single = cs.push(x);
    if cs.len() == 0 {
        assert(single.len() == 1);
        assert(single[0] == x);
        assert(single.drop_first() =~= Seq::<u64>::empty());
        assert(kept_from(boxes, cs, taken) =~= Seq::<u64>::empty());
        assert(taken_after(boxes, cs, taken) =~= taken);
        assert(kept_from(boxes, Seq::<u64>::empty(), taken.insert(x)) =~= Seq::<u64>::empty());
        assert(taken_after(boxes, Seq::<u64>::empty(), taken.insert(x)) =~= taken.insert(x));
        if child_ok(boxes, x) && !taken.contains(x) {
            assert(kept_from(boxes, single, taken) =~= seq![x] + kept_from(
                boxes,
                single.drop_first(),
                taken.insert(x),
            ));
            assert(seq![x] + Seq::<u64>::empty() =~= seq![x]);
            assert(Seq::<u64>::empty() + seq![x] =~= seq![x]);
        } else {
            assert(kept_from(boxes, single, taken) =~= kept_from(
                boxes,
                single.drop_first(),
                taken,
            ));
            assert(kept_from(boxes, Seq::<u64>::empty(), taken) =~= Seq::<u64>::empty());
            assert(taken_after(boxes, Seq::<u64>::empty(), taken) =~= taken);
            assert(Seq::<u64>::empty() + Seq::<u64>::empty() =~= Seq::<u64>::empty());
        }
    } else {
        let c = cs[0];
        let rest = cs.drop_first();
        assert(single[0] == c);
        assert(single.drop_first() =~= rest.push(x));
        let tail = (
        if child_ok(boxes, x) && !taken_after(boxes, cs, taken).contains(x) {
            seq![x]
        } else {
            Seq::<u64>::empty()
        });
        if child_ok(boxes, c) && !taken.contains(c) {
            lemma_kept_push(boxes, rest, taken.insert(c), x);
            assert(taken_after(boxes, cs, taken) =~= taken_after(boxes, rest, taken.insert(c)));
            assert(kept_from(boxes, single, taken) =~= seq![c] + kept_from(
                boxes,
                rest.push(x),
                taken.insert(c),
            ));
            assert(seq![c] + (kept_from(boxes, rest, taken.insert(c)) + tail) =~= (seq![c]
                + kept_from(boxes, rest, taken.insert(c))) + tail);
            assert(kept_from(boxes, cs, taken) =~= seq![c] + kept_from(
                boxes,
                rest,
                taken.insert(c),
            ));
        } else {
            lemma_kept_push(boxes, rest, taken, x);
            assert(taken_after(boxes, cs, taken) =~= taken_after(boxes, rest, taken));
            assert(kept_from(boxes, single, taken) =~= kept_from(boxes, rest.push(x), taken));
            assert(kept_from(boxes, cs, taken) =~= kept_from(boxes, rest, taken));
        }
    }
}

/// Every handle kept was acceptable and newly taken, the kept list has
/// no duplicates, and what is taken afterwards is the original set
/// plus exactly the kept handles.
proof fn lemma_kept_props(boxes: Seq<BoxNode>, cs: Seq<u64>, taken: Set<u64>)
    ensures
        forall|m: int| 0 <= m < kept_from(boxes, cs, taken).len()
            ==> child_ok(boxes, #[trigger] kept_from(boxes, cs, taken)[m])
                && !taken.contains(kept_from(boxes, cs, taken)[m]),
        forall|m1: int, m2: int|
            0 <= m1 < kept_from(boxes, cs, taken).len() && 0 <= m2 < kept_from(
                boxes,
                cs,
                taken,
            ).len() && m1 != m2 ==> #[trigger] kept_from(boxes, cs, taken)[m1]
                != #[trigger] kept_from(boxes, cs, taken)[m2],
        taken_after(boxes, cs, taken) =~= taken.union(
            kept_from(boxes, cs, taken).to_set(),
        ),
    decreases cs.len(),
{
    let kept = kept_from(boxes, cs, taken);
    if cs.len() == 0 {
        assert(kept.to_set() =~= Set::<u64>::empty());
    } else {
        let c = cs[0];
        let rest = cs.drop_first();
        if child_ok(boxes, c) && !taken.contains(c) {
            lemma_kept_props(boxes, rest, taken.insert(c));
            let krest = kept_from(boxes, rest, taken.insert(c));
            assert(kept =~= seq![c] + krest);
            assert(kept[0] == c);
            assert forall|m: int| 1 <= m < kept.len() implies kept[m] == krest[m - 1] by {}
            assert(kept.to_set() =~= krest.to_set().insert(c)) by {
                assert forall|y: u64| kept.to_set().contains(y) implies krest.to_set().insert(
                    c,
                ).contains(y) by {
                    let m = choose|m: int| 0 <= m < kept.len() && kept[m] == y;
                    if m == 0 {
                    } else {
                        assert(krest[m - 1] == y);
                        assert(krest.to_set().contains(y));
                    }
                }
                assert forall|y: u64| krest.to_set().insert(c).contains(y) implies kept.to_set()
                    .contains(y) by {
                    if y == c {
                        assert(kept[0] == y);
                    } else {
                        let m = choose|m: int| 0 <= m < krest.len() && krest[m] == y;
                        assert(kept[m + 1] == y);
                    }
                }
            }
        } else {
            lemma_kept_props(boxes, rest, taken);
            assert(kept =~= kept_from(boxes, rest, taken));
        }
    }
}

impl Registry {
    /// Registers a new box.  The style bag is resolved first; a type
    /// mismatch fails the whole call and changes nothing.  Each
    /// requested child that names an existing, still unattached box is
    /// adopted in order; unknown and already-attached handles are
    /// silently skipped.  The fresh handle is the previous box count,
    /// and the new box always becomes the current root.
    pub fn create(&mut self, children: &Vec<u64>, style: &Vec<(String, PropValue)>) -> (r: Result<
        u64,
        StyleTypeError,
    >)
        requires
            old(self).wf(),
        ensures
            final(self).wf(),
            resolve_spec(style@) is Err ==> r == Err::<u64, StyleTypeError>(StyleTypeError)
                && *final(self) == *old(self),
            resolve_spec(style@) is Ok ==> {
                let oldboxes = old(self).boxes_view();
                let h = oldboxes.len();
                let kept = kept_children(oldboxes, children@);
                let newboxes = final(self).boxes_view();
                &&& r == Ok::<u64, StyleTypeError>(h as u64)
                &&& final(self).root == h as u64
                &&& newboxes.len() == h + 1
                &&& newboxes[h as int].style == style_of(style@)
                &&& newboxes[h as int].children@ == kept
                &&& newboxes[h as int].layout is None
                &&& newboxes[h as int].attached == false
                &&& forall|i: int| 0 <= i < h ==> {
                    &&& (#[trigger] newboxes[i]).style == oldboxes[i].style
                    &&& newboxes[i].children@ == oldboxes[i].children@
                    &&& newboxes[i].layout == oldboxes[i].layout
                    &&& newboxes[i].attached == (oldboxes[i].attached || kept.contains(i as u64))
                }
            },
    {
        let st = match resolve(style) {
            Ok(s) => s,
            Err(e) => {
                return Err(e);
            },
        };
        let h = self.boxes.len();
        let ghost oldboxes = self.boxes@;
        let mut kept: Vec<u64> = Vec::new();
        let mut j: usize = 0;
        while j < children.len()
            invariant
                0 <= j <= children@.len(),
                h == oldboxes.len(),
                self.boxes@.len() == oldboxes.len(),
                kept@ == kept_from(oldboxes, children@.take(j as int), Set::<u64>::empty()),
                forall|i: int| 0 <= i < h ==> {
                    &&& (#[trigger] self.boxes@[i]).style == oldboxes[i].style
                    &&& self.boxes@[i].children@ == oldboxes[i].children@
                    &&& self.boxes@[i].layout == oldboxes[i].layout
                    &&& self.boxes@[i].attached == (oldboxes[i].attached || taken_after(
                        oldboxes,
                        children@.take(j as int),
                        Set::<u64>::empty(),
                    ).contains(i as u64))
                },
            decreases children@.len() - j,
        {
            let ghost prefix = children@.take(j as int);
            let ghost takenset = taken_after(oldboxes, prefix, Set::<u64>::empty());
            let c = children[j];
            proof {
                lemma_kept_push(oldboxes, prefix, Set::<u64>::empty(), c);
                assert(children@.take(j + 1 as int) =~= prefix.push(c));
            }
            if c < h as u64 {
                let ci = c as usize;
                if !self.boxes[ci].attached {
                    kept.push(c);
                    self.boxes[ci].attached = true;
                    proof {
                        assert(child_ok(oldboxes, c) && !takenset.contains(c));
                        assert(kept@ =~= kept_from(oldboxes, prefix, Set::<u64>::empty())
                            + seq![c]);
                    }
                } else {
                    proof {
                        assert(!(child_ok(oldboxes, c) && !takenset.contains(c)));
                        assert(kept@ + Seq::<u64>::empty() =~= kept@);
                    }
                }
            } else {
                proof {
                    assert(!child_ok(oldboxes, c));
                    assert(kept@ + Seq::<u64>::empty() =~= kept@);
                }
            }
            j = j + 1;
        }
        proof {
            assert(children@.take(children@.len() as int) =~= children@);
            lemma_kept_props(oldboxes, children@, Set::<u64>::empty());
        }
        let node = BoxNode { style: st, children: kept, layout: None, attached: false };
        self.boxes.push(node);
        self.root = h as u64;
        proof {
            let newboxes = self.boxes@;
            let keptseq = kept_children(oldboxes, children@);
            assert forall|i1: int, k1: int, i2: int, k2: int|
                child_slot(newboxes, i1, k1) && child_slot(newboxes, i2, k2)
                    && #[trigger] newboxes[i1].children@[k1] == #[trigger] newboxes[i2].children@[k2]
                    implies i1 == i2 && k1 == k2 by {
                if i1 < h && i2 < h {
                    assert(child_slot(oldboxes, i1, k1) && child_slot(oldboxes, i2, k2));
                } else if i1 == h && i2 == h {
                    assert(newboxes[i1].children@[k1] == keptseq[k1]);
                    assert(newboxes[i2].children@[k2] == keptseq[k2]);
                } else if i1 == h && i2 < h {
                    let c = newboxes[i1].children@[k1];
                    assert(child_ok(oldboxes, keptseq[k1]));
                    assert(!oldboxes[c as int].attached);
                    assert(child_slot(oldboxes, i2, k2) && oldboxes[i2].children@[k2] == c);
                } else {
                    let c = newboxes[i2].children@[k2];
                    assert(child_ok(oldboxes, keptseq[k2]));
                    assert(!oldboxes[c as int].attached);
                    assert(child_slot(oldboxes, i1, k1) && oldboxes[i1].children@[k1] == c);
                }
            }
            assert forall|hh: int| 0 <= hh < newboxes.len() implies
                ((#[trigger] newboxes[hh].attached) <==> exists|i: int, k: int|
                    child_slot(newboxes, i, k) && newboxes[i].children@[k] == hh) by {
                if hh == h {
                    assert(!newboxes[hh].attached);
                    if exists|i: int, k: int| child_slot(newboxes, i, k)
                        && newboxes[i].children@[k] == hh {
                        let (i, k) = choose|i: int, k: int| child_slot(newboxes, i, k)
                            && newboxes[i].children@[k] == hh;
                        if i < h {
                            assert(oldboxes[i].children@[k] < i);
                            assert(false);
                        } else {
                            assert(child_ok(oldboxes, keptseq[k]));
                            assert(false);
                        }
                    }
                } else {
                    if newboxes[hh].attached {
                        if oldboxes[hh].attached {
                            let (i, k) = choose|i: int, k: int| child_slot(oldboxes, i, k)
                                && oldboxes[i].children@[k] == hh;
                            assert(child_slot(newboxes, i, k) && newboxes[i].children@[k] == hh);
                        } else {
                            assert(keptseq.contains(hh as u64));
                            let k = choose|k: int| 0 <= k < keptseq.len() && keptseq[k]
                                == hh as u64;
                            assert(child_slot(newboxes, h as int, k) && newboxes[
                                h as int
                            ].children@[k] == hh);
                        }
                    } else {
                        if exists|i: int, k: int| child_slot(newboxes, i, k)
                            && newboxes[i].children@[k] == hh {
                            let (i, k) = choose|i: int, k: int| child_slot(newboxes, i, k)
                                && newboxes[i].children@[k] == hh;
                            if i < h {
                                assert(child_slot(oldboxes, i, k) && oldboxes[i].children@[k]
                                    == hh);
                                assert(oldboxes[hh].attached);
                                assert(false);
                            } else {
                                assert(keptseq[k] == hh as u64);
                                assert(keptseq.contains(hh as u64));
                                assert(false);
                            }
                        }
                    }
                }
            }
        }
        Ok(h as u64)
    }
}

/// Uniqueness of handles: a handle freshly issued by `create` was
/// never issued before, and every handle issued earlier stays issued,
/// so no two `create` calls ever return the same handle.
pub proof fn lemma_handles_unique(before: Registry, after: Registry, fresh: u64)
    requires
        fresh as int == before.boxes_view().len(),
        after.boxes_view().len() == before.boxes_view().len() + 1,
    ensures
        !before.issued(fresh),
        after.issued(fresh),
        forall|h: u64| before.issued(h) ==> after.issued(h) && h != fresh,
{
}

/// No box of the registry holds geometry yet.
pub open spec fn unlaid(boxes: Seq<BoxNode>) -> bool {
    forall|i: int| 0 <= i < boxes.len() ==> (#[trigger] boxes[i]).layout is None
}

/// `create` stores no geometry: a registry that held none before a
/// successful `create` holds none after it either, since the fresh
/// box starts empty and the others keep what they had.
pub proof fn lemma_create_preserves_unlaid(oldboxes: Seq<BoxNode>, newboxes: Seq<BoxNode>)
    requires
        unlaid(oldboxes),
        newboxes.len() == oldboxes.len() + 1,
        newboxes.last().layout is None,
        forall|i: int| 0 <= i < oldboxes.len() ==> (#[trigger] newboxes[i]).layout == oldboxes[
            i
        ].layout,
    ensures
        unlaid(newboxes),
{
}

/// Before any layout pass has run, every handle reads back as empty:
/// `create` stores no geometry and `layout_of` invents none.
pub proof fn lemma_pre_layout_empty(reg: Registry, h: u64)
    requires
        unlaid(reg.boxes_view()),
    ensures
        layout_of_spec(reg.boxes_view(), h) is None,
{
}

} // verus!
