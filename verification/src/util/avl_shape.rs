use vstd::prelude::*;
use crate::primitives::integer::Int;
use vstd::set_lib::{set_int_range, lemma_int_range, lemma_subset_equality, lemma_len_subset};

verus! {

/// The shape of a binary tree whose nodes are slots of the tree's arrays.
pub enum Shape {
    Leaf,
    Node(Box<Shape>, nat, Box<Shape>),
}

impl Shape {
    pub open spec fn height(self) -> nat
        decreases self,
    {
        match self {
            Shape::Leaf => 0,
            Shape::Node(l, _, r) => {
                let hl = l.height();
                let hr = r.height();
                1 + if hl >= hr { hl } else { hr }
            },
        }
    }

    /// Slots of the tree in order (left subtree, node, right subtree).
    pub open spec fn inorder(self) -> Seq<nat>
        decreases self,
    {
        match self {
            Shape::Leaf => Seq::empty(),
            Shape::Node(l, i, r) => l.inorder() + seq![i] + r.inorder(),
        }
    }

    /// Balance factor of the root: height of the right subtree minus that of the left.
    pub open spec fn bf(self) -> int {
        match self {
            Shape::Leaf => 0,
            Shape::Node(l, _, r) => r.height() - l.height(),
        }
    }

    pub open spec fn left(self) -> Shape {
        match self {
            Shape::Leaf => Shape::Leaf,
            Shape::Node(l, _, _) => *l,
        }
    }

    pub open spec fn right(self) -> Shape {
        match self {
            Shape::Leaf => Shape::Leaf,
            Shape::Node(_, _, r) => *r,
        }
    }

    pub open spec fn idx(self) -> nat {
        match self {
            Shape::Leaf => 0,
            Shape::Node(_, i, _) => i,
        }
    }
}

/// The slot that points to a subtree: its root, or `nil` for an empty subtree.
pub open spec fn ptr(t: Shape, nil: int) -> int {
    match t {
        Shape::Leaf => nil,
        Shape::Node(_, i, _) => i as int,
    }
}

/// The child arrays hold the shape `t`.
pub open spec fn links<I: Int>(cl: Seq<I>, cr: Seq<I>, t: Shape) -> bool
    decreases t,
{
    match t {
        Shape::Leaf => true,
        Shape::Node(l, i, r) => {
            &&& i < cl.len()
            &&& i < cr.len()
            &&& cl[i as int].value() == ptr(*l, I::max_value())
            &&& cr[i as int].value() == ptr(*r, I::max_value())
            &&& links(cl, cr, *l)
            &&& links(cl, cr, *r)
        },
    }
}

/// Every node of `t` holds its true balance factor in `b`, and that factor is -1, 0 or 1.
pub open spec fn balanced(b: Seq<i8>, t: Shape) -> bool
    decreases t,
{
    match t {
        Shape::Leaf => true,
        Shape::Node(l, i, r) => {
            &&& i < b.len()
            &&& b[i as int] == r.height() - l.height()
            &&& -1 <= b[i as int] <= 1
            &&& balanced(b, *l)
            &&& balanced(b, *r)
        },
    }
}


/// One step of a path from the root: the node `idx`, whether the path goes on
/// to its left child, the subtree on the other side, and the height that the
/// subtree on the path had before the current update.
pub struct Frame {
    pub idx: nat,
    pub go_left: bool,
    pub sib: Shape,
    pub old_h: nat,
}

/// The node of frame `f` with `s` as its child on the path.
pub open spec fn attach(f: Frame, s: Shape) -> Shape {
    if f.go_left {
        Shape::Node(Box::new(s), f.idx, Box::new(f.sib))
    } else {
        Shape::Node(Box::new(f.sib), f.idx, Box::new(s))
    }
}

/// The whole tree: the subtree `s` put back below the path `fs` (root first).
pub open spec fn plug(fs: Seq<Frame>, s: Shape) -> Shape
    decreases fs.len(),
{
    if fs.len() == 0 {
        s
    } else {
        plug(fs.drop_last(), attach(fs.last(), s))
    }
}

/// Slots that come before the subtree below the path, in order.
pub open spec fn prefix(fs: Seq<Frame>) -> Seq<nat>
    decreases fs.len(),
{
    if fs.len() == 0 {
        Seq::empty()
    } else if fs.last().go_left {
        prefix(fs.drop_last())
    } else {
        prefix(fs.drop_last()) + fs.last().sib.inorder() + seq![fs.last().idx]
    }
}

/// Slots that come after the subtree below the path, in order.
pub open spec fn suffix(fs: Seq<Frame>) -> Seq<nat>
    decreases fs.len(),
{
    if fs.len() == 0 {
        Seq::empty()
    } else if fs.last().go_left {
        seq![fs.last().idx] + fs.last().sib.inorder() + suffix(fs.drop_last())
    } else {
        suffix(fs.drop_last())
    }
}

/// The child arrays hold the path `fs`, with `p` the slot below its last frame.
pub open spec fn path_links<I: Int>(cl: Seq<I>, cr: Seq<I>, fs: Seq<Frame>, p: int) -> bool
    decreases fs.len(),
{
    if fs.len() == 0 {
        true
    } else {
        let f = fs.last();
        &&& f.idx < cl.len()
        &&& f.idx < cr.len()
        &&& if f.go_left {
            cl[f.idx as int].value() == p && cr[f.idx as int].value() == ptr(f.sib, I::max_value())
        } else {
            cr[f.idx as int].value() == p && cl[f.idx as int].value() == ptr(f.sib, I::max_value())
        }
        &&& links(cl, cr, f.sib)
        &&& path_links(cl, cr, fs.drop_last(), f.idx as int)
    }
}

/// Height of the node of frame `f` before the current update.
pub open spec fn frame_height(f: Frame) -> nat {
    1 + if f.sib.height() >= f.old_h { f.sib.height() } else { f.old_h }
}

/// The balance factor held for the node of `f`, computed with the old height on the path.
pub open spec fn frame_bf(f: Frame) -> int {
    if f.go_left {
        f.sib.height() - f.old_h
    } else {
        f.old_h - f.sib.height()
    }
}

/// Every frame holds the balance factor it had before the update, which was
/// -1, 0 or 1, and the old heights along the path fit together.
pub open spec fn path_balanced(b: Seq<i8>, fs: Seq<Frame>) -> bool
    decreases fs.len(),
{
    if fs.len() == 0 {
        true
    } else {
        let f = fs.last();
        let rest = fs.drop_last();
        &&& f.idx < b.len()
        &&& b[f.idx as int] == frame_bf(f)
        &&& -1 <= frame_bf(f) <= 1
        &&& balanced(b, f.sib)
        &&& (rest.len() > 0 ==> rest.last().old_h == frame_height(f))
        &&& path_balanced(b, rest)
    }
}

/// The slots of the path's frames and of their other subtrees.
pub open spec fn path_slots(fs: Seq<Frame>) -> Seq<nat> {
    prefix(fs) + suffix(fs)
}

pub proof fn lemma_plug_inorder(fs: Seq<Frame>, s: Shape)
    ensures
        plug(fs, s).inorder() == prefix(fs) + s.inorder() + suffix(fs),
    decreases fs.len(),
{
    if fs.len() > 0 {
        let f = fs.last();
        lemma_plug_inorder(fs.drop_last(), attach(f, s));
        let p = prefix(fs.drop_last());
        let q = suffix(fs.drop_last());
        if f.go_left {
            assert(p + (s.inorder() + seq![f.idx] + f.sib.inorder()) + q
                =~= p + s.inorder() + (seq![f.idx] + f.sib.inorder() + q));
        } else {
            assert(p + (f.sib.inorder() + seq![f.idx] + s.inorder()) + q
                =~= (p + f.sib.inorder() + seq![f.idx]) + s.inorder() + q);
        }
    }
}

pub proof fn lemma_plug_links<I: Int>(cl: Seq<I>, cr: Seq<I>, fs: Seq<Frame>, s: Shape)
    requires
        path_links(cl, cr, fs, ptr(s, I::max_value())),
        links(cl, cr, s),
    ensures
        links(cl, cr, plug(fs, s)),
    decreases fs.len(),
{
    if fs.len() > 0 {
        lemma_plug_links(cl, cr, fs.drop_last(), attach(fs.last(), s));
    }
}

/// Height of the whole tree when the subtree below the path has its old height.
pub open spec fn plug_height(fs: Seq<Frame>, s: Shape) -> nat {
    if fs.len() == 0 {
        s.height()
    } else {
        frame_height(fs[0])
    }
}

pub proof fn lemma_plug_balanced(b: Seq<i8>, fs: Seq<Frame>, s: Shape)
    requires
        path_balanced(b, fs),
        balanced(b, s),
        fs.len() > 0 ==> fs.last().old_h == s.height(),
    ensures
        balanced(b, plug(fs, s)),
        plug(fs, s).height() == plug_height(fs, s),
    decreases fs.len(),
{
    if fs.len() > 0 {
        let f = fs.last();
        let a = attach(f, s);
        assert(a.height() == frame_height(f));
        lemma_plug_balanced(b, fs.drop_last(), a);
        if fs.len() > 1 {
            assert(fs.drop_last()[0] == fs[0]);
        }
    }
}

/// The child arrays agree on the slots `idxs`.
pub open spec fn agree_on<A>(s1: Seq<A>, s2: Seq<A>, idxs: Seq<nat>) -> bool {
    forall|i: nat| #[trigger] idxs.contains(i) ==> i < s1.len() && i < s2.len() && s1[i as int] == s2[i as int]
}

pub proof fn lemma_links_frame<I: Int>(cl: Seq<I>, cr: Seq<I>, cl2: Seq<I>, cr2: Seq<I>, t: Shape)
    requires
        links(cl, cr, t),
        agree_on(cl, cl2, t.inorder()),
        agree_on(cr, cr2, t.inorder()),
    ensures
        links(cl2, cr2, t),
    decreases t,
{
    if let Shape::Node(l, i, r) = t {
        assert(t.inorder().contains(i)) by {
            assert(t.inorder()[l.inorder().len() as int] == i);
        }
        assert forall|j: nat| #[trigger] l.inorder().contains(j) implies t.inorder().contains(j) by {
            let k = choose|k: int| 0 <= k < l.inorder().len() && l.inorder()[k] == j;
            assert(t.inorder()[k] == j);
        }
        assert forall|j: nat| #[trigger] r.inorder().contains(j) implies t.inorder().contains(j) by {
            let k = choose|k: int| 0 <= k < r.inorder().len() && r.inorder()[k] == j;
            assert(t.inorder()[l.inorder().len() + 1 + k] == j);
        }
        lemma_links_frame(cl, cr, cl2, cr2, *l);
        lemma_links_frame(cl, cr, cl2, cr2, *r);
    }
}

pub proof fn lemma_balanced_frame(b: Seq<i8>, b2: Seq<i8>, t: Shape)
    requires
        balanced(b, t),
        agree_on(b, b2, t.inorder()),
    ensures
        balanced(b2, t),
    decreases t,
{
    if let Shape::Node(l, i, r) = t {
        lemma_inorder_contains(t);
        lemma_balanced_frame(b, b2, *l);
        lemma_balanced_frame(b, b2, *r);
    }
}

/// The slots of a node's subtrees and the node itself are among the node's slots.
pub proof fn lemma_inorder_contains(t: Shape)
    ensures
        t matches Shape::Node(l, i, r) ==> {
            &&& t.inorder().contains(i)
            &&& forall|j: nat| #[trigger] l.inorder().contains(j) ==> t.inorder().contains(j)
            &&& forall|j: nat| #[trigger] r.inorder().contains(j) ==> t.inorder().contains(j)
        },
{
    if let Shape::Node(l, i, r) = t {
        assert(t.inorder()[l.inorder().len() as int] == i);
        assert forall|j: nat| #[trigger] l.inorder().contains(j) implies t.inorder().contains(j) by {
            let k = choose|k: int| 0 <= k < l.inorder().len() && l.inorder()[k] == j;
            assert(t.inorder()[k] == j);
        }
        assert forall|j: nat| #[trigger] r.inorder().contains(j) implies t.inorder().contains(j) by {
            let k = choose|k: int| 0 <= k < r.inorder().len() && r.inorder()[k] == j;
            assert(t.inorder()[l.inorder().len() + 1 + k] == j);
        }
    }
}


/// The slots of a linked tree are within the arrays.
pub proof fn lemma_links_bounds<I: Int>(cl: Seq<I>, cr: Seq<I>, t: Shape)
    requires
        links(cl, cr, t),
    ensures
        forall|j: nat| #[trigger] t.inorder().contains(j) ==> j < cl.len() && j < cr.len(),
    decreases t,
{
    if let Shape::Node(l, i, r) = t {
        lemma_links_bounds(cl, cr, *l);
        lemma_links_bounds(cl, cr, *r);
        assert forall|j: nat| #[trigger] t.inorder().contains(j) implies j < cl.len() && j < cr.len() by {
            let k = choose|k: int| 0 <= k < t.inorder().len() && t.inorder()[k] == j;
            let ll = l.inorder().len() as int;
            if k < ll {
                assert(l.inorder()[k] == j);
                assert(l.inorder().contains(j));
            } else if k == ll {
                assert(t.inorder()[ll] == i);
            } else {
                assert(r.inorder()[k - ll - 1] == j);
                assert(r.inorder().contains(j));
            }
        }
    }
}


/// The slots of a balanced tree are within the balance array.
pub proof fn lemma_balanced_bounds(b: Seq<i8>, t: Shape)
    requires
        balanced(b, t),
    ensures
        forall|j: nat| #[trigger] t.inorder().contains(j) ==> j < b.len(),
    decreases t,
{
    if let Shape::Node(l, i, r) = t {
        lemma_balanced_bounds(b, *l);
        lemma_balanced_bounds(b, *r);
        assert forall|j: nat| #[trigger] t.inorder().contains(j) implies j < b.len() by {
            let k = choose|k: int| 0 <= k < t.inorder().len() && t.inorder()[k] == j;
            let ll = l.inorder().len() as int;
            if k < ll {
                assert(l.inorder()[k] == j);
                assert(l.inorder().contains(j));
            } else if k == ll {
                assert(t.inorder()[ll] == i);
            } else {
                assert(r.inorder()[k - ll - 1] == j);
                assert(r.inorder().contains(j));
            }
        }
    }
}


/// The slots of the frames of a path and of their other subtrees are among the path's slots.
pub proof fn lemma_path_slots(fs: Seq<Frame>)
    ensures
        forall|j: int| 0 <= j < fs.len() ==> path_slots(fs).contains(#[trigger] fs[j].idx),
        forall|j: int, x: nat|
            0 <= j < fs.len() && #[trigger] fs[j].sib.inorder().contains(x) ==> path_slots(fs).contains(x),
        fs.len() > 0 ==> forall|x: nat| #[trigger] path_slots(fs.drop_last()).contains(x) ==> path_slots(fs).contains(x),
    decreases fs.len(),
{
    if fs.len() > 0 {
        let f = fs.last();
        let rest = fs.drop_last();
        lemma_path_slots(rest);
        let ps = path_slots(fs);
        let pr = prefix(rest);
        let sr = suffix(rest);
        assert forall|x: nat| #[trigger] path_slots(rest).contains(x) implies ps.contains(x) by {
            let k = choose|k: int| 0 <= k < path_slots(rest).len() && path_slots(rest)[k] == x;
            if f.go_left {
                assert(ps =~= pr + (seq![f.idx] + f.sib.inorder() + sr));
                if k < pr.len() {
                    assert(ps[k] == x);
                } else {
                    assert(ps[k + 1 + f.sib.inorder().len()] == x);
                }
            } else {
                assert(ps =~= (pr + f.sib.inorder() + seq![f.idx]) + sr);
                if k < pr.len() {
                    assert(ps[k] == x);
                } else {
                    assert(ps[k + 1 + f.sib.inorder().len()] == x);
                }
            }
        }
        if f.go_left {
            assert(ps =~= pr + (seq![f.idx] + f.sib.inorder() + sr));
            assert(ps[pr.len() as int] == f.idx);
            assert forall|x: nat| #[trigger] f.sib.inorder().contains(x) implies ps.contains(x) by {
                let k = choose|k: int| 0 <= k < f.sib.inorder().len() && f.sib.inorder()[k] == x;
                assert(ps[pr.len() + 1 + k] == x);
            }
        } else {
            assert(ps =~= (pr + f.sib.inorder() + seq![f.idx]) + sr);
            assert(ps[pr.len() + f.sib.inorder().len() as int] == f.idx);
            assert forall|x: nat| #[trigger] f.sib.inorder().contains(x) implies ps.contains(x) by {
                let k = choose|k: int| 0 <= k < f.sib.inorder().len() && f.sib.inorder()[k] == x;
                assert(ps[pr.len() + k] == x);
            }
        }
        assert forall|j: int| 0 <= j < fs.len() implies ps.contains(#[trigger] fs[j].idx) by {
            if j < fs.len() - 1 {
                assert(rest[j] == fs[j]);
                assert(path_slots(rest).contains(rest[j].idx));
            }
        }
        assert forall|j: int, x: nat|
            0 <= j < fs.len() && #[trigger] fs[j].sib.inorder().contains(x) implies ps.contains(x) by {
            if j < fs.len() - 1 {
                assert(rest[j] == fs[j]);
                assert(path_slots(rest).contains(x));
            }
        }
    }
}

pub proof fn lemma_path_links_frame<I: Int>(
    cl: Seq<I>,
    cr: Seq<I>,
    cl2: Seq<I>,
    cr2: Seq<I>,
    fs: Seq<Frame>,
    p: int,
)
    requires
        path_links(cl, cr, fs, p),
        agree_on(cl, cl2, path_slots(fs)),
        agree_on(cr, cr2, path_slots(fs)),
    ensures
        path_links(cl2, cr2, fs, p),
    decreases fs.len(),
{
    if fs.len() > 0 {
        let f = fs.last();
        let rest = fs.drop_last();
        lemma_path_slots(fs);
        assert(path_slots(fs).contains(fs[fs.len() - 1].idx));
        assert forall|x: nat| #[trigger] f.sib.inorder().contains(x) implies path_slots(fs).contains(x) by {
            assert(fs[fs.len() - 1].sib.inorder().contains(x));
        }
        lemma_links_frame(cl, cr, cl2, cr2, f.sib);
        lemma_path_links_frame(cl, cr, cl2, cr2, rest, f.idx as int);
    }
}

pub proof fn lemma_path_balanced_frame(b: Seq<i8>, b2: Seq<i8>, fs: Seq<Frame>)
    requires
        path_balanced(b, fs),
        agree_on(b, b2, path_slots(fs)),
    ensures
        path_balanced(b2, fs),
    decreases fs.len(),
{
    if fs.len() > 0 {
        let f = fs.last();
        let rest = fs.drop_last();
        lemma_path_slots(fs);
        assert(path_slots(fs).contains(fs[fs.len() - 1].idx));
        assert forall|x: nat| #[trigger] f.sib.inorder().contains(x) implies path_slots(fs).contains(x) by {
            assert(fs[fs.len() - 1].sib.inorder().contains(x));
        }
        lemma_balanced_frame(b, b2, f.sib);
        lemma_path_balanced_frame(b, b2, rest);
    }
}

/// In a tree without repeated slots, the subtree below a path shares no slot with the path.
pub proof fn lemma_plug_disjoint(fs: Seq<Frame>, s: Shape)
    requires
        plug(fs, s).inorder().no_duplicates(),
    ensures
        s.inorder().no_duplicates(),
        forall|x: nat| #[trigger] s.inorder().contains(x) ==> !path_slots(fs).contains(x),
{
    lemma_plug_inorder(fs, s);
    let w = plug(fs, s).inorder();
    let pr = prefix(fs);
    let si = s.inorder();
    let sf = suffix(fs);
    assert(w == pr + si + sf);
    assert forall|a: int, b: int| 0 <= a < b < si.len() implies si[a] != si[b] by {
        assert(w[pr.len() + a] == si[a]);
        assert(w[pr.len() + b] == si[b]);
    }
    assert forall|x: nat| #[trigger] si.contains(x) implies !path_slots(fs).contains(x) by {
        let k = choose|k: int| 0 <= k < si.len() && si[k] == x;
        assert(w[pr.len() + k] == x);
        if path_slots(fs).contains(x) {
            let m = choose|m: int| 0 <= m < path_slots(fs).len() && path_slots(fs)[m] == x;
            if m < pr.len() {
                assert(w[m] == x);
            } else {
                assert(w[si.len() + m] == x);
            }
        }
    }
}


/// The root of the whole tree is the first frame's node, or the subtree's root for an empty path.
pub proof fn lemma_plug_ptr(fs: Seq<Frame>, s: Shape, nil: int)
    ensures
        fs.len() > 0 ==> plug(fs, s) is Node && ptr(plug(fs, s), nil) == fs[0].idx,
        fs.len() == 0 ==> plug(fs, s) == s,
    decreases fs.len(),
{
    if fs.len() > 0 {
        lemma_plug_ptr(fs.drop_last(), attach(fs.last(), s), nil);
        if fs.len() > 1 {
            assert(fs.drop_last()[0] == fs[0]);
        }
    }
}

/// A path extended by one frame plugs the same tree as the path with the frame's node plugged.
pub proof fn lemma_plug_push(fs: Seq<Frame>, f: Frame, s: Shape)
    ensures
        plug(fs.push(f), s) == plug(fs, attach(f, s)),
        prefix(fs.push(f)) == if f.go_left { prefix(fs) } else { prefix(fs) + f.sib.inorder() + seq![f.idx] },
        suffix(fs.push(f)) == if f.go_left { seq![f.idx] + f.sib.inorder() + suffix(fs) } else { suffix(fs) },
{
    assert(fs.push(f).drop_last() =~= fs);
}


/// The slots of a linked path are within the arrays.
pub proof fn lemma_path_links_bounds<I: Int>(cl: Seq<I>, cr: Seq<I>, fs: Seq<Frame>, p: int)
    requires
        path_links(cl, cr, fs, p),
    ensures
        forall|x: nat| #[trigger] path_slots(fs).contains(x) ==> x < cl.len() && x < cr.len(),
    decreases fs.len(),
{
    if fs.len() > 0 {
        let f = fs.last();
        let rest = fs.drop_last();
        lemma_path_links_bounds(cl, cr, rest, f.idx as int);
        lemma_links_bounds(cl, cr, f.sib);
        let ps = path_slots(fs);
        let pr = prefix(rest);
        let sr = suffix(rest);
        let si = f.sib.inorder();
        assert forall|x: nat| #[trigger] ps.contains(x) implies x < cl.len() && x < cr.len() by {
            let k = choose|k: int| 0 <= k < ps.len() && ps[k] == x;
            if f.go_left {
                assert(ps =~= pr + (seq![f.idx] + si + sr));
                if k < pr.len() {
                    assert(path_slots(rest)[k] == x);
                    assert(path_slots(rest).contains(x));
                } else if k == pr.len() {
                } else if k < pr.len() + 1 + si.len() {
                    assert(si[k - pr.len() - 1] == x);
                    assert(si.contains(x));
                } else {
                    assert(path_slots(rest)[k - 1 - si.len()] == x);
                    assert(path_slots(rest).contains(x));
                }
            } else {
                assert(ps =~= (pr + si + seq![f.idx]) + sr);
                if k < pr.len() {
                    assert(path_slots(rest)[k] == x);
                    assert(path_slots(rest).contains(x));
                } else if k < pr.len() + si.len() {
                    assert(si[k - pr.len()] == x);
                    assert(si.contains(x));
                } else if k == pr.len() + si.len() {
                } else {
                    assert(path_slots(rest)[k - 1 - si.len()] == x);
                    assert(path_slots(rest).contains(x));
                }
            }
        }
    }
}

/// Arrays unchanged outside `inn` agree on slots `out` that avoid `inn`.
pub proof fn lemma_agree_outside<A>(s1: Seq<A>, s2: Seq<A>, inn: Seq<nat>, out: Seq<nat>)
    requires
        s1.len() <= s2.len(),
        forall|j: int| 0 <= j < s1.len() && !inn.contains(j as nat) ==> s1[j] == s2[j],
        forall|x: nat| #[trigger] out.contains(x) ==> x < s1.len() && !inn.contains(x),
    ensures
        agree_on(s1, s2, out),
{
}


/// Plugging into a path made of two parts is plugging into each part in turn.
pub proof fn lemma_plug_concat(a: Seq<Frame>, b: Seq<Frame>, x: Shape)
    ensures
        plug(a + b, x) == plug(a, plug(b, x)),
    decreases b.len(),
{
    if b.len() == 0 {
        assert(a + b =~= a);
    } else {
        lemma_plug_concat(a, b.drop_last(), attach(b.last(), x));
        assert((a + b).drop_last() =~= a + b.drop_last());
        assert((a + b).last() == b.last());
    }
}

/// A path that only goes left has nothing before the subtree below it.
pub proof fn lemma_prefix_all_left(fs: Seq<Frame>)
    requires
        forall|j: int| 0 <= j < fs.len() ==> #[trigger] fs[j].go_left,
    ensures
        prefix(fs) == Seq::<nat>::empty(),
    decreases fs.len(),
{
    if fs.len() > 0 {
        assert(fs[fs.len() - 1].go_left);
        lemma_prefix_all_left(fs.drop_last());
    }
}


/// A path made of two parts is linked when each part is, the upper one down to the lower one's top.
pub proof fn lemma_path_links_concat<I: Int>(cl: Seq<I>, cr: Seq<I>, a: Seq<Frame>, b: Seq<Frame>, p: int)
    requires
        b.len() > 0,
        path_links(cl, cr, b, p),
        path_links(cl, cr, a, b[0].idx as int),
    ensures
        path_links(cl, cr, a + b, p),
    decreases b.len(),
{
    assert((a + b).drop_last() =~= a + b.drop_last());
    assert((a + b).last() == b.last());
    if b.len() > 1 {
        assert(b.drop_last()[0] == b[0]);
        lemma_path_links_concat(cl, cr, a, b.drop_last(), b.last().idx as int);
    } else {
        assert(b.drop_last() =~= Seq::<Frame>::empty());
        assert(a + b.drop_last() =~= a);
    }
}

/// A path made of two parts is balanced when each part is and their old heights fit together.
pub proof fn lemma_path_balanced_concat(bs: Seq<i8>, a: Seq<Frame>, b: Seq<Frame>)
    requires
        b.len() > 0,
        path_balanced(bs, b),
        path_balanced(bs, a),
        a.len() > 0 ==> a.last().old_h == frame_height(b[0]),
    ensures
        path_balanced(bs, a + b),
    decreases b.len(),
{
    assert((a + b).drop_last() =~= a + b.drop_last());
    assert((a + b).last() == b.last());
    if b.len() > 1 {
        assert(b.drop_last()[0] == b[0]);
        lemma_path_balanced_concat(bs, a, b.drop_last());
        assert((a + b.drop_last()).last() == b.drop_last().last());
    } else {
        assert(b.drop_last() =~= Seq::<Frame>::empty());
        assert(a + b.drop_last() =~= a);
    }
}


/// The shape with every slot `j` renamed to `pos[j]`.
pub open spec fn remap(t: Shape, pos: Seq<int>) -> Shape
    decreases t,
{
    match t {
        Shape::Leaf => Shape::Leaf,
        Shape::Node(l, i, r) => Shape::Node(Box::new(remap(*l, pos)), pos[i as int] as nat, Box::new(remap(*r, pos))),
    }
}

/// A child slot value after renaming: `nil` stays, a slot `c` becomes `pos[c]`.
pub open spec fn renamed(x: int, pos: Seq<int>, nil: int) -> int {
    if x == nil {
        nil
    } else {
        pos[x]
    }
}

pub proof fn lemma_remap_shape(t: Shape, pos: Seq<int>)
    requires
        forall|j: nat| #[trigger] t.inorder().contains(j) ==> j < pos.len() && pos[j as int] >= 0,
    ensures
        remap(t, pos).height() == t.height(),
        remap(t, pos).inorder() == t.inorder().map_values(|j: nat| pos[j as int] as nat),
        t is Node ==> remap(t, pos) is Node && remap(t, pos).idx() == pos[t.idx() as int],
        t is Leaf ==> remap(t, pos) is Leaf,
    decreases t,
{
    if let Shape::Node(l, i, r) = t {
        lemma_inorder_contains(t);
        lemma_remap_shape(*l, pos);
        lemma_remap_shape(*r, pos);
        let f = |j: nat| pos[j as int] as nat;
        assert(remap(t, pos).inorder() =~= t.inorder().map_values(f));
    } else {
        assert(remap(t, pos).inorder() =~= t.inorder().map_values(|j: nat| pos[j as int] as nat));
    }
}

pub proof fn lemma_remap_links<I: Int>(cl: Seq<I>, cr: Seq<I>, cl2: Seq<I>, cr2: Seq<I>, t: Shape, pos: Seq<int>)
    requires
        links(cl, cr, t),
        cl.len() <= I::max_value(),
        forall|j: nat| #[trigger] t.inorder().contains(j) ==> {
            &&& j < pos.len()
            &&& 0 <= pos[j as int] < cl2.len()
            &&& pos[j as int] < cr2.len()
            &&& cl2[pos[j as int]].value() == renamed(cl[j as int].value(), pos, I::max_value())
            &&& cr2[pos[j as int]].value() == renamed(cr[j as int].value(), pos, I::max_value())
        },
    ensures
        links(cl2, cr2, remap(t, pos)),
    decreases t,
{
    if let Shape::Node(l, i, r) = t {
        lemma_inorder_contains(t);
        lemma_links_bounds(cl, cr, t);
        lemma_remap_shape(*l, pos);
        lemma_remap_shape(*r, pos);
        if let Shape::Node(_, li, _) = *l {
            lemma_inorder_contains(*l);
        }
        if let Shape::Node(_, ri, _) = *r {
            lemma_inorder_contains(*r);
        }
        lemma_remap_links(cl, cr, cl2, cr2, *l, pos);
        lemma_remap_links(cl, cr, cl2, cr2, *r, pos);
    }
}

pub proof fn lemma_remap_balanced(b: Seq<i8>, b2: Seq<i8>, t: Shape, pos: Seq<int>)
    requires
        balanced(b, t),
        forall|j: nat| #[trigger] t.inorder().contains(j) ==> {
            &&& j < pos.len()
            &&& 0 <= pos[j as int] < b2.len()
            &&& b2[pos[j as int]] == b[j as int]
        },
    ensures
        balanced(b2, remap(t, pos)),
    decreases t,
{
    if let Shape::Node(l, i, r) = t {
        lemma_inorder_contains(t);
        lemma_remap_shape(*l, pos);
        lemma_remap_shape(*r, pos);
        lemma_remap_balanced(b, b2, *l, pos);
        lemma_remap_balanced(b, b2, *r, pos);
    }
}


/// Distinct values that fill `0..d` and lie in `0..=s`, with `d` equal to `s`
/// or `s + 1`, are exactly the values below their number.
pub proof fn lemma_positions_fill(ps: Seq<int>, d: int, s: int)
    requires
        ps.no_duplicates(),
        forall|k: int| 0 <= k < ps.len() ==> 0 <= #[trigger] ps[k] <= s,
        forall|i: int| 0 <= i < d ==> ps.contains(i),
        0 <= d,
        d == s || d == s + 1,
    ensures
        forall|i: int| #[trigger] ps.contains(i) <==> 0 <= i < ps.len(),
        ps.len() <= s + 1,
{
    let x = ps.to_set();
    ps.unique_seq_to_set();
    lemma_int_range(0, s + 1);
    lemma_int_range(0, d);
    let r = set_int_range(0, s + 1);
    let rd = set_int_range(0, d);
    assert(x.subset_of(r)) by {
        assert forall|i: int| x.contains(i) implies r.contains(i) by {
            let k = choose|k: int| 0 <= k < ps.len() && ps[k] == i;
        }
    }
    assert(rd.subset_of(x));
    lemma_len_subset(x, r);
    lemma_len_subset(rd, x);
    if d == s + 1 {
        lemma_subset_equality(x, r);
        assert(x =~= set_int_range(0, ps.len() as int));
    } else if x.len() == d {
        lemma_subset_equality(rd, x);
        assert(x =~= set_int_range(0, ps.len() as int));
    } else {
        lemma_subset_equality(x, r);
        assert(x =~= set_int_range(0, ps.len() as int));
    }
    assert forall|i: int| #[trigger] ps.contains(i) <==> 0 <= i < ps.len() by {
        assert(ps.contains(i) <==> x.contains(i));
    }
}


/// The children of the nodes of a linked tree are nodes of the tree or absent.
pub proof fn lemma_links_children<I: Int>(cl: Seq<I>, cr: Seq<I>, t: Shape)
    requires
        links(cl, cr, t),
    ensures
        forall|j: nat| #[trigger] t.inorder().contains(j) ==> {
            &&& (cl[j as int].value() == I::max_value() || (cl[j as int].value() >= 0 && t.inorder().contains(cl[j as int].value() as nat)))
            &&& (cr[j as int].value() == I::max_value() || (cr[j as int].value() >= 0 && t.inorder().contains(cr[j as int].value() as nat)))
        },
    decreases t,
{
    if let Shape::Node(l, i, r) = t {
        lemma_links_children(cl, cr, *l);
        lemma_links_children(cl, cr, *r);
        lemma_inorder_contains(t);
        lemma_inorder_contains(*l);
        lemma_inorder_contains(*r);
        assert forall|j: nat| #[trigger] t.inorder().contains(j) implies {
            &&& (cl[j as int].value() == I::max_value() || (cl[j as int].value() >= 0 && t.inorder().contains(cl[j as int].value() as nat)))
            &&& (cr[j as int].value() == I::max_value() || (cr[j as int].value() >= 0 && t.inorder().contains(cr[j as int].value() as nat)))
        } by {
            let k = choose|k: int| 0 <= k < t.inorder().len() && t.inorder()[k] == j;
            let ll = l.inorder().len() as int;
            if k < ll {
                assert(l.inorder()[k] == j);
                assert(l.inorder().contains(j));
            } else if k == ll {
                assert(t.inorder()[ll] == i);
            } else {
                assert(r.inorder()[k - ll - 1] == j);
                assert(r.inorder().contains(j));
            }
        }
    }
}


/// Every node of `t` has a balance factor of -1, 0 or 1.
pub open spec fn height_balanced(t: Shape) -> bool
    decreases t,
{
    match t {
        Shape::Leaf => true,
        Shape::Node(l, _, r) => {
            &&& -1 <= r.height() - l.height() <= 1
            &&& height_balanced(*l)
            &&& height_balanced(*r)
        },
    }
}

/// `s` is `t` itself or a subtree below it.
pub open spec fn has_subtree(t: Shape, s: Shape) -> bool
    decreases t,
{
    t == s || match t {
        Shape::Leaf => false,
        Shape::Node(l, _, r) => has_subtree(*l, s) || has_subtree(*r, s),
    }
}

pub proof fn lemma_has_subtree_trans(a: Shape, b: Shape, c: Shape)
    requires
        has_subtree(a, b),
        has_subtree(b, c),
    ensures
        has_subtree(a, c),
    decreases a,
{
    if a != b {
        if let Shape::Node(l, _, r) = a {
            if has_subtree(*l, b) {
                lemma_has_subtree_trans(*l, b, c);
            } else {
                lemma_has_subtree_trans(*r, b, c);
            }
        }
    }
}

/// The subtree below a path is a subtree of the whole tree.
pub proof fn lemma_plug_has_subtree(fs: Seq<Frame>, s: Shape)
    ensures
        has_subtree(plug(fs, s), s),
    decreases fs.len(),
{
    if fs.len() > 0 {
        let a = attach(fs.last(), s);
        lemma_plug_has_subtree(fs.drop_last(), a);
        assert(has_subtree(a.left(), s) || has_subtree(a.right(), s));
        assert(has_subtree(a, s));
        lemma_has_subtree_trans(plug(fs.drop_last(), a), a, s);
    }
}

/// Renaming slots keeps subtrees.
pub proof fn lemma_remap_has_subtree(t: Shape, s: Shape, pos: Seq<int>)
    requires
        has_subtree(t, s),
    ensures
        has_subtree(remap(t, pos), remap(s, pos)),
    decreases t,
{
    if t != s {
        if let Shape::Node(l, _, r) = t {
            if has_subtree(*l, s) {
                lemma_remap_has_subtree(*l, s, pos);
            } else {
                lemma_remap_has_subtree(*r, s, pos);
            }
        }
    }
}

/// A tree whose balance factors are held in `b` is height-balanced, and so is
/// any renaming of its slots.
pub proof fn lemma_balanced_height_balanced(b: Seq<i8>, t: Shape, pos: Seq<int>)
    requires
        balanced(b, t),
        forall|j: nat| #[trigger] t.inorder().contains(j) ==> j < pos.len() && pos[j as int] >= 0,
    ensures
        height_balanced(t),
        height_balanced(remap(t, pos)),
    decreases t,
{
    if let Shape::Node(l, i, r) = t {
        lemma_inorder_contains(t);
        lemma_balanced_height_balanced(b, *l, pos);
        lemma_balanced_height_balanced(b, *r, pos);
        lemma_remap_shape(*l, pos);
        lemma_remap_shape(*r, pos);
    }
}


/// The balance factors of a tree hold those of its subtrees.
pub proof fn lemma_balanced_subtree(b: Seq<i8>, t: Shape, s: Shape)
    requires
        balanced(b, t),
        has_subtree(t, s),
    ensures
        balanced(b, s),
    decreases t,
{
    if t != s {
        if let Shape::Node(l, _, r) = t {
            if has_subtree(*l, s) {
                lemma_balanced_subtree(b, *l, s);
            } else {
                lemma_balanced_subtree(b, *r, s);
            }
        }
    }
}


/// The slot of the leftmost node of `t`: its least in order.
pub open spec fn leftmost(t: Shape) -> nat
    decreases t,
{
    match t {
        Shape::Leaf => 0,
        Shape::Node(l, i, _) => if *l is Leaf { i } else { leftmost(*l) },
    }
}

/// `t` with its leftmost node taken out, that node's right subtree taking its place.
pub open spec fn without_leftmost(t: Shape) -> Shape
    decreases t,
{
    match t {
        Shape::Leaf => Shape::Leaf,
        Shape::Node(l, i, r) => if *l is Leaf { *r } else { Shape::Node(Box::new(without_leftmost(*l)), i, r) },
    }
}

/// Below a path that only goes left, the leftmost node and its removal are
/// those of the subtree at the path's end.
pub proof fn lemma_plug_leftmost(gs: Seq<Frame>, x: Shape)
    requires
        x is Node,
        forall|j: int| 0 <= j < gs.len() ==> #[trigger] gs[j].go_left,
    ensures
        leftmost(plug(gs, x)) == leftmost(x),
        without_leftmost(plug(gs, x)) == plug(gs, without_leftmost(x)),
    decreases gs.len(),
{
    if gs.len() > 0 {
        let g = gs.last();
        let ga = gs.drop_last();
        assert(g.go_left);
        let a = attach(g, x);
        assert(without_leftmost(a) == attach(g, without_leftmost(x)));
        assert forall|j: int| 0 <= j < ga.len() implies #[trigger] ga[j].go_left by {
            assert(ga[j] == gs[j]);
        }
        lemma_plug_leftmost(ga, a);
    }
}

} // verus!
