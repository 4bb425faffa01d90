use vstd::prelude::*;
use crate::primitives::integer::Int;
use crate::primitives::integer::IntNonnegFitsInUsize;
use crate::util::avl_shape::{
    Shape, Frame, ptr, links, balanced, attach, plug, prefix, suffix, path_links, frame_height,
    frame_bf, path_balanced, plug_height, agree_on, path_slots, lemma_path_slots, lemma_path_links_frame,
    lemma_path_balanced_frame, lemma_plug_disjoint, lemma_plug_ptr, lemma_plug_push, lemma_path_links_bounds, lemma_agree_outside, lemma_plug_concat, lemma_prefix_all_left,
    lemma_path_links_concat, lemma_path_balanced_concat,
    remap, renamed, lemma_remap_shape, lemma_remap_links, lemma_remap_balanced, lemma_positions_fill, lemma_links_children, lemma_plug_inorder, lemma_plug_links,
    lemma_plug_balanced, lemma_links_frame, lemma_balanced_frame, lemma_inorder_contains, lemma_links_bounds,
    lemma_balanced_bounds, height_balanced, has_subtree, lemma_plug_has_subtree, lemma_remap_has_subtree,
    lemma_balanced_height_balanced, lemma_balanced_subtree, leftmost, without_leftmost, lemma_plug_leftmost,
};
use crate::util::key_order::{lawful_order, key_lt, key_equiv, lemma_key_order, lemma_key_total, lt_keys, gt_keys};

verus! {

/// An item that an `AvlTree` holds, ordered by its key.
pub trait AvlTreeItem {
    type Key: Ord;

    /// The key of the item. Implementations in verified code define it; the
    /// tree's contracts speak of items through it.
    closed spec fn spec_key(&self) -> Self::Key {
        arbitrary()
    }

    fn key(&self) -> (k: Self::Key)
        ensures
            k == self.spec_key(),
    ;
}

impl AvlTreeItem for i32 {
    type Key = i32;

    open spec fn spec_key(&self) -> i32 {
        *self
    }

    fn key(&self) -> (k: i32) {
        *self
    }
}

/// Keys strictly increase along `s`.
pub open spec fn keys_sorted<T: AvlTreeItem>(s: Seq<T>) -> bool {
    forall|a: int, b: int| 0 <= a < b < s.len() ==> key_lt(s[a].spec_key(), s[b].spec_key())
}

/// The slots `s` are slots of `items`, and the items' keys strictly increase along them.
pub open spec fn slots_sorted<T: AvlTreeItem>(items: Seq<T>, s: Seq<nat>) -> bool {
    &&& forall|k: int| 0 <= k < s.len() ==> #[trigger] s[k] < items.len()
    &&& forall|a: int, b: int|
        0 <= a < b < s.len() ==> key_lt(
            #[trigger] items[s[a] as int].spec_key(),
            #[trigger] items[s[b] as int].spec_key(),
        )
}

/// The items at the slots `s`, in order.
pub open spec fn items_at<T>(items: Seq<T>, s: Seq<nat>) -> Seq<T> {
    s.map_values(|i: nat| items[i as int])
}

/// Number of items of `s` whose keys order before `k`.
pub open spec fn rank<T: AvlTreeItem>(s: Seq<T>, k: T::Key) -> nat
    decreases s.len(),
{
    if s.len() == 0 {
        0
    } else {
        rank(s.drop_last(), k) + if key_lt(s.last().spec_key(), k) {
            1nat
        } else {
            0nat
        }
    }
}

/// An AVL tree.
///
/// Uses growing-array-based storage to minimize memory allocations. Items are
/// lazy-deleted and compacted once the deleted slots reach half, in order to
/// keep deletion amortized-logarithmic. Insertion fills deleted slots first.
///
/// Invariants:
/// - 01: length of `items` must fit within max for the given int type
/// - 02: `child_left`, `child_right`, and `bal_factor` same length as `items`
/// - 03: `root`, `child_left`, and `child_right` point to valid items
/// - 04: `deleted` points to lazy-deleted items currently in `items`
/// - 05: `deleted` contains no duplicates
/// - 06: structure describes a valid AVL tree
pub struct AvlTree<T, I = usize> where T: AvlTreeItem + Default, I: IntNonnegFitsInUsize {
    root: I,
    items: Vec<T>,
    child_left: Vec<I>,
    child_right: Vec<I>,
    bal_factor: Vec<i8>,
    deleted: Vec<I>,
    shape: Ghost<Shape>,
}

impl<T, I> View for AvlTree<T, I> where T: AvlTreeItem + Default, I: IntNonnegFitsInUsize {
    type V = Seq<T>;

    /// The items of the tree in ascending key order.
    closed spec fn view(&self) -> Seq<T> {
        items_at(self.items@, self.shape@.inorder())
    }
}

impl<T, I> AvlTree<T, I> where T: AvlTreeItem + Default, I: IntNonnegFitsInUsize {
    /// `NIL` marks an absent child; it is no valid slot, as the number of slots fits in `I`.
    pub open spec fn nil() -> int {
        I::max_value()
    }

    /// Slot values stored for the deleted slots.
    closed spec fn dvals(&self) -> Seq<int> {
        self.deleted@.map_values(|x: I| x.value())
    }

    /// The arrays have matching lengths that fit in `I`.
    closed spec fn arrays_ok(&self) -> bool {
        &&& self.child_left.len() == self.items.len()
        &&& self.child_right.len() == self.items.len()
        &&& self.bal_factor.len() == self.items.len()
        &&& self.items.len() <= I::max_value()
    }

    /// Live slots and deleted slots partition the slots.
    closed spec fn partition_ok(&self) -> bool {
        let n = self.items.len();
        let live = self.shape@.inorder();
        &&& forall|k: int| 0 <= k < self.deleted.len() ==> 0 <= #[trigger] self.dvals()[k] < n
        &&& self.dvals().no_duplicates()
        &&& forall|j: nat| j < n ==> (live.contains(j) <==> !#[trigger] self.dvals().contains(j as int))
        &&& live.len() + self.deleted.len() == n
    }

    /// The representation invariant.
    pub closed spec fn wf(&self) -> bool {
        &&& self.arrays_ok()
        &&& self.root.value() == ptr(self.shape@, I::max_value())
        &&& links(self.child_left@, self.child_right@, self.shape@)
        &&& balanced(self.bal_factor@, self.shape@)
        &&& slots_sorted(self.items@, self.shape@.inorder())
        &&& self.shape@.inorder().no_duplicates()
        &&& self.partition_ok()
    }

    /// Number of array slots in use, live or deleted.
    pub closed spec fn slots(&self) -> nat {
        self.items.len() as nat
    }

    /// An insertion has a slot to go to: a deleted one, or a new one that fits in `I`.
    pub closed spec fn has_room(&self) -> bool {
        self.items.len() < I::max_value() || self.deleted.len() > 0
    }

    /// Height of the tree.
    pub closed spec fn height(&self) -> nat {
        self.shape@.height()
    }

    /// Fewer than half of the slots, rounded up, are deleted ones, or none is.
    pub open spec fn few_deleted(&self) -> bool {
        ||| self.slots() == self@.len()
        ||| self.slots() - self@.len() < self.slots() - self.slots() / 2
    }

    /// The slots of a tree are its items and its deleted slots; an insertion
    /// has room if a deleted slot is there or a new slot fits in `I`.
    pub proof fn lemma_slots(&self)
        requires
            self.wf(),
        ensures
            self@.len() <= self.slots() <= I::max_value(),
            self.has_room() <==> (self.slots() < I::max_value() || self.slots() > self@.len()),
    {
    }

    /// Whether an insertion has a slot to go to (`has_room`).
    pub fn has_room_now(&self) -> (r: bool)
        requires
            self.wf(),
        ensures
            r == self.has_room(),
    {
        proof {
            I::lemma_int_properties();
            I::lemma_fits_in_usize();
        }
        self.items.len() < Self::slot(I::MAX) || self.deleted.len() > 0
    }

    /// The items of a tree are in strictly increasing key order, so that the
    /// first item has the least key and popping the items one by one hands
    /// them out in that order.
    pub proof fn lemma_view_sorted(&self)
        requires
            self.wf(),
        ensures
            keys_sorted(self@),
    {
        lemma_sorted_view(self.items@, self.shape@.inorder());
    }

    /// An empty tree.
    pub fn new() -> (tree: Self)
        ensures
            tree.wf(),
            tree@ == Seq::<T>::empty(),
            tree.slots() == 0,
    {
        proof {
            I::lemma_int_properties();
        }
        let tree = Self {
            root: I::MAX,
            items: Vec::new(),
            child_left: Vec::new(),
            child_right: Vec::new(),
            bal_factor: Vec::new(),
            deleted: Vec::new(),
            shape: Ghost(Shape::Leaf),
        };
        proof {
            assert(tree.dvals() =~= Seq::<int>::empty());
            assert(tree@ =~= Seq::<T>::empty());
        }
        tree
    }

    /// The number of items in the tree.
    pub fn len(&self) -> (n: I)
        requires
            self.wf(),
        ensures
            n.value() == self@.len(),
    {
        // unchecked conversion valid per invariants 01, 04, 05
        I::from_usize_unchecked(self.items.len() - self.deleted.len())
    }

    /// Reads a slot value that is known to be a valid slot or `NIL`.
    fn slot(x: I) -> (r: usize)
        requires
            0 <= x.value() <= I::max_value(),
        ensures
            r == x.value(),
    {
        proof {
            I::lemma_fits_in_usize();
        }
        x.to_usize_unchecked()
    }

    fn rotate_left(&mut self, node: I, Ghost(t): Ghost<Shape>)
        requires
            old(self).arrays_ok(),
            t is Node,
            t.right() is Node,
            node.value() == t.idx(),
            links(old(self).child_left@, old(self).child_right@, t),
            t.inorder().no_duplicates(),
            old(self).bal_factor@[t.right().idx() as int] == 0
                || old(self).bal_factor@[t.right().idx() as int] == 1,
        ensures
            final(self).arrays_ok(),
            final(self).items == old(self).items,
            final(self).deleted == old(self).deleted,
            final(self).root == old(self).root,
            final(self).shape == old(self).shape,
            links(final(self).child_left@, final(self).child_right@, rot_left(t)),
            final(self).bal_factor@ == if old(self).bal_factor@[t.right().idx() as int] == 1 {
                old(self).bal_factor@.update(t.idx() as int, 0i8).update(t.right().idx() as int, 0i8)
            } else {
                old(self).bal_factor@.update(t.idx() as int, 1i8).update(t.right().idx() as int, -1i8)
            },
            forall|j: int| 0 <= j < old(self).items.len() && j != t.idx() && j != t.right().idx() ==> {
                &&& final(self).child_left@[j] == old(self).child_left@[j]
                &&& final(self).child_right@[j] == old(self).child_right@[j]
            },
    {
        proof {
            I::lemma_int_properties();
            lemma_nodup_node(t);
            lemma_nodup_node(t.right());
            reveal_with_fuel(links, 2);
        }
        let n_usize = Self::slot(node);
        let cr = self.child_right[n_usize];
        let cr_usize = Self::slot(cr);

        let crl = self.child_left[cr_usize];
        self.child_right.set(n_usize, crl);
        self.child_left.set(cr_usize, node);
        if self.bal_factor[cr_usize] == 1 {
            self.bal_factor.set(n_usize, 0);
            self.bal_factor.set(cr_usize, 0);
        } else {
            self.bal_factor.set(n_usize, 1);
            self.bal_factor.set(cr_usize, -1);
        }
        proof {
            let tr = t.right();
            let ghost cl0 = old(self).child_left@;
            let ghost cr0 = old(self).child_right@;
            let ghost cl1 = self.child_left@;
            let ghost cr1 = self.child_right@;
            lemma_inorder_contains(t);
            lemma_inorder_contains(tr);
            lemma_links_bounds(cl0, cr0, t);
            lemma_links_frame(cl0, cr0, cl1, cr1, t.left());
            lemma_links_frame(cl0, cr0, cl1, cr1, tr.left());
            lemma_links_frame(cl0, cr0, cl1, cr1, tr.right());
            reveal_with_fuel(links, 3);
            lemma_links_frame(cl0, cr0, cl1, cr1, tr.right());
        }
    }

    fn rotate_right(&mut self, node: I, Ghost(t): Ghost<Shape>)
        requires
            old(self).arrays_ok(),
            t is Node,
            t.left() is Node,
            node.value() == t.idx(),
            links(old(self).child_left@, old(self).child_right@, t),
            t.inorder().no_duplicates(),
            old(self).bal_factor@[t.left().idx() as int] == 0
                || old(self).bal_factor@[t.left().idx() as int] == -1,
        ensures
            final(self).arrays_ok(),
            final(self).items == old(self).items,
            final(self).deleted == old(self).deleted,
            final(self).root == old(self).root,
            final(self).shape == old(self).shape,
            links(final(self).child_left@, final(self).child_right@, rot_right(t)),
            final(self).bal_factor@ == if old(self).bal_factor@[t.left().idx() as int] == -1 {
                old(self).bal_factor@.update(t.idx() as int, 0i8).update(t.left().idx() as int, 0i8)
            } else {
                old(self).bal_factor@.update(t.idx() as int, -1i8).update(t.left().idx() as int, 1i8)
            },
            forall|j: int| 0 <= j < old(self).items.len() && j != t.idx() && j != t.left().idx() ==> {
                &&& final(self).child_left@[j] == old(self).child_left@[j]
                &&& final(self).child_right@[j] == old(self).child_right@[j]
            },
    {
        proof {
            I::lemma_int_properties();
            lemma_nodup_node(t);
            lemma_nodup_node(t.left());
            reveal_with_fuel(links, 2);
        }
        let n_usize = Self::slot(node);
        let cl = self.child_left[n_usize];
        let cl_usize = Self::slot(cl);

        let clr = self.child_right[cl_usize];
        self.child_left.set(n_usize, clr);
        self.child_right.set(cl_usize, node);
        if self.bal_factor[cl_usize] == -1 {
            self.bal_factor.set(n_usize, 0);
            self.bal_factor.set(cl_usize, 0);
        } else {
            self.bal_factor.set(n_usize, -1);
            self.bal_factor.set(cl_usize, 1);
        }
        proof {
            let tl = t.left();
            let ghost cl0 = old(self).child_left@;
            let ghost cr0 = old(self).child_right@;
            let ghost cl1 = self.child_left@;
            let ghost cr1 = self.child_right@;
            lemma_inorder_contains(t);
            lemma_inorder_contains(tl);
            lemma_links_bounds(cl0, cr0, t);
            lemma_links_frame(cl0, cr0, cl1, cr1, t.right());
            lemma_links_frame(cl0, cr0, cl1, cr1, tl.left());
            lemma_links_frame(cl0, cr0, cl1, cr1, tl.right());
            reveal_with_fuel(links, 3);
        }
    }

    fn rotate_leftright(&mut self, node: I, Ghost(t): Ghost<Shape>)
        requires
            old(self).arrays_ok(),
            t is Node,
            t.left() is Node,
            t.left().right() is Node,
            node.value() == t.idx(),
            links(old(self).child_left@, old(self).child_right@, t),
            t.inorder().no_duplicates(),
            -1 <= old(self).bal_factor@[t.left().right().idx() as int] <= 1,
        ensures
            final(self).arrays_ok(),
            final(self).items == old(self).items,
            final(self).deleted == old(self).deleted,
            final(self).root == old(self).root,
            final(self).shape == old(self).shape,
            links(final(self).child_left@, final(self).child_right@, rot_leftright(t)),
            ({
                let b = old(self).bal_factor@;
                let n = t.idx() as int;
                let c = t.left().idx() as int;
                let g = t.left().right().idx() as int;
                final(self).bal_factor@ == if b[g] == 0 {
                    b.update(n, 0i8).update(c, 0i8)
                } else if b[g] == 1 {
                    b.update(n, 0i8).update(c, -1i8).update(g, 0i8)
                } else {
                    b.update(n, 1i8).update(c, 0i8).update(g, 0i8)
                }
            }),
            forall|j: int|
                0 <= j < old(self).items.len() && j != t.idx() && j != t.left().idx() && j
                    != t.left().right().idx() ==> {
                    &&& final(self).child_left@[j] == old(self).child_left@[j]
                    &&& final(self).child_right@[j] == old(self).child_right@[j]
                },
    {
        proof {
            I::lemma_int_properties();
            lemma_nodup_node(t);
            lemma_nodup_node(t.left());
            lemma_nodup_node(t.left().right());
            lemma_inorder_contains(t);
            lemma_inorder_contains(t.left());
            lemma_inorder_contains(t.left().right());
            reveal_with_fuel(links, 3);
        }
        let n_usize = Self::slot(node);
        let cl = self.child_left[n_usize];
        let cl_usize = Self::slot(cl);
        let clr = self.child_right[cl_usize];
        let clr_usize = Self::slot(clr);

        let clrl = self.child_left[clr_usize];
        self.child_right.set(cl_usize, clrl);
        self.child_left.set(clr_usize, cl);
        let clrr = self.child_right[clr_usize];
        self.child_left.set(n_usize, clrr);
        self.child_right.set(clr_usize, node);
        if self.bal_factor[clr_usize] == 0 {
            // all three nodes balanced after rotation (clr still = 0)
            self.bal_factor.set(n_usize, 0);
            self.bal_factor.set(cl_usize, 0);
        } else if self.bal_factor[clr_usize] == 1 {
            self.bal_factor.set(n_usize, 0);
            self.bal_factor.set(cl_usize, -1);
            self.bal_factor.set(clr_usize, 0);
        } else {
            self.bal_factor.set(n_usize, 1);
            self.bal_factor.set(cl_usize, 0);
            self.bal_factor.set(clr_usize, 0);
        }
        proof {
            let tl = t.left();
            let tlr = tl.right();
            let ghost cl0 = old(self).child_left@;
            let ghost cr0 = old(self).child_right@;
            let ghost cl1 = self.child_left@;
            let ghost cr1 = self.child_right@;
            lemma_links_bounds(cl0, cr0, t);
            lemma_links_frame(cl0, cr0, cl1, cr1, t.right());
            lemma_links_frame(cl0, cr0, cl1, cr1, tl.left());
            lemma_links_frame(cl0, cr0, cl1, cr1, tlr.left());
            lemma_links_frame(cl0, cr0, cl1, cr1, tlr.right());
            reveal_with_fuel(links, 3);
        }
    }

    fn rotate_rightleft(&mut self, node: I, Ghost(t): Ghost<Shape>)
        requires
            old(self).arrays_ok(),
            t is Node,
            t.right() is Node,
            t.right().left() is Node,
            node.value() == t.idx(),
            links(old(self).child_left@, old(self).child_right@, t),
            t.inorder().no_duplicates(),
            -1 <= old(self).bal_factor@[t.right().left().idx() as int] <= 1,
        ensures
            final(self).arrays_ok(),
            final(self).items == old(self).items,
            final(self).deleted == old(self).deleted,
            final(self).root == old(self).root,
            final(self).shape == old(self).shape,
            links(final(self).child_left@, final(self).child_right@, rot_rightleft(t)),
            ({
                let b = old(self).bal_factor@;
                let n = t.idx() as int;
                let c = t.right().idx() as int;
                let g = t.right().left().idx() as int;
                final(self).bal_factor@ == if b[g] == 0 {
                    b.update(n, 0i8).update(c, 0i8)
                } else if b[g] == 1 {
                    b.update(n, -1i8).update(c, 0i8).update(g, 0i8)
                } else {
                    b.update(n, 0i8).update(c, 1i8).update(g, 0i8)
                }
            }),
            forall|j: int|
                0 <= j < old(self).items.len() && j != t.idx() && j != t.right().idx() && j
                    != t.right().left().idx() ==> {
                    &&& final(self).child_left@[j] == old(self).child_left@[j]
                    &&& final(self).child_right@[j] == old(self).child_right@[j]
                },
    {
        proof {
            I::lemma_int_properties();
            lemma_nodup_node(t);
            lemma_nodup_node(t.right());
            lemma_nodup_node(t.right().left());
            lemma_inorder_contains(t);
            lemma_inorder_contains(t.right());
            lemma_inorder_contains(t.right().left());
            reveal_with_fuel(links, 3);
        }
        let n_usize = Self::slot(node);
        let cr = self.child_right[n_usize];
        let cr_usize = Self::slot(cr);
        let crl = self.child_left[cr_usize];
        let crl_usize = Self::slot(crl);

        let crlr = self.child_right[crl_usize];
        self.child_left.set(cr_usize, crlr);
        self.child_right.set(crl_usize, cr);
        let crll = self.child_left[crl_usize];
        self.child_right.set(n_usize, crll);
        self.child_left.set(crl_usize, node);
        if self.bal_factor[crl_usize] == 0 {
            // all three nodes balanced after rotation (crl still = 0)
            self.bal_factor.set(n_usize, 0);
            self.bal_factor.set(cr_usize, 0);
        } else if self.bal_factor[crl_usize] == 1 {
            self.bal_factor.set(n_usize, -1);
            self.bal_factor.set(cr_usize, 0);
            self.bal_factor.set(crl_usize, 0);
        } else {
            self.bal_factor.set(n_usize, 0);
            self.bal_factor.set(cr_usize, 1);
            self.bal_factor.set(crl_usize, 0);
        }
        proof {
            let tr = t.right();
            let trl = tr.left();
            let ghost cl0 = old(self).child_left@;
            let ghost cr0 = old(self).child_right@;
            let ghost cl1 = self.child_left@;
            let ghost cr1 = self.child_right@;
            lemma_links_bounds(cl0, cr0, t);
            lemma_links_frame(cl0, cr0, cl1, cr1, t.left());
            lemma_links_frame(cl0, cr0, cl1, cr1, tr.right());
            lemma_links_frame(cl0, cr0, cl1, cr1, trl.left());
            lemma_links_frame(cl0, cr0, cl1, cr1, trl.right());
            reveal_with_fuel(links, 3);
        }
    }

    /// Filling a deleted or a new slot `n` and adding it to the live slots keeps the partition.
    proof fn lemma_fill_partition(old: Self, new: Self, n: nat, w2: Seq<nat>)
        requires
            old.arrays_ok(),
            old.partition_ok(),
            old.deleted.len() > 0 ==> {
                &&& n == old.dvals().last()
                &&& new.deleted@ == old.deleted@.drop_last()
                &&& new.items.len() == old.items.len()
            },
            old.deleted.len() == 0 ==> {
                &&& n == old.items.len()
                &&& new.deleted == old.deleted
                &&& new.items.len() == old.items.len() + 1
            },
            new.shape@.inorder() == w2,
            w2.len() == old.shape@.inorder().len() + 1,
            forall|j: nat| #[trigger] w2.contains(j) <==> (old.shape@.inorder().contains(j) || j == n),
        ensures
            new.partition_ok(),
    {
        let d0 = old.dvals();
        let d1 = new.dvals();
        if old.deleted.len() > 0 {
            assert(d1 =~= d0.drop_last());
            assert forall|j: nat| j < new.items.len() implies (w2.contains(j) <==> !#[trigger] d1.contains(j as int)) by {
                if j == n {
                    if d1.contains(j as int) {
                        let k = choose|k: int| 0 <= k < d1.len() && d1[k] == j;
                        assert(d0[k] == d0[d0.len() - 1]);
                    }
                } else {
                    assert(old.shape@.inorder().contains(j) <==> !d0.contains(j as int));
                    if d0.contains(j as int) {
                        let k = choose|k: int| 0 <= k < d0.len() && d0[k] == j;
                        assert(k != d0.len() - 1);
                        assert(d1[k] == j);
                    }
                    if d1.contains(j as int) {
                        let k = choose|k: int| 0 <= k < d1.len() && d1[k] == j;
                        assert(d0[k] == j);
                    }
                }
            }
        } else {
            assert(d1 =~= d0);
            assert forall|j: nat| j < new.items.len() implies (w2.contains(j) <==> !#[trigger] d1.contains(j as int)) by {
                if j == n {
                    if d1.contains(j as int) {
                        let k = choose|k: int| 0 <= k < d1.len() && d1[k] == j;
                    }
                } else {
                    assert(old.shape@.inorder().contains(j) <==> !d0.contains(j as int));
                }
            }
        }
    }

    /// Facts after a new leaf `n` holding `item` is attached below `cur`, at the
    /// end of the descent of an insertion: what retracing and the final state need.
    #[verifier::rlimit(100)]
    #[verifier::spinoff_prover]
    proof fn lemma_insert_leaf_facts(
        self,
        before: Self,
        mid1: Self,
        fs: Seq<Frame>,
        cur: Shape,
        tp: Shape,
        n: nat,
        q: int,
        left: bool,
        item: T,
    )
        requires
            before.wf(),
            lawful_order::<T::Key>(),
            plug(fs, cur) == before.shape@,
            prefix(fs) + cur.inorder() + suffix(fs) == before.shape@.inorder(),
            cur is Node,
            path_links(before.child_left@, before.child_right@, fs, cur.idx() as int),
            links(before.child_left@, before.child_right@, cur),
            path_balanced(before.bal_factor@, fs),
            balanced(before.bal_factor@, cur),
            fs.len() > 0 ==> fs.last().old_h == cur.height(),
            all_below(before.items@, prefix(fs), item.spec_key()),
            all_above(before.items@, suffix(fs), item.spec_key()),
            left ==> key_lt(item.spec_key(), before.items@[cur.idx() as int].spec_key()),
            left ==> before.child_left@[cur.idx() as int].value() == I::max_value(),
            !left ==> key_lt(before.items@[cur.idx() as int].spec_key(), item.spec_key()),
            !left ==> before.child_right@[cur.idx() as int].value() == I::max_value(),
            slot_filled(before, mid1, n as int, item),
            before.deleted.len() > 0 ==> {
                &&& n == before.dvals().last()
                &&& mid1.deleted@ == before.deleted@.drop_last()
                &&& mid1.items.len() == before.items.len()
            },
            before.deleted.len() == 0 ==> {
                &&& n == before.items.len()
                &&& mid1.deleted == before.deleted
                &&& mid1.items.len() == before.items.len() + 1
            },
            self.items == mid1.items,
            self.deleted == mid1.deleted,
            self.root == mid1.root,
            self.child_left@ == if left {
                mid1.child_left@.update(cur.idx() as int, self.child_left@[cur.idx() as int])
            } else {
                mid1.child_left@
            },
            self.child_right@ == if left {
                mid1.child_right@
            } else {
                mid1.child_right@.update(cur.idx() as int, self.child_right@[cur.idx() as int])
            },
            left ==> self.child_left@[cur.idx() as int].value() == n,
            !left ==> self.child_right@[cur.idx() as int].value() == n,
            self.bal_factor@ == mid1.bal_factor@.update(
                cur.idx() as int,
                (mid1.bal_factor@[cur.idx() as int] + if left { -1int } else { 1int }) as i8,
            ),
            tp == if left {
                Shape::Node(
                    Box::new(Shape::Node(Box::new(Shape::Leaf), n, Box::new(Shape::Leaf))),
                    cur.idx(),
                    Box::new(cur.right()),
                )
            } else {
                Shape::Node(
                    Box::new(cur.left()),
                    cur.idx(),
                    Box::new(Shape::Node(Box::new(Shape::Leaf), n, Box::new(Shape::Leaf))),
                )
            },
            q == if left { prefix(fs).len() as int } else { (prefix(fs).len() + cur.left().inorder().len() + 1) as int },
        ensures
            self.arrays_ok(),
            tp is Node,
            path_links(self.child_left@, self.child_right@, fs, tp.idx() as int),
            links(self.child_left@, self.child_right@, tp),
            path_balanced(self.bal_factor@, fs),
            fs.len() > 0 ==> fs.last().old_h == cur.height(),
            balanced(self.bal_factor@, tp.left()),
            balanced(self.bal_factor@, tp.right()),
            tp.idx() < self.bal_factor.len(),
            self.bal_factor@[tp.idx() as int] == tp.bf(),
            insert_grown(tp, cur.height()),
    {
        let w = before.shape@.inorder();
        let k = item.spec_key();
        let i = cur.idx();
        let l = cur.left();
        let r = cur.right();
        let leaf = Shape::Node(Box::new(Shape::Leaf), n, Box::new(Shape::Leaf));
        let pre = prefix(fs);
        let suf = suffix(fs);
        I::lemma_int_properties();
        lemma_key_order::<T::Key>();
        lemma_sorted_nodup(before.items@, w);
        lemma_sorted_view(before.items@, w);
        lemma_plug_inorder(fs, cur);
        lemma_plug_inorder(fs, tp);
        lemma_plug_disjoint(fs, cur);
        lemma_inorder_contains(cur);
        lemma_nodup_node(cur);
        lemma_links_bounds(before.child_left@, before.child_right@, cur);
        lemma_balanced_bounds(before.bal_factor@, cur);
        lemma_path_links_bounds(before.child_left@, before.child_right@, fs, i as int);
        assert(cur.inorder() == l.inorder() + seq![i] + r.inorder());
        // the new slot is fresh
        assert(!w.contains(n)) by {
            if w.contains(n) {
                if before.deleted.len() > 0 {
                    assert(before.dvals()[before.deleted.len() - 1] == n);
                    assert(before.dvals().contains(n as int));
                } else {
                    let j = choose|j: int| 0 <= j < w.len() && w[j] == n;
                    assert(w[j] < before.items.len());
                }
            }
        }
        assert(!cur.inorder().contains(n)) by {
            if cur.inorder().contains(n) {
                let j = choose|j: int| 0 <= j < cur.inorder().len() && cur.inorder()[j] == n;
                assert(w[pre.len() + j] == n);
            }
        }
        assert(!path_slots(fs).contains(n)) by {
            if path_slots(fs).contains(n) {
                let j = choose|j: int| 0 <= j < path_slots(fs).len() && path_slots(fs)[j] == n;
                if j < pre.len() {
                    assert(w[j] == n);
                } else {
                    assert(w[cur.inorder().len() + j] == n);
                }
            }
        }
        // the leaf side is empty
        if left {
            if l is Node {
                lemma_links_bounds(before.child_left@, before.child_right@, l);
                lemma_inorder_contains(l);
            }
            assert(l is Leaf);
        } else {
            if r is Node {
                lemma_links_bounds(before.child_left@, before.child_right@, r);
                lemma_inorder_contains(r);
            }
            assert(r is Leaf);
        }
        // arrays agree outside the new slot and the parent
        let sib = if left { r } else { l };
        let two = seq![i, n];
        assert forall|j: nat| #[trigger] two.contains(j) <==> (j == i || j == n) by {
            if two.contains(j) {
                let m = choose|m: int| 0 <= m < 2 && two[m] == j;
            }
            if j == i {
                assert(two[0] == i);
            }
            if j == n {
                assert(two[1] == n);
            }
        }
        assert forall|j: int| 0 <= j < before.items.len() && j != i && j != n implies {
            &&& self.child_left@[j] == before.child_left@[j]
            &&& self.child_right@[j] == before.child_right@[j]
            &&& self.bal_factor@[j] == before.bal_factor@[j]
        } by {
            assert(mid1.child_left@[j] == before.child_left@[j]);
            assert(mid1.child_right@[j] == before.child_right@[j]);
        }
        lemma_agree_outside(before.child_left@, self.child_left@, two, path_slots(fs));
        lemma_agree_outside(before.child_right@, self.child_right@, two, path_slots(fs));
        lemma_agree_outside(before.bal_factor@, self.bal_factor@, two, path_slots(fs));
        lemma_path_links_frame(before.child_left@, before.child_right@, self.child_left@, self.child_right@, fs, i as int);
        lemma_path_balanced_frame(before.bal_factor@, self.bal_factor@, fs);
        if sib is Node {
            lemma_links_bounds(before.child_left@, before.child_right@, sib);
        }
        lemma_agree_outside(before.child_left@, self.child_left@, two, sib.inorder());
        lemma_agree_outside(before.child_right@, self.child_right@, two, sib.inorder());
        lemma_agree_outside(before.bal_factor@, self.bal_factor@, two, sib.inorder());
        lemma_links_frame(before.child_left@, before.child_right@, self.child_left@, self.child_right@, sib);
        lemma_balanced_frame(before.bal_factor@, self.bal_factor@, sib);
        assert(links(self.child_left@, self.child_right@, leaf));
        assert(balanced(self.bal_factor@, leaf));
        assert(links(self.child_left@, self.child_right@, tp));
    }

    /// The order of the slots after a new leaf `n` holding `item` is attached
    /// below `cur` at the end of the descent of an insertion.
    #[verifier::rlimit(100)]
    #[verifier::spinoff_prover]
    proof fn lemma_insert_leaf_order(
        self,
        before: Self,
        mid1: Self,
        fs: Seq<Frame>,
        cur: Shape,
        tp: Shape,
        n: nat,
        q: int,
        left: bool,
        item: T,
    )
        requires
            before.wf(),
            lawful_order::<T::Key>(),
            plug(fs, cur) == before.shape@,
            prefix(fs) + cur.inorder() + suffix(fs) == before.shape@.inorder(),
            cur is Node,
            path_links(before.child_left@, before.child_right@, fs, cur.idx() as int),
            links(before.child_left@, before.child_right@, cur),
            path_balanced(before.bal_factor@, fs),
            balanced(before.bal_factor@, cur),
            fs.len() > 0 ==> fs.last().old_h == cur.height(),
            all_below(before.items@, prefix(fs), item.spec_key()),
            all_above(before.items@, suffix(fs), item.spec_key()),
            left ==> key_lt(item.spec_key(), before.items@[cur.idx() as int].spec_key()),
            left ==> before.child_left@[cur.idx() as int].value() == I::max_value(),
            !left ==> key_lt(before.items@[cur.idx() as int].spec_key(), item.spec_key()),
            !left ==> before.child_right@[cur.idx() as int].value() == I::max_value(),
            slot_filled(before, mid1, n as int, item),
            before.deleted.len() > 0 ==> {
                &&& n == before.dvals().last()
                &&& mid1.deleted@ == before.deleted@.drop_last()
                &&& mid1.items.len() == before.items.len()
            },
            before.deleted.len() == 0 ==> {
                &&& n == before.items.len()
                &&& mid1.deleted == before.deleted
                &&& mid1.items.len() == before.items.len() + 1
            },
            self.items == mid1.items,
            self.deleted == mid1.deleted,
            self.root == mid1.root,
            self.child_left@ == if left {
                mid1.child_left@.update(cur.idx() as int, self.child_left@[cur.idx() as int])
            } else {
                mid1.child_left@
            },
            self.child_right@ == if left {
                mid1.child_right@
            } else {
                mid1.child_right@.update(cur.idx() as int, self.child_right@[cur.idx() as int])
            },
            left ==> self.child_left@[cur.idx() as int].value() == n,
            !left ==> self.child_right@[cur.idx() as int].value() == n,
            self.bal_factor@ == mid1.bal_factor@.update(
                cur.idx() as int,
                (mid1.bal_factor@[cur.idx() as int] + if left { -1int } else { 1int }) as i8,
            ),
            tp == if left {
                Shape::Node(
                    Box::new(Shape::Node(Box::new(Shape::Leaf), n, Box::new(Shape::Leaf))),
                    cur.idx(),
                    Box::new(cur.right()),
                )
            } else {
                Shape::Node(
                    Box::new(cur.left()),
                    cur.idx(),
                    Box::new(Shape::Node(Box::new(Shape::Leaf), n, Box::new(Shape::Leaf))),
                )
            },
            q == if left { prefix(fs).len() as int } else { (prefix(fs).len() + cur.left().inorder().len() + 1) as int },
        ensures
            ({
                let w = before.shape@.inorder();
                &&& plug(fs, tp).inorder() == w.insert(q, n)
                &&& 0 <= q <= w.len()
                &&& w.insert(q, n).len() == w.len() + 1
                &&& forall|j: nat| #[trigger] w.insert(q, n).contains(j) <==> (w.contains(j) || j == n)
                &&& slots_sorted(self.items@, w.insert(q, n))
                &&& items_at(self.items@, w.insert(q, n)) == before@.insert(q, item)
                &&& rank(before@, item.spec_key()) == q
                &&& !(q < before@.len() && key_equiv(before@[q].spec_key(), item.spec_key()))
            }),
    {
        let w = before.shape@.inorder();
        let k = item.spec_key();
        let i = cur.idx();
        let l = cur.left();
        let r = cur.right();
        let leaf = Shape::Node(Box::new(Shape::Leaf), n, Box::new(Shape::Leaf));
        let pre = prefix(fs);
        let suf = suffix(fs);
        I::lemma_int_properties();
        lemma_key_order::<T::Key>();
        lemma_sorted_nodup(before.items@, w);
        lemma_sorted_view(before.items@, w);
        lemma_plug_inorder(fs, cur);
        lemma_plug_inorder(fs, tp);
        lemma_plug_disjoint(fs, cur);
        lemma_inorder_contains(cur);
        lemma_nodup_node(cur);
        lemma_links_bounds(before.child_left@, before.child_right@, cur);
        lemma_balanced_bounds(before.bal_factor@, cur);
        lemma_path_links_bounds(before.child_left@, before.child_right@, fs, i as int);
        assert(cur.inorder() == l.inorder() + seq![i] + r.inorder());
        // the new slot is fresh
        assert(!w.contains(n)) by {
            if w.contains(n) {
                if before.deleted.len() > 0 {
                    assert(before.dvals()[before.deleted.len() - 1] == n);
                    assert(before.dvals().contains(n as int));
                } else {
                    let j = choose|j: int| 0 <= j < w.len() && w[j] == n;
                    assert(w[j] < before.items.len());
                }
            }
        }
        assert(!cur.inorder().contains(n)) by {
            if cur.inorder().contains(n) {
                let j = choose|j: int| 0 <= j < cur.inorder().len() && cur.inorder()[j] == n;
                assert(w[pre.len() + j] == n);
            }
        }
        assert(!path_slots(fs).contains(n)) by {
            if path_slots(fs).contains(n) {
                let j = choose|j: int| 0 <= j < path_slots(fs).len() && path_slots(fs)[j] == n;
                if j < pre.len() {
                    assert(w[j] == n);
                } else {
                    assert(w[cur.inorder().len() + j] == n);
                }
            }
        }
        // the leaf side is empty
        if left {
            if l is Node {
                lemma_links_bounds(before.child_left@, before.child_right@, l);
                lemma_inorder_contains(l);
            }
            assert(l is Leaf);
        } else {
            if r is Node {
                lemma_links_bounds(before.child_left@, before.child_right@, r);
                lemma_inorder_contains(r);
            }
            assert(r is Leaf);
        }
        // the new order of slots
        let w2 = w.insert(q, n);
        assert(leaf.inorder() =~= seq![n]);
        if left {
            assert(l.inorder() =~= Seq::<nat>::empty());
            assert(tp.inorder() == leaf.inorder() + seq![i] + r.inorder());
            assert(w =~= pre + (seq![i] + r.inorder()) + suf);
            assert forall|m: int| 0 <= m < w2.len() implies w2[m] == (pre + tp.inorder() + suf)[m] by {
                if m < q {
                } else if m == q {
                } else {
                    assert(w2[m] == w[m - 1]);
                }
            }
            assert(pre + tp.inorder() + suf =~= w2);
            assert(w.take(q) =~= pre);
            assert(w.skip(q) =~= seq![i] + r.inorder() + suf);
            lemma_descend_left(before.items@, pre, cur, suf, k);
        } else {
            assert(r.inorder() =~= Seq::<nat>::empty());
            assert(tp.inorder() == l.inorder() + seq![i] + leaf.inorder());
            assert(w =~= (pre + l.inorder() + seq![i]) + suf);
            assert forall|m: int| 0 <= m < w2.len() implies w2[m] == (pre + tp.inorder() + suf)[m] by {
                if m < q {
                } else if m == q {
                } else {
                    assert(w2[m] == w[m - 1]);
                }
            }
            assert(pre + tp.inorder() + suf =~= w2);
            assert(w.take(q) =~= pre + l.inorder() + seq![i]);
            assert(w.skip(q) =~= suf);
            lemma_descend_right(before.items@, pre, cur, suf, k);
        }
        assert forall|j: nat| #[trigger] w2.contains(j) <==> (w.contains(j) || j == n) by {
            if w2.contains(j) {
                let m = choose|m: int| 0 <= m < w2.len() && w2[m] == j;
                if m < q {
                    assert(w[m] == j);
                } else if m > q {
                    assert(w[m - 1] == j);
                }
            }
            if w.contains(j) {
                let m = choose|m: int| 0 <= m < w.len() && w[m] == j;
                if m < q {
                    assert(w2[m] == j);
                } else {
                    assert(w2[m + 1] == j);
                }
            }
            if j == n {
                assert(w2[q] == n);
            }
        }
        assert forall|j: int| 0 <= j < w.len() implies w[j] < before.items.len() && w[j] < self.items.len()
            && #[trigger] self.items@[w[j] as int] == before.items@[w[j] as int] by {
            assert(w.contains(w[j]));
        }
        lemma_sorted_insert(before.items@, self.items@, w, q, n);
        lemma_view_insert(before.items@, self.items@, w, q, n, item);
        let v = before@;
        assert forall|j: int| 0 <= j < q implies key_lt(#[trigger] v[j].spec_key(), k) by {
            assert(v[j] == before.items@[w[j] as int]);
            assert(w.take(q)[j] == w[j]);
        }
        assert forall|j: int| q <= j < v.len() implies !key_lt(#[trigger] v[j].spec_key(), k) by {
            assert(v[j] == before.items@[w[j] as int]);
            assert(w.skip(q)[j - q] == w[j]);
            assert(key_lt(k, before.items@[w[j] as int].spec_key()));
        }
        lemma_rank_split(v, k, q);
        if q < v.len() {
            assert(v[q] == before.items@[w[q] as int]);
            assert(w.skip(q)[0] == w[q]);
        }
    }

    /// Inserts an item into this AVL tree.
    /// If an existing item has the same key, replaces and returns it.
    #[verifier::rlimit(100)]
    #[verifier::spinoff_prover]
    pub fn insert(&mut self, item: T) -> (res: Option<T>)
        requires
            old(self).wf(),
            old(self).has_room(),
            lawful_order::<T::Key>(),
        ensures
            final(self).wf(),
            ({
                let k = item.spec_key();
                let p = rank(old(self)@, k) as int;
                if p < old(self)@.len() && key_equiv(old(self)@[p].spec_key(), k) {
                    &&& res == Some(old(self)@[p])
                    &&& final(self)@ == old(self)@.update(p, item)
                } else {
                    &&& res is None
                    &&& final(self)@ == old(self)@.insert(p, item)
                }
            }),
            // a new item goes to a deleted slot if there is one
            res is None ==> final(self).slots() == if old(self).slots() > old(self)@.len() {
                old(self).slots()
            } else {
                old(self).slots() + 1
            },
            res is Some ==> final(self).slots() == old(self).slots(),
            // replacing an item keeps the tree's layout
            res is Some ==> final(self).layout() == old(self).layout(),
            // a new item goes where the search for its position ends, and the
            // nodes on the way back up are rebalanced
            res is None ==> final(self).layout() == layout_insert(old(self).layout(), rank(old(self)@, item.spec_key())),
    {
        proof {
            I::lemma_int_properties();
            I::lemma_fits_in_usize();
            lemma_key_order::<T::Key>();
            lemma_sorted_nodup(self.items@, self.shape@.inorder());
            lemma_sorted_view(self.items@, self.shape@.inorder());
        }
        let ghost w = self.shape@.inorder();
        let ghost k = item.spec_key();
        let ghost old_view = self@;

        // code below assumes the root exists; if not, set this node as root
        if Self::slot(self.root) == Self::slot(I::MAX) {
            proof {
                if self.shape@ is Node {
                    lemma_links_bounds(self.child_left@, self.child_right@, self.shape@);
                    lemma_inorder_contains(self.shape@);
                }
            }
            let ghost before = *self;
            let new_idx = self.insert_item(item);
            self.root = new_idx;
            let ghost n = new_idx.value() as nat;
            proof {
                assert(before.shape@ is Leaf);
                assert(w =~= Seq::<nat>::empty());
                let t = Shape::Node(Box::new(Shape::Leaf), n, Box::new(Shape::Leaf));
                assert(t.inorder() =~= seq![n]);
                assert forall|j: nat| #[trigger] seq![n].contains(j) <==> (before.shape@.inorder().contains(j) || j == n) by {
                    if seq![n].contains(j) {
                        let m = choose|m: int| 0 <= m < 1 && seq![n][m] == j;
                    }
                    if j == n {
                        assert(seq![n][0] == n);
                    }
                }
            }
            self.shape = Ghost(Shape::Node(Box::new(Shape::Leaf), n, Box::new(Shape::Leaf)));
            proof {
                let t = self.shape@;
                reveal_with_fuel(links, 2);
                reveal_with_fuel(balanced, 2);
                assert(links(self.child_left@, self.child_right@, t));
                assert(balanced(self.bal_factor@, t));
                assert(slots_sorted(self.items@, t.inorder()));
                Self::lemma_fill_partition(before, *self, n, seq![n]);
                assert(self@ =~= seq![item]);
                assert(old_view.insert(0, item) =~= seq![item]);
                lemma_rank_split(old_view, k, 0);
                self.lemma_positions();
                assert(t.inorder().contains(n));
                assert(self.positions()[n as int] == 0);
                assert(before.layout() == Shape::Leaf);
                reveal_with_fuel(remap, 2);
                assert(self.layout() == remap(t, self.positions()));
                assert(self.layout() == Shape::Node(Box::new(Shape::Leaf), 0, Box::new(Shape::Leaf)));
            }
            return None;
        }

        // insert item (no rebalancing yet)
        let mut search_stack: Vec<(I, i8)> = vec![(self.root, 0i8)];
        let key = item.key();
        let ghost mut fs: Seq<Frame> = Seq::empty();
        let ghost mut cur: Shape = self.shape@;
        let ghost mut tp: Shape = Shape::Leaf;
        let ghost mut oh: nat = 0;
        let ghost mut q: int = 0;
        let ghost mut n: nat = 0;
        let ghost before = *self;
        proof {
            lemma_plug_ptr(fs, cur, I::max_value());
            assert(prefix(fs) + cur.inorder() + suffix(fs) =~= w);
        }
        loop
            invariant_except_break
                self.root == before.root,
                self.items == before.items,
                self.child_left == before.child_left,
                self.child_right == before.child_right,
                self.bal_factor == before.bal_factor,
                self.deleted == before.deleted,
                self.shape == before.shape,
                stack_matches(search_stack@, fs, cur.idx()),
                plug(fs, cur) == self.shape@,
                prefix(fs) + cur.inorder() + suffix(fs) == w,
                cur is Node,
                path_links(self.child_left@, self.child_right@, fs, cur.idx() as int),
                links(self.child_left@, self.child_right@, cur),
                path_balanced(self.bal_factor@, fs),
                balanced(self.bal_factor@, cur),
                fs.len() > 0 ==> fs.last().old_h == cur.height(),
                all_below(self.items@, prefix(fs), k),
                all_above(self.items@, suffix(fs), k),
                forall|j: int| 0 <= j < fs.len() ==> (#[trigger] fs[j]).go_left == key_lt(k, before.items@[fs[j].idx as int].spec_key()),
                self.root.value() == if fs.len() > 0 { fs[0].idx } else { cur.idx() },
            invariant
                before.wf(),
                before.has_room(),
                before == *old(self),
                w == before.shape@.inorder(),
                w.no_duplicates(),
                old_view == before@,
                keys_sorted(old_view),
                old_view.len() == w.len(),
                key == k,
                k == item.spec_key(),
                lawful_order::<T::Key>(),
            ensures
                self.arrays_ok(),
                self.root == before.root,
                before.deleted.len() > 0 ==> {
                    &&& n == before.dvals().last()
                    &&& self.deleted@ == before.deleted@.drop_last()
                    &&& self.items.len() == before.items.len()
                },
                before.deleted.len() == 0 ==> {
                    &&& n == before.items.len()
                    &&& self.deleted == before.deleted
                    &&& self.items.len() == before.items.len() + 1
                },
                w.insert(q, n).len() == w.len() + 1,
                forall|j: nat| #[trigger] w.insert(q, n).contains(j) <==> (w.contains(j) || j == n),
                stack_matches(search_stack@, fs, tp.idx()),
                tp is Node,
                path_links(self.child_left@, self.child_right@, fs, tp.idx() as int),
                links(self.child_left@, self.child_right@, tp),
                path_balanced(self.bal_factor@, fs),
                fs.len() > 0 ==> fs.last().old_h == oh,
                balanced(self.bal_factor@, tp.left()),
                balanced(self.bal_factor@, tp.right()),
                tp.idx() < self.bal_factor.len(),
                self.bal_factor@[tp.idx() as int] == tp.bf(),
                insert_grown(tp, oh),
                self.root.value() == if fs.len() > 0 { fs[0].idx } else { tp.idx() },
                plug(fs, tp).inorder() == w.insert(q, n),
                0 <= q <= w.len(),
                slots_sorted(self.items@, w.insert(q, n)),
                items_at(self.items@, w.insert(q, n)) == old_view.insert(q, item),
                rank(old_view, k) == q,
                !(q < old_view.len() && key_equiv(old_view[q].spec_key(), k)),
                plug(fs, cur) == before.shape@,
                forall|j: int| 0 <= j < fs.len() ==> (#[trigger] fs[j]).go_left == key_lt(k, before.items@[fs[j].idx as int].spec_key()),
                slot_insert(cur, n, before.items@, k) == insert_fixup(tp),
            decreases cur.height(),
        {
            let i = search_stack[search_stack.len() - 1].0;
            proof {
                I::lemma_int_properties();
                I::lemma_fits_in_usize();
                lemma_key_order::<T::Key>();
                lemma_inorder_contains(cur);
                lemma_links_bounds(self.child_left@, self.child_right@, cur);
                lemma_balanced_bounds(self.bal_factor@, cur);
                lemma_plug_inorder(fs, cur);
                lemma_plug_disjoint(fs, cur);
                lemma_nodup_node(cur);
                lemma_path_links_bounds(self.child_left@, self.child_right@, fs, cur.idx() as int);
                assert(cur.inorder() == cur.left().inorder() + seq![cur.idx()] + cur.right().inorder());
                if cur.left() is Node {
                    lemma_links_bounds(self.child_left@, self.child_right@, cur.left());
                    lemma_inorder_contains(cur.left());
                }
                if cur.right() is Node {
                    lemma_links_bounds(self.child_left@, self.child_right@, cur.right());
                    lemma_inorder_contains(cur.right());
                }
            }
            let i_usize = Self::slot(i);
            let i_key = self.items[i_usize].key();
            if lt_keys(&key, &i_key) {
                let cl = self.child_left[i_usize];
                if Self::slot(cl) == Self::slot(I::MAX) {
                    // insert as left child
                    let new_idx = self.insert_item(item);
                    let ghost mid1 = *self;
                    self.child_left.set(i_usize, new_idx);
                    let b = self.bal_factor[i_usize];
                    self.bal_factor.set(i_usize, b - 1);
                    proof {
                        n = new_idx.value() as nat;
                        q = prefix(fs).len() as int;
                        oh = cur.height();
                        tp = Shape::Node(
                            Box::new(Shape::Node(Box::new(Shape::Leaf), n, Box::new(Shape::Leaf))),
                            cur.idx(),
                            Box::new(cur.right()),
                        );
                        self.lemma_insert_leaf_facts(before, mid1, fs, cur, tp, n, q, true, item);
                        self.lemma_insert_leaf_order(before, mid1, fs, cur, tp, n, q, true, item);
                        assert(cur.left() is Leaf);
                        assert(key_lt(k, before.items@[cur.idx() as int].spec_key()));
                        assert(slot_insert(cur.left(), n, before.items@, k) == Shape::Node(Box::new(Shape::Leaf), n, Box::new(Shape::Leaf)));
                        assert(slot_insert(cur, n, before.items@, k) == insert_fixup(tp));
                    }
                    break;
                } else {
                    // continue searching to left of this node
                    search_stack.push((cl, -1i8));
                    proof {
                        let f = Frame { idx: cur.idx(), go_left: true, sib: cur.right(), old_h: cur.left().height() };
                        assert forall|j: int| 0 <= j < fs.push(f).len() implies (#[trigger] fs.push(f)[j]).go_left == key_lt(k, before.items@[fs.push(f)[j].idx as int].spec_key()) by {
                            if j < fs.len() {
                                assert(fs.push(f)[j] == fs[j]);
                            }
                        }
                        lemma_descend_left(self.items@, prefix(fs), cur, suffix(fs), k);
                        lemma_plug_push(fs, f, cur.left());
                        assert(fs.push(f).drop_last() =~= fs);
                        assert(fs.push(f).last() == f);
                        if fs.len() > 0 {
                            assert(fs.push(f)[0] == fs[0]);
                        }
                        assert(attach(f, cur.left()) == cur);
                        fs = fs.push(f);
                        cur = cur.left();
                        lemma_plug_ptr(fs, cur, I::max_value());
                        assert(prefix(fs) + cur.inorder() + suffix(fs) =~= w);
                    }
                }
            } else if gt_keys(&key, &i_key) {
                let cr = self.child_right[i_usize];
                if Self::slot(cr) == Self::slot(I::MAX) {
                    // insert as right child
                    let new_idx = self.insert_item(item);
                    let ghost mid1 = *self;
                    self.child_right.set(i_usize, new_idx);
                    let b = self.bal_factor[i_usize];
                    self.bal_factor.set(i_usize, b + 1);
                    proof {
                        n = new_idx.value() as nat;
                        q = (prefix(fs).len() + cur.left().inorder().len() + 1) as int;
                        oh = cur.height();
                        tp = Shape::Node(
                            Box::new(cur.left()),
                            cur.idx(),
                            Box::new(Shape::Node(Box::new(Shape::Leaf), n, Box::new(Shape::Leaf))),
                        );
                        self.lemma_insert_leaf_facts(before, mid1, fs, cur, tp, n, q, false, item);
                        self.lemma_insert_leaf_order(before, mid1, fs, cur, tp, n, q, false, item);
                        lemma_key_total::<T::Key>();
                        assert(cur.right() is Leaf);
                        assert(!key_lt(k, before.items@[cur.idx() as int].spec_key()));
                        assert(slot_insert(cur.right(), n, before.items@, k) == Shape::Node(Box::new(Shape::Leaf), n, Box::new(Shape::Leaf)));
                        assert(slot_insert(cur, n, before.items@, k) == insert_fixup(tp));
                    }
                    break;
                } else {
                    // continue searching to right of this node
                    search_stack.push((cr, 1i8));
                    proof {
                        let f = Frame { idx: cur.idx(), go_left: false, sib: cur.left(), old_h: cur.right().height() };
                        lemma_key_total::<T::Key>();
                        assert forall|j: int| 0 <= j < fs.push(f).len() implies (#[trigger] fs.push(f)[j]).go_left == key_lt(k, before.items@[fs.push(f)[j].idx as int].spec_key()) by {
                            if j < fs.len() {
                                assert(fs.push(f)[j] == fs[j]);
                            }
                        }
                        lemma_descend_right(self.items@, prefix(fs), cur, suffix(fs), k);
                        lemma_plug_push(fs, f, cur.right());
                        assert(fs.push(f).drop_last() =~= fs);
                        assert(fs.push(f).last() == f);
                        if fs.len() > 0 {
                            assert(fs.push(f)[0] == fs[0]);
                        }
                        assert(attach(f, cur.right()) == cur);
                        fs = fs.push(f);
                        cur = cur.right();
                        lemma_plug_ptr(fs, cur, I::max_value());
                        assert(prefix(fs) + cur.inorder() + suffix(fs) =~= w);
                    }
                }
            } else {
                // found a matching key; replace it in-place and terminate
                let ghost pos = (prefix(fs).len() + cur.left().inorder().len()) as int;
                proof {
                    lemma_found(self.items@, prefix(fs), cur, suffix(fs), k);
                    lemma_sorted_replace(self.items@, w, pos, item);
                }
                let mut existing_value = item;
                self.items.set_and_swap(i_usize, &mut existing_value);
                proof {
                    assert(self.positions() =~= old(self).positions());
                }
                return Some(existing_value);
            }
        }

        proof {
            lemma_sorted_nodup(self.items@, w.insert(q, n));
        }
        self.rebalance_after_insert(search_stack, Ghost(fs), Ghost(tp), Ghost(oh));
        proof {
            Self::lemma_fill_partition(before, *self, n, w.insert(q, n));
            lemma_slot_insert_path(fs, cur, n, before.items@, k);
            Self::lemma_insert_layout(before, *self, n, q, k);
        }
        return None;
    }

    /// The layout after an insertion whose slot shape is `slot_insert` of the
    /// old one.
    proof fn lemma_insert_layout(before: Self, after: Self, n: nat, q: int, k: T::Key)
        requires
            before.wf(),
            after.wf(),
            lawful_order::<T::Key>(),
            after.items.len() >= before.items.len(),
            n < after.items.len(),
            after.shape@ == slot_insert(before.shape@, n, before.items@, k),
            after.shape@.inorder() == before.shape@.inorder().insert(q, n),
            0 <= q <= before.shape@.inorder().len(),
            rank(before@, k) == q,
            !(q < before@.len() && key_equiv(before@[q].spec_key(), k)),
        ensures
            after.layout() == layout_insert(before.layout(), q as nat),
    {
        let w = before.shape@.inorder();
        let w2 = after.shape@.inorder();
        let p = before.positions();
        let p2 = after.positions();
        before.lemma_positions();
        after.lemma_positions();
        before.lemma_view_sorted();
        lemma_rank_sorted(before@, k);
        lemma_key_order::<T::Key>();
        lemma_key_total::<T::Key>();
        lemma_balanced_height_balanced(before.bal_factor@, before.shape@, p);
        assert(w2[q] == n);
        assert(w2.contains(n));
        assert(p2[n as int] == q) by {
            let m = p2[n as int];
            assert(w2[m] == n);
        }
        assert forall|j: nat| #[trigger] w.contains(j) implies {
            &&& j < p.len()
            &&& j < p2.len()
            &&& j < before.items.len()
            &&& p[j as int] >= 0
            &&& p2[j as int] == p[j as int] + if p[j as int] >= q { 1int } else { 0int }
            &&& (key_lt(k, before.items@[j as int].spec_key()) <==> q <= p[j as int])
        } by {
            let m = p[j as int];
            let m2 = if m >= q { m + 1 } else { m };
            assert(w2[m2] == j);
            assert(w2.contains(j));
            assert(w2[p2[j as int]] == j);
            assert(p2[j as int] == m2);
            let kj = before@[m].spec_key();
            if m >= q {
                assert(!key_lt(kj, k));
                if !key_lt(k, kj) {
                    if m > q {
                        assert(key_lt(before@[q].spec_key(), kj));
                        assert(key_equiv(kj, k));
                        assert(key_lt(before@[q].spec_key(), k));
                    } else {
                        assert(key_equiv(before@[q].spec_key(), k));
                    }
                }
            } else {
                assert(key_lt(kj, k));
            }
        }
        lemma_remap_insert(before.shape@, n, before.items@, k, p, p2, q as nat);
    }

    /// Marking the live slot `d`, at position `p` of the live slots, deleted keeps the partition.
    proof fn lemma_remove_partition(old: Self, new: Self, d: nat, p: int)
        requires
            old.arrays_ok(),
            old.partition_ok(),
            0 <= p < old.shape@.inorder().len(),
            old.shape@.inorder()[p] == d,
            d < old.items.len(),
            new.deleted@.len() == old.deleted@.len() + 1,
            new.dvals() == old.dvals().push(d as int),
            new.items.len() == old.items.len(),
            new.shape@.inorder().len() + 1 == old.shape@.inorder().len(),
            forall|j: nat| #[trigger] new.shape@.inorder().contains(j) <==> (old.shape@.inorder().contains(j) && j != d),
        ensures
            new.partition_ok(),
    {
        let w = old.shape@.inorder();
        let w2 = new.shape@.inorder();
        let d0 = old.dvals();
        let d1 = new.dvals();
        let n = old.items.len();
        assert(w.contains(d));
        assert(!d0.contains(d as int));
        assert forall|k: int| 0 <= k < new.deleted.len() implies 0 <= #[trigger] d1[k] < n by {
            if k < d0.len() {
                assert(d1[k] == d0[k]);
            }
        }
        assert forall|a: int, b: int| 0 <= a < b < d1.len() implies d1[a] != d1[b] by {
            if b < d0.len() {
                assert(d1[a] == d0[a] && d1[b] == d0[b]);
            } else {
                assert(d1[a] == d0[a]);
                assert(d0.contains(d0[a]));
            }
        }
        assert forall|j: nat| j < n implies (w2.contains(j) <==> !#[trigger] d1.contains(j as int)) by {
            if d1.contains(j as int) {
                let m = choose|m: int| 0 <= m < d1.len() && d1[m] == j;
                if m < d0.len() {
                    assert(d0[m] == j);
                }
            }
            if d0.contains(j as int) {
                let m = choose|m: int| 0 <= m < d0.len() && d0[m] == j;
                assert(d1[m] == j);
            }
            if j == d {
                assert(d1[d0.len() as int] == d);
            }
        }
    }

    /// Takes out the node `dt` at the end of the search stack, rebalances, marks
    /// its slot deleted and returns its item; compacts once at least half the
    /// slots are deleted.
    #[verifier::rlimit(100)]
    #[verifier::spinoff_prover]
    fn remove_found(&mut self, search_stack: Vec<(I, i8)>, Ghost(fs): Ghost<Seq<Frame>>, Ghost(dt): Ghost<Shape>) -> (item: T)
        requires
            old(self).wf(),
            stack_matches(search_stack@, fs, dt.idx()),
            plug(fs, dt) == old(self).shape@,
            dt is Node,
            path_links(old(self).child_left@, old(self).child_right@, fs, dt.idx() as int),
            links(old(self).child_left@, old(self).child_right@, dt),
            path_balanced(old(self).bal_factor@, fs),
            balanced(old(self).bal_factor@, dt),
            fs.len() > 0 ==> fs.last().old_h == dt.height(),
            old(self).root.value() == if fs.len() > 0 { fs[0].idx } else { dt.idx() },
        ensures
            final(self).wf(),
            ({
                let p = (prefix(fs).len() + dt.left().inorder().len()) as int;
                &&& 0 <= p < old(self)@.len()
                &&& item == old(self)@[p]
                &&& final(self)@ == old(self)@.remove(p)
            }),
            final(self).few_deleted(),
    {
        let ghost before = *self;
        let ghost w = self.shape@.inorder();
        let ghost p = (prefix(fs).len() + dt.left().inorder().len()) as int;
        let ghost d = dt.idx();
        let ghost w2 = w.remove(p);
        proof {
            I::lemma_int_properties();
            I::lemma_fits_in_usize();
            lemma_plug_inorder(fs, dt);
            lemma_plug_disjoint(fs, dt);
            lemma_inorder_contains(dt);
            lemma_links_bounds(self.child_left@, self.child_right@, dt);
            lemma_nodup_node(dt);
            assert(dt.inorder() == dt.left().inorder() + seq![d] + dt.right().inorder());
            assert(w[p] == d);
            assert(w2 =~= prefix(fs) + dt.left().inorder() + dt.right().inorder() + suffix(fs));
            lemma_remove_nodup(w, p);
            if dt.left() is Node {
                lemma_inorder_contains(dt.left());
                lemma_links_bounds(self.child_left@, self.child_right@, dt.left());
            }
            if dt.right() is Node {
                lemma_inorder_contains(dt.right());
                lemma_links_bounds(self.child_left@, self.child_right@, dt.right());
            }
        }
        let mut search_stack = search_stack;
        let ss_len = search_stack.len();
        let d_i = search_stack[ss_len - 1].0;
        let d_usize = Self::slot(d_i);
        let cl = self.child_left[d_usize];
        let cr = self.child_right[d_usize];
        let nil = Self::slot(I::MAX);
        let ghost mut fs2: Seq<Frame> = Seq::empty();
        let ghost mut tp: Shape = remaining(dt);
        let ghost mut oh: nat = 0;
        proof {
            if fs.len() > 0 {
                fs2 = fs.drop_last();
                tp = attach(fs.last(), remaining(dt));
                oh = frame_height(fs.last());
            }
            lemma_plug_inorder(fs, remaining(dt));
        }
        if Self::slot(cl) == nil && Self::slot(cr) == nil {
            self.delete_replace_simple(&mut search_stack, I::MAX, Ghost(fs), Ghost(dt));
        } else if Self::slot(cr) == nil {
            self.delete_replace_simple(&mut search_stack, cl, Ghost(fs), Ghost(dt));
        } else if Self::slot(cl) == nil {
            self.delete_replace_simple(&mut search_stack, cr, Ghost(fs), Ghost(dt));
        } else {
            let (Ghost(a), Ghost(b), Ghost(c)) = self.delete_replace_compound(&mut search_stack, Ghost(fs), Ghost(dt));
            proof {
                fs2 = a;
                tp = b;
                oh = c;
            }
        }
        proof {
            assert(plug(fs2, tp).inorder() == w2);
        }

        self.rebalance_after_delete(search_stack, Ghost(fs2), Ghost(tp), Ghost(oh));

        // mark as deleted and extract item
        self.deleted.push(d_i);
        let mut item = T::default();
        self.items.set_and_swap(d_usize, &mut item);
        proof {
            assert(self.items@ == before.items@.update(d as int, self.items@[d as int]));
            lemma_sorted_remove(before.items@, w, p, self.items@[d as int]);
            assert(self.dvals() =~= before.dvals().push(d as int));
            Self::lemma_remove_partition(before, *self, d, p);
        }

        // compact if it's time to do so
        if self.deleted.len() >= self.items.len() - self.items.len() / 2 {
            self.compact();
        }
        proof {
            lemma_sorted_view(self.items@, self.shape@.inorder());
        }
        item
    }

    /// Deletes the item whose key equals `key`, if there is one, and returns it.
    #[verifier::rlimit(100)]
    #[verifier::spinoff_prover]
    pub fn delete(&mut self, key: T::Key) -> (res: Option<T>)
        requires
            old(self).wf(),
            lawful_order::<T::Key>(),
        ensures
            final(self).wf(),
            ({
                let p = rank(old(self)@, key) as int;
                if p < old(self)@.len() && key_equiv(old(self)@[p].spec_key(), key) {
                    &&& res == Some(old(self)@[p])
                    &&& final(self)@ == old(self)@.remove(p)
                } else {
                    &&& res is None
                    &&& final(self)@ == old(self)@
                }
            }),
            res is Some ==> final(self).few_deleted(),
            res is None ==> *final(self) == *old(self),
            res is None ==> final(self).layout() == old(self).layout(),
    {
        proof {
            I::lemma_int_properties();
            I::lemma_fits_in_usize();
            lemma_key_order::<T::Key>();
            lemma_sorted_nodup(self.items@, self.shape@.inorder());
        }
        let ghost w = self.shape@.inorder();
        let ghost k = key;
        let ghost old_view = self@;

        // code below assumes the root exists; if not, nothing to delete
        if Self::slot(self.root) == Self::slot(I::MAX) {
            proof {
                if self.shape@ is Node {
                    lemma_links_bounds(self.child_left@, self.child_right@, self.shape@);
                    lemma_inorder_contains(self.shape@);
                }
                assert(old_view.len() == 0);
            }
            return None;
        }

        // search for the item
        let mut search_stack: Vec<(I, i8)> = vec![(self.root, 0i8)];
        let ghost mut fs: Seq<Frame> = Seq::empty();
        let ghost mut cur: Shape = self.shape@;
        proof {
            lemma_plug_ptr(fs, cur, I::max_value());
            assert(prefix(fs) + cur.inorder() + suffix(fs) =~= w);
        }
        loop
            invariant
                *self == *old(self),
                old(self).wf(),
                lawful_order::<T::Key>(),
                w == self.shape@.inorder(),
                old_view == self@,
                k == key,
                stack_matches(search_stack@, fs, cur.idx()),
                plug(fs, cur) == self.shape@,
                prefix(fs) + cur.inorder() + suffix(fs) == w,
                cur is Node,
                path_links(self.child_left@, self.child_right@, fs, cur.idx() as int),
                links(self.child_left@, self.child_right@, cur),
                path_balanced(self.bal_factor@, fs),
                balanced(self.bal_factor@, cur),
                fs.len() > 0 ==> fs.last().old_h == cur.height(),
                all_below(self.items@, prefix(fs), k),
                all_above(self.items@, suffix(fs), k),
                self.root.value() == if fs.len() > 0 { fs[0].idx } else { cur.idx() },
            ensures
                key_equiv(self.items@[cur.idx() as int].spec_key(), k),
            decreases cur.height(),
        {
            let i = search_stack[search_stack.len() - 1].0;
            proof {
                I::lemma_int_properties();
                lemma_key_order::<T::Key>();
                lemma_inorder_contains(cur);
                lemma_links_bounds(self.child_left@, self.child_right@, cur);
                if cur.left() is Node {
                    lemma_links_bounds(self.child_left@, self.child_right@, cur.left());
                    lemma_inorder_contains(cur.left());
                }
                if cur.right() is Node {
                    lemma_links_bounds(self.child_left@, self.child_right@, cur.right());
                    lemma_inorder_contains(cur.right());
                }
            }
            let i_usize = Self::slot(i);
            let i_key = self.items[i_usize].key();
            if lt_keys(&key, &i_key) {
                let cl = self.child_left[i_usize];
                if Self::slot(cl) == Self::slot(I::MAX) {
                    proof {
                        lemma_absent(self.items@, prefix(fs), cur, suffix(fs), k, true);
                    }
                    return None;  // item not found
                } else {
                    search_stack.push((cl, -1i8));  // continue search to left
                    proof {
                        let f = Frame { idx: cur.idx(), go_left: true, sib: cur.right(), old_h: cur.left().height() };
                        lemma_descend_left(self.items@, prefix(fs), cur, suffix(fs), k);
                        lemma_plug_push(fs, f, cur.left());
                        assert(fs.push(f).drop_last() =~= fs);
                        assert(fs.push(f).last() == f);
                        if fs.len() > 0 {
                            assert(fs.push(f)[0] == fs[0]);
                        }
                        assert(attach(f, cur.left()) == cur);
                        fs = fs.push(f);
                        cur = cur.left();
                        assert(prefix(fs) + cur.inorder() + suffix(fs) =~= w);
                    }
                }
            } else if gt_keys(&key, &i_key) {
                let cr = self.child_right[i_usize];
                if Self::slot(cr) == Self::slot(I::MAX) {
                    proof {
                        lemma_absent(self.items@, prefix(fs), cur, suffix(fs), k, false);
                    }
                    return None;  // item not found
                } else {
                    search_stack.push((cr, 1i8));  // continue search to right
                    proof {
                        let f = Frame { idx: cur.idx(), go_left: false, sib: cur.left(), old_h: cur.right().height() };
                        lemma_descend_right(self.items@, prefix(fs), cur, suffix(fs), k);
                        lemma_plug_push(fs, f, cur.right());
                        assert(fs.push(f).drop_last() =~= fs);
                        assert(fs.push(f).last() == f);
                        if fs.len() > 0 {
                            assert(fs.push(f)[0] == fs[0]);
                        }
                        assert(attach(f, cur.right()) == cur);
                        fs = fs.push(f);
                        cur = cur.right();
                        assert(prefix(fs) + cur.inorder() + suffix(fs) =~= w);
                    }
                }
            } else {
                // found matching item
                break;
            }
        }
        proof {
            lemma_found(self.items@, prefix(fs), cur, suffix(fs), k);
        }

        // delete the item
        let item = self.remove_found(search_stack, Ghost(fs), Ghost(cur));
        Some(item)
    }

    /// `new` and `res` are what `pop_first` makes of `old`: the first item
    /// handed out and the rest kept, or nothing handed out from an empty tree.
    pub open spec fn first_popped(old: Self, new: Self, res: Option<T>) -> bool {
        &&& new.wf()
        &&& old@.len() == 0 ==> res is None && new@ == old@
        &&& old@.len() > 0 ==> res == Some(old@[0]) && new@ == old@.drop_first()
        &&& old@.len() > 0 ==> new.few_deleted()
    }

    /// Popping the first item over and over, from a tree `ts[0]` through the
    /// trees `ts[1]`, `ts[2]`, ..., hands out the tree's items in key order,
    /// each once, and nothing once they are all gone.
    pub proof fn lemma_repeated_pop_first(ts: Seq<Self>, rs: Seq<Option<T>>)
        requires
            ts.len() == rs.len() + 1,
            ts[0].wf(),
            forall|i: int| 0 <= i < rs.len() ==> #[trigger] Self::first_popped(ts[i], ts[i + 1], rs[i]),
        ensures
            forall|i: int| 0 <= i < rs.len() && i < ts[0]@.len() ==> #[trigger] rs[i] == Some(ts[0]@[i]),
            forall|i: int| 0 <= i < rs.len() && i >= ts[0]@.len() ==> #[trigger] rs[i] is None,
            forall|i: int, j: int| 0 <= i < j < rs.len() && j < ts[0]@.len() ==> key_lt(
                #[trigger] ts[0]@[i].spec_key(),
                #[trigger] ts[0]@[j].spec_key(),
            ),
    {
        let s = ts[0]@;
        ts[0].lemma_view_sorted();
        lemma_pop_sequence(s);
        assert forall|i: int| 0 <= i <= rs.len() implies #[trigger] ts[i]@ == s.skip(if i < s.len() { i } else { s.len() as int }) by {
            Self::lemma_pops_skip(ts, rs, i);
        }
        assert forall|i: int| 0 <= i < rs.len() && i < s.len() implies #[trigger] rs[i] == Some(s[i]) by {
            assert(Self::first_popped(ts[i], ts[i + 1], rs[i]));
            assert(ts[i]@ == s.skip(i));
        }
        assert forall|i: int| 0 <= i < rs.len() && i >= s.len() implies #[trigger] rs[i] is None by {
            assert(Self::first_popped(ts[i], ts[i + 1], rs[i]));
            assert(ts[i]@ == s.skip(s.len() as int));
        }
    }

    proof fn lemma_pops_skip(ts: Seq<Self>, rs: Seq<Option<T>>, i: int)
        requires
            ts.len() == rs.len() + 1,
            forall|k: int| 0 <= k < rs.len() ==> #[trigger] Self::first_popped(ts[k], ts[k + 1], rs[k]),
            0 <= i <= rs.len(),
        ensures
            ts[i]@ == ts[0]@.skip(if i < ts[0]@.len() { i } else { ts[0]@.len() as int }),
        decreases i,
    {
        let s = ts[0]@;
        if i == 0 {
            assert(s.skip(0) =~= s);
        } else {
            Self::lemma_pops_skip(ts, rs, i - 1);
            let k = i - 1;
            assert(Self::first_popped(ts[k], ts[k + 1], rs[k]));
            if i - 1 < s.len() {
                assert(s.skip(i - 1).drop_first() =~= s.skip(i));
            }
        }
    }

    /// Removes and returns the item with the least key, if any.
    #[verifier::rlimit(60)]
    pub fn pop_first(&mut self) -> (res: Option<T>)
        requires
            old(self).wf(),
        ensures
            Self::first_popped(*old(self), *final(self), res),
    {
        proof {
            I::lemma_int_properties();
            I::lemma_fits_in_usize();
        }
        let ghost w = self.shape@.inorder();

        // code below assumes the root exists; if not, nothing to pop
        if Self::slot(self.root) == Self::slot(I::MAX) {
            proof {
                if self.shape@ is Node {
                    lemma_links_bounds(self.child_left@, self.child_right@, self.shape@);
                    lemma_inorder_contains(self.shape@);
                }
            }
            return None;
        }

        // dive left
        let mut search_stack: Vec<(I, i8)> = vec![(self.root, 0i8)];
        let ghost mut fs: Seq<Frame> = Seq::empty();
        let ghost mut cur: Shape = self.shape@;
        proof {
            lemma_plug_ptr(fs, cur, I::max_value());
        }
        loop
            invariant
                *self == *old(self),
                old(self).wf(),
                I::MAX.value() == I::max_value(),
                w == self.shape@.inorder(),
                stack_matches(search_stack@, fs, cur.idx()),
                plug(fs, cur) == self.shape@,
                prefix(fs).len() == 0,
                cur is Node,
                path_links(self.child_left@, self.child_right@, fs, cur.idx() as int),
                links(self.child_left@, self.child_right@, cur),
                path_balanced(self.bal_factor@, fs),
                balanced(self.bal_factor@, cur),
                fs.len() > 0 ==> fs.last().old_h == cur.height(),
                self.root.value() == if fs.len() > 0 { fs[0].idx } else { cur.idx() },
            ensures
                cur.left() is Leaf,
            decreases cur.height(),
        {
            let i = search_stack[search_stack.len() - 1].0;
            proof {
                lemma_inorder_contains(cur);
                lemma_links_bounds(self.child_left@, self.child_right@, cur);
                if cur.left() is Node {
                    lemma_links_bounds(self.child_left@, self.child_right@, cur.left());
                    lemma_inorder_contains(cur.left());
                }
            }
            let i_usize = Self::slot(i);
            let cl = self.child_left[i_usize];
            if Self::slot(cl) == Self::slot(I::MAX) {
                break;
            } else {
                search_stack.push((cl, -1i8));
                proof {
                    let f = Frame { idx: cur.idx(), go_left: true, sib: cur.right(), old_h: cur.left().height() };
                    lemma_plug_push(fs, f, cur.left());
                    assert(fs.push(f).drop_last() =~= fs);
                    assert(fs.push(f).last() == f);
                    if fs.len() > 0 {
                        assert(fs.push(f)[0] == fs[0]);
                    }
                    assert(attach(f, cur.left()) == cur);
                    fs = fs.push(f);
                    cur = cur.left();
                }
            }
        }

        // delete the item (simple deletion: known to have no left child)
        let item = self.remove_found(search_stack, Ghost(fs), Ghost(cur));
        proof {
            assert(old(self)@.remove(0) =~= old(self)@.drop_first());
        }
        Some(item)
    }

    /// The item with the least key, if any.
    pub fn peek_first(&self) -> (res: Option<&T>)
        requires
            self.wf(),
        ensures
            self@.len() == 0 ==> res is None,
            self@.len() > 0 ==> res == Some(&self@[0]),
    {
        proof {
            I::lemma_int_properties();
            I::lemma_fits_in_usize();
        }
        let ghost w = self.shape@.inorder();
        if Self::slot(self.root) == Self::slot(I::MAX) {
            proof {
                if self.shape@ is Node {
                    lemma_links_bounds(self.child_left@, self.child_right@, self.shape@);
                    lemma_inorder_contains(self.shape@);
                }
            }
            return None;
        }

        // get leftmost node
        let mut node = Self::slot(self.root);
        let ghost mut cur: Shape = self.shape@;
        loop
            invariant
                self.wf(),
                I::MAX.value() == I::max_value(),
                w == self.shape@.inorder(),
                cur is Node,
                node == cur.idx(),
                links(self.child_left@, self.child_right@, cur),
                w.len() > 0 && cur.inorder().len() > 0 && w[0] == cur.inorder()[0],
            ensures
                cur.left() is Leaf,
            decreases cur.height(),
        {
            proof {
                I::lemma_int_properties();
                lemma_inorder_contains(cur);
                lemma_links_bounds(self.child_left@, self.child_right@, cur);
                if cur.left() is Node {
                    lemma_links_bounds(self.child_left@, self.child_right@, cur.left());
                    lemma_inorder_contains(cur.left());
                }
                assert(cur.inorder() == cur.left().inorder() + seq![cur.idx()] + cur.right().inorder());
            }
            let cl = self.child_left[node];
            if Self::slot(cl) == Self::slot(I::MAX) {
                break;
            }
            node = Self::slot(cl);
            proof {
                cur = cur.left();
            }
        }
        proof {
            assert(cur.inorder() == cur.left().inorder() + seq![cur.idx()] + cur.right().inorder());
            assert(cur.inorder()[0] == cur.idx());
        }
        Some(&self.items[node])
    }

    /// For each live slot, the position of its item in `self@`.
    closed spec fn positions(&self) -> Seq<int> {
        Seq::new(self.items.len() as nat, |j: int| self.shape@.inorder().index_of(j as nat))
    }

    /// The shape of the tree, each node named by the position of its item in `self@`.
    pub closed spec fn layout(&self) -> Shape {
        remap(self.shape@, self.positions())
    }

    /// Facts on the positions of the live slots.
    proof fn lemma_positions(&self)
        requires
            self.wf(),
        ensures
            forall|j: nat| #[trigger] self.shape@.inorder().contains(j) ==> {
                &&& j < self.positions().len()
                &&& 0 <= self.positions()[j as int] < self@.len()
                &&& self.shape@.inorder()[self.positions()[j as int]] == j
                &&& self@[self.positions()[j as int]] == self.items@[j as int]
            },
            forall|m: int| 0 <= m < self@.len() ==> #[trigger] self.positions()[self.shape@.inorder()[m] as int] == m,
    {
        let w = self.shape@.inorder();
        let ps = self.positions();
        assert forall|j: nat| #[trigger] w.contains(j) implies {
            &&& j < ps.len()
            &&& 0 <= ps[j as int] < self@.len()
            &&& w[ps[j as int]] == j
            &&& self@[ps[j as int]] == self.items@[j as int]
        } by {
            assert(w.contains(j));
            let m = w.index_of(j);
            assert(0 <= m < w.len() && w[m] == j);
            assert(j < self.items.len());
            assert(ps[j as int] == m);
        }
        assert forall|m: int| 0 <= m < self@.len() implies #[trigger] ps[w[m] as int] == m by {
            assert(w.contains(w[m]));
            let m2 = w.index_of(w[m]);
            assert(0 <= m2 < w.len() && w[m2] == w[m]);
            assert(w[m] < self.items.len());
        }
    }

    /// The layout of a tree lists the positions `0, 1, ..., len - 1` in order,
    /// and every node's subtrees differ in height by at most one: the tree is
    /// an AVL tree over the items in order.
    pub proof fn lemma_layout(&self)
        requires
            self.wf(),
        ensures
            self.layout().inorder() == Seq::new(self@.len(), |i: int| i as nat),
            height_balanced(self.layout()),
            self.layout().height() == self.height(),
    {
        let w = self.shape@.inorder();
        let ps = self.positions();
        self.lemma_positions();
        lemma_remap_shape(self.shape@, ps);
        lemma_balanced_height_balanced(self.bal_factor@, self.shape@, ps);
        let a = self.layout().inorder();
        assert forall|m: int| 0 <= m < a.len() implies a[m] == m as nat by {
            assert(a[m] == ps[w[m] as int] as nat);
        }
        assert(a =~= Seq::new(self@.len(), |i: int| i as nat));
    }

    /// The node `cur`, reached from the root by the path `fs`, seen in the layout.
    proof fn lemma_layout_node(&self, fs: Seq<Frame>, cur: Shape)
        requires
            self.wf(),
            plug(fs, cur) == self.shape@,
            cur is Node,
        ensures
            ({
                let s = remap(cur, self.positions());
                &&& has_subtree(self.layout(), s)
                &&& s is Node
                &&& s.idx() == self.positions()[cur.idx() as int]
                &&& self@[s.idx() as int] == self.items@[cur.idx() as int]
                &&& s.bf() == cur.bf()
                &&& (cur.left() is Leaf <==> s.left() is Leaf)
                &&& (cur.right() is Leaf <==> s.right() is Leaf)
                &&& cur.left() is Node ==> self@[s.left().idx() as int] == self.items@[cur.left().idx() as int]
                &&& cur.right() is Node ==> self@[s.right().idx() as int] == self.items@[cur.right().idx() as int]
            }),
    {
        let ps = self.positions();
        let w = self.shape@.inorder();
        self.lemma_positions();
        lemma_plug_has_subtree(fs, cur);
        lemma_remap_has_subtree(self.shape@, cur, ps);
        lemma_plug_inorder(fs, cur);
        lemma_inorder_contains(cur);
        assert forall|j: nat| #[trigger] cur.inorder().contains(j) implies w.contains(j) by {
            let m = choose|m: int| 0 <= m < cur.inorder().len() && cur.inorder()[m] == j;
            assert(w[prefix(fs).len() + m] == j);
        }
        lemma_remap_shape(cur.left(), ps);
        lemma_remap_shape(cur.right(), ps);
        if cur.left() is Node {
            lemma_inorder_contains(cur.left());
        }
        if cur.right() is Node {
            lemma_inorder_contains(cur.right());
        }
    }

    /// The item at the root of the tree, if any.
    pub fn root_item(&self) -> (res: Option<&T>)
        requires
            self.wf(),
        ensures
            self.layout() is Leaf ==> res is None,
            self.layout() is Node ==> res == Some(&self@[self.layout().idx() as int]),
    {
        proof {
            I::lemma_int_properties();
            I::lemma_fits_in_usize();
            lemma_plug_ptr(Seq::<Frame>::empty(), self.shape@, I::max_value());
            if self.shape@ is Node {
                lemma_links_bounds(self.child_left@, self.child_right@, self.shape@);
                lemma_inorder_contains(self.shape@);
                self.lemma_layout_node(Seq::<Frame>::empty(), self.shape@);
            }
        }
        if Self::slot(self.root) == Self::slot(I::MAX) {
            None
        } else {
            Some(&self.items[Self::slot(self.root)])
        }
    }

    /// For the node whose item's key equals `key`, if there is one: the items
    /// of its left and right children and its balance factor.
    pub fn node_info(&self, key: T::Key) -> (res: Option<(Option<&T>, Option<&T>, i8)>)
        requires
            self.wf(),
            lawful_order::<T::Key>(),
        ensures
            ({
                let p = rank(self@, key) as int;
                &&& res is Some <==> (p < self@.len() && key_equiv(self@[p].spec_key(), key))
                &&& res matches Some(info) ==> exists|s: Shape| #[trigger] has_subtree(self.layout(), s) && {
                    &&& s is Node
                    &&& s.idx() == p
                    &&& (s.left() is Leaf ==> info.0 is None)
                    &&& (s.left() is Node ==> info.0 == Some(&self@[s.left().idx() as int]))
                    &&& (s.right() is Leaf ==> info.1 is None)
                    &&& (s.right() is Node ==> info.1 == Some(&self@[s.right().idx() as int]))
                    &&& info.2 == s.bf()
                }
            }),
    {
        proof {
            I::lemma_int_properties();
            I::lemma_fits_in_usize();
            lemma_key_order::<T::Key>();
        }
        let ghost w = self.shape@.inorder();
        let ghost k = key;
        if Self::slot(self.root) == Self::slot(I::MAX) {
            proof {
                if self.shape@ is Node {
                    lemma_links_bounds(self.child_left@, self.child_right@, self.shape@);
                    lemma_inorder_contains(self.shape@);
                }
            }
            return None;
        }

        // find the node
        let mut n = Self::slot(self.root);
        let ghost mut fs: Seq<Frame> = Seq::empty();
        let ghost mut cur: Shape = self.shape@;
        proof {
            lemma_plug_ptr(fs, cur, I::max_value());
            assert(prefix(fs) + cur.inorder() + suffix(fs) =~= w);
        }
        loop
            invariant
                self.wf(),
                lawful_order::<T::Key>(),
                I::MAX.value() == I::max_value(),
                w == self.shape@.inorder(),
                k == key,
                n == cur.idx(),
                plug(fs, cur) == self.shape@,
                prefix(fs) + cur.inorder() + suffix(fs) == w,
                cur is Node,
                links(self.child_left@, self.child_right@, cur),
                all_below(self.items@, prefix(fs), k),
                all_above(self.items@, suffix(fs), k),
            ensures
                key_equiv(self.items@[cur.idx() as int].spec_key(), k),
            decreases cur.height(),
        {
            proof {
                I::lemma_int_properties();
                lemma_key_order::<T::Key>();
                lemma_inorder_contains(cur);
                lemma_links_bounds(self.child_left@, self.child_right@, cur);
                if cur.left() is Node {
                    lemma_links_bounds(self.child_left@, self.child_right@, cur.left());
                    lemma_inorder_contains(cur.left());
                }
                if cur.right() is Node {
                    lemma_links_bounds(self.child_left@, self.child_right@, cur.right());
                    lemma_inorder_contains(cur.right());
                }
            }
            let n_key = self.items[n].key();
            if lt_keys(&key, &n_key) {
                let cl = self.child_left[n];
                if Self::slot(cl) == Self::slot(I::MAX) {
                    proof {
                        lemma_absent(self.items@, prefix(fs), cur, suffix(fs), k, true);
                    }
                    return None;
                }
                n = Self::slot(cl);
                proof {
                    let f = Frame { idx: cur.idx(), go_left: true, sib: cur.right(), old_h: cur.left().height() };
                    lemma_descend_left(self.items@, prefix(fs), cur, suffix(fs), k);
                    lemma_plug_push(fs, f, cur.left());
                    assert(attach(f, cur.left()) == cur);
                    fs = fs.push(f);
                    cur = cur.left();
                    assert(prefix(fs) + cur.inorder() + suffix(fs) =~= w);
                }
            } else if gt_keys(&key, &n_key) {
                let cr = self.child_right[n];
                if Self::slot(cr) == Self::slot(I::MAX) {
                    proof {
                        lemma_absent(self.items@, prefix(fs), cur, suffix(fs), k, false);
                    }
                    return None;
                }
                n = Self::slot(cr);
                proof {
                    let f = Frame { idx: cur.idx(), go_left: false, sib: cur.left(), old_h: cur.right().height() };
                    lemma_descend_right(self.items@, prefix(fs), cur, suffix(fs), k);
                    lemma_plug_push(fs, f, cur.right());
                    assert(attach(f, cur.right()) == cur);
                    fs = fs.push(f);
                    cur = cur.right();
                    assert(prefix(fs) + cur.inorder() + suffix(fs) =~= w);
                }
            } else {
                break;
            }
        }

        // extract node info
        proof {
            lemma_found(self.items@, prefix(fs), cur, suffix(fs), k);
            lemma_inorder_contains(cur);
            lemma_links_bounds(self.child_left@, self.child_right@, cur);
            lemma_plug_has_subtree(fs, cur);
            lemma_balanced_subtree(self.bal_factor@, self.shape@, cur);
            self.lemma_layout_node(fs, cur);
            self.lemma_positions();
            if cur.left() is Node {
                lemma_links_bounds(self.child_left@, self.child_right@, cur.left());
                lemma_inorder_contains(cur.left());
            }
            if cur.right() is Node {
                lemma_links_bounds(self.child_left@, self.child_right@, cur.right());
                lemma_inorder_contains(cur.right());
            }
        }
        let cl = self.child_left[n];
        let cr = self.child_right[n];
        let cl = if Self::slot(cl) == Self::slot(I::MAX) {
            None
        } else {
            Some(&self.items[Self::slot(cl)])
        };
        let cr = if Self::slot(cr) == Self::slot(I::MAX) {
            None
        } else {
            Some(&self.items[Self::slot(cr)])
        };
        let bf = self.bal_factor[n];
        proof {
            let s = remap(cur, self.positions());
            assert(has_subtree(self.layout(), s));
        }
        Some((cl, cr, bf))
    }

    /// Compound replacement when deleting the node `dt` at the end of the search
    /// stack, for cases when it has both children: its in-order successor takes
    /// its place. Modifies search stack so that its end is where rebalancing
    /// should start; returns the path to there, the subtree there, and the
    /// subtree's height before the deletion.
    #[verifier::rlimit(100)]
    #[verifier::spinoff_prover]
    fn delete_replace_compound(
        &mut self,
        search_stack: &mut Vec<(I, i8)>,
        Ghost(fs): Ghost<Seq<Frame>>,
        Ghost(dt): Ghost<Shape>,
    ) -> (res: (Ghost<Seq<Frame>>, Ghost<Shape>, Ghost<nat>))
        requires
            old(self).arrays_ok(),
            stack_matches(old(search_stack)@, fs, dt.idx()),
            dt is Node,
            dt.left() is Node,
            dt.right() is Node,
            path_links(old(self).child_left@, old(self).child_right@, fs, dt.idx() as int),
            links(old(self).child_left@, old(self).child_right@, dt),
            path_balanced(old(self).bal_factor@, fs),
            balanced(old(self).bal_factor@, dt),
            fs.len() > 0 ==> fs.last().old_h == dt.height(),
            plug(fs, dt).inorder().no_duplicates(),
            old(self).root.value() == if fs.len() > 0 { fs[0].idx } else { dt.idx() },
        ensures
            final(self).arrays_ok(),
            final(self).items == old(self).items,
            final(self).deleted == old(self).deleted,
            final(self).shape == old(self).shape,
            ({
                let fs2 = res.0@;
                let tp = res.1@;
                let oh = res.2@;
                &&& stack_matches(final(search_stack)@, fs2, tp.idx())
                &&& tp is Node
                &&& path_links(final(self).child_left@, final(self).child_right@, fs2, tp.idx() as int)
                &&& links(final(self).child_left@, final(self).child_right@, tp)
                &&& path_balanced(final(self).bal_factor@, fs2)
                &&& fs2.len() > 0 ==> fs2.last().old_h == oh
                &&& balanced(final(self).bal_factor@, tp.left())
                &&& balanced(final(self).bal_factor@, tp.right())
                &&& tp.idx() < final(self).bal_factor.len()
                &&& final(self).bal_factor@[tp.idx() as int] == tp.bf()
                &&& delete_shrunk(tp, oh)
                &&& final(self).root.value() == if fs2.len() > 0 { fs2[0].idx } else { tp.idx() }
                &&& plug(fs2, tp).inorder() == prefix(fs) + dt.left().inorder() + dt.right().inorder() + suffix(fs)
                // the in-order successor of `dt` takes its place, with its left
                // subtree and its right subtree less the successor
                &&& plug(fs2, tp) == plug(fs, Shape::Node(
                    Box::new(dt.left()),
                    leftmost(dt.right()),
                    Box::new(without_leftmost(dt.right())),
                ))
            }),
    {
        proof {
            I::lemma_int_properties();
        }
        let ghost st = search_stack@;
        let ghost ld = dt.left();
        let ghost rd = dt.right();
        let ghost d = dt.idx();
        let ghost cl0 = self.child_left@;
        let ghost cr0 = self.child_right@;
        let ghost b0 = self.bal_factor@;
        proof {
            lemma_plug_disjoint(fs, dt);
            lemma_inorder_contains(dt);
            lemma_nodup_node(dt);
            lemma_links_bounds(cl0, cr0, dt);
            lemma_balanced_bounds(b0, dt);
            lemma_path_links_bounds(cl0, cr0, fs, d as int);
            lemma_inorder_contains(rd);
        }
        let ss_len = search_stack.len();
        let d_i = search_stack[ss_len - 1].0;
        let d_usize = Self::slot(d_i);
        let cr = self.child_right[d_usize];

        // locate immediate successor of deleted node
        let mut search_stack_successor: Vec<(I, i8)> = vec![(cr, 1i8)];
        let mut s = cr;  // here known non-NIL
        let ghost mut gs: Seq<Frame> = Seq::empty();
        let ghost mut sc: Shape = rd;
        proof {
            lemma_plug_ptr(gs, sc, I::max_value());
        }
        loop
            invariant
                self.child_left@ == cl0,
                self.child_right@ == cr0,
                self.bal_factor@ == b0,
                self.arrays_ok(),
                sc is Node,
                s.value() == sc.idx(),
                plug(gs, sc) == rd,
                forall|j: int| 0 <= j < gs.len() ==> #[trigger] gs[j].go_left,
                search_stack_successor@.len() == gs.len() + 1,
                search_stack_successor@[0].1 == 1i8,
                forall|j: int| 0 <= j < gs.len() ==> (#[trigger] search_stack_successor@[j]).0.value() == gs[j].idx,
                search_stack_successor@[gs.len() as int].0.value() == sc.idx(),
                forall|j: int| 1 <= j <= gs.len() ==> (#[trigger] search_stack_successor@[j]).1 == -1i8,
                path_links(cl0, cr0, gs, sc.idx() as int),
                links(cl0, cr0, sc),
                path_balanced(b0, gs),
                balanced(b0, sc),
                gs.len() > 0 ==> gs.last().old_h == sc.height(),
                gs.len() > 0 ==> gs[0].idx == rd.idx(),
                gs.len() == 0 ==> sc == rd,
                links(cl0, cr0, rd),
                balanced(b0, rd),
                rd is Node,
                I::max_value() == I::MAX.value(),
                old(self).arrays_ok(),
            ensures
                sc.left() is Leaf,
            decreases sc.height(),
        {
            let s_usize = Self::slot(s);
            let cl2 = self.child_left[s_usize];
            proof {
                if sc.left() is Node {
                    lemma_links_bounds(cl0, cr0, sc.left());
                    lemma_inorder_contains(sc.left());
                }
            }
            if Self::slot(cl2) == Self::slot(I::MAX) {
                break;
            } else {
                search_stack_successor.push((cl2, -1i8));
                s = cl2;
                proof {
                    let f = Frame { idx: sc.idx(), go_left: true, sib: sc.right(), old_h: sc.left().height() };
                    lemma_plug_push(gs, f, sc.left());
                    assert(attach(f, sc.left()) == sc);
                    assert(gs.push(f).drop_last() =~= gs);
                    assert(gs.push(f).last() == f);
                    if gs.len() > 0 {
                        assert(gs.push(f)[0] == gs[0]);
                    }
                    gs = gs.push(f);
                    sc = sc.left();
                }
            }
        }
        let s_usize = Self::slot(s);
        let ghost lm = sc;
        let ghost rs = sc.right();
        let ghost sidx = sc.idx();
        proof {
            lemma_plug_inorder(gs, lm);
            lemma_prefix_all_left(gs);
            lemma_plug_disjoint(gs, lm);
            lemma_inorder_contains(lm);
            lemma_nodup_node(lm);
            lemma_links_bounds(cl0, cr0, lm);
            lemma_path_links_bounds(cl0, cr0, gs, sidx as int);
            lemma_plug_balanced(b0, gs, lm);
            // the slots of the successor's path and subtree lie in `rd`
            assert forall|x: nat| #[trigger] path_slots(gs).contains(x) implies rd.inorder().contains(x) by {
                let m = choose|m: int| 0 <= m < path_slots(gs).len() && path_slots(gs)[m] == x;
                assert(rd.inorder() == prefix(gs) + lm.inorder() + suffix(gs));
                assert(path_slots(gs) == prefix(gs) + suffix(gs));
                assert(rd.inorder()[lm.inorder().len() + m] == x);
            }
            assert forall|x: nat| #[trigger] lm.inorder().contains(x) implies rd.inorder().contains(x) by {
                let m = choose|m: int| 0 <= m < lm.inorder().len() && lm.inorder()[m] == x;
                assert(rd.inorder()[m] == x);
            }
            assert(lm.inorder() == seq![sidx] + rs.inorder());
        }

        // replace d with s
        let dir_d = search_stack[ss_len - 1].1;
        if ss_len > 1 {
            let p = search_stack[ss_len - 2].0;
            let p_usize = Self::slot(p);
            if dir_d == -1 {
                self.child_left.set(p_usize, s);
            } else {
                self.child_right.set(p_usize, s);
            }
        } else {
            // d was root
            self.root = s;
        }

        // replace d with s in the stack
        search_stack.set(ss_len - 1, (s, dir_d));

        // s inherits d's balance factor tentatively; might still need
        // update/rebalancing but only if rebalancing reaches this height
        let bd = self.bal_factor[d_usize];
        self.bal_factor.set(s_usize, bd);

        let ghost cl1 = self.child_left@;
        let ghost cr1 = self.child_right@;
        let ghost st1 = search_stack@;
        proof {
            // the parent of d now points to s; nothing else of the path above changed
            if fs.len() > 0 {
                let f = fs.last();
                let fa = fs.drop_last();
                lemma_plug_push(fa, f, dt);
                assert(fa.push(f) =~= fs);
                lemma_plug_disjoint(fa, attach(f, dt));
                lemma_inorder_contains(attach(f, dt));
                lemma_nodup_node(attach(f, dt));
                lemma_path_links_bounds(cl0, cr0, fa, f.idx as int);
                lemma_links_bounds(cl0, cr0, f.sib);
                assert(st[fs.len() - 1].0.value() == fs[fs.len() - 1].idx);
                assert(st[fs.len() as int].1 == if f.go_left { -1i8 } else { 1i8 });
                lemma_agree_outside(cl0, cl1, seq![f.idx], path_slots(fa));
                lemma_agree_outside(cr0, cr1, seq![f.idx], path_slots(fa));
                lemma_agree_outside(cl0, cl1, seq![f.idx], f.sib.inorder());
                lemma_agree_outside(cr0, cr1, seq![f.idx], f.sib.inorder());
                lemma_path_links_frame(cl0, cr0, cl1, cr1, fa, f.idx as int);
                lemma_links_frame(cl0, cr0, cl1, cr1, f.sib);
                assert(path_links(cl1, cr1, fs, sidx as int));
                lemma_path_slots(fs);
                assert(path_slots(fs).contains(fs[fs.len() - 1].idx));
            }
            assert(unchanged_outside(cl0, cl1, path_slots(fs)));
            assert(unchanged_outside(cr0, cr1, path_slots(fs)));
        }

        let ghost fs2: Seq<Frame>;
        let ghost tp: Shape;
        let ghost oh: nat;
        if search_stack_successor.len() > 1 {
            // s inherits d's children
            let sr_prev = self.child_right[s_usize];
            let dl = self.child_left[d_usize];
            self.child_left.set(s_usize, dl);
            let dr = self.child_right[d_usize];
            self.child_right.set(s_usize, dr);

            // update s's old parent to point to s's old right child
            let sp = search_stack_successor[search_stack_successor.len() - 2].0;
            let sp_usize = Self::slot(sp);
            self.child_left.set(sp_usize, sr_prev);
            let b = self.bal_factor[sp_usize];
            self.bal_factor.set(sp_usize, b + 1);  // sp's left branch shrank by 1

            // rebalancing should start at s's old parent; extend search_stack
            let mut j: usize = 0;
            while j < search_stack_successor.len() - 1
                invariant
                    search_stack_successor@.len() == gs.len() + 1,
                    0 <= j <= gs.len(),
                    search_stack@ == st1 + search_stack_successor@.take(j as int),
                decreases search_stack_successor@.len() - j,
            {
                search_stack.push(search_stack_successor[j]);
                j += 1;
                proof {
                    assert(search_stack_successor@.take(j as int) =~= search_stack_successor@.take(j - 1).push(search_stack_successor@[j - 1]));
                }
            }
            proof {
                let fsl = Frame { idx: sidx, go_left: false, sib: ld, old_h: rd.height() };
                let gl = gs.last();
                let ga = gs.drop_last();
                fs2 = fs.push(fsl) + ga;
                tp = attach(gl, rs);
                oh = frame_height(gl);
                lemma_compound_facts::<I>(cl0, cr0, b0, cl1, cr1, self.child_left@, self.child_right@,
                    self.bal_factor@, st1, search_stack_successor@, search_stack@, fs, dt, gs, lm);
                lemma_plug_leftmost(gs, lm);
                lemma_plug_concat(fs.push(fsl), ga, tp);
                lemma_plug_push(fs, fsl, plug(ga, tp));
                assert(plug(gs, rs) == plug(ga, tp));
            }
        } else {
            // s was d's right child; if s has a right child it should come along
            // (note s is known to have no left child before)
            let dl = self.child_left[d_usize];
            self.child_left.set(s_usize, dl);
            let b = self.bal_factor[s_usize];
            self.bal_factor.set(s_usize, b - 1);  // was d's old factor; right branch shrank by 1

            // don't extend search_stack, rebalancing should start at s
            proof {
                fs2 = fs;
                tp = Shape::Node(Box::new(ld), sidx, Box::new(rs));
                oh = dt.height();
                assert(gs.len() == 0);
                assert(self.bal_factor@ =~= b0.update(sidx as int, (b0[d as int] - 1) as i8));
                lemma_direct_facts::<I>(cl0, cr0, b0, cl1, cr1, self.child_left@, self.child_right@,
                    self.bal_factor@, fs, dt);
                lemma_plug_leftmost(gs, lm);
            }
        }
        (Ghost(fs2), Ghost(tp), Ghost(oh))
    }

    /// Simple replacement when deleting the node `dt` at the end of the search
    /// stack, for cases when it has one child or zero (child = NIL).
    /// Modifies search stack so that its end is where rebalancing should start.
    fn delete_replace_simple(
        &mut self,
        search_stack: &mut Vec<(I, i8)>,
        child: I,
        Ghost(fs): Ghost<Seq<Frame>>,
        Ghost(dt): Ghost<Shape>,
    )
        requires
            old(self).arrays_ok(),
            stack_matches(old(search_stack)@, fs, dt.idx()),
            dt is Node,
            dt.left() is Leaf || dt.right() is Leaf,
            child.value() == ptr(remaining(dt), I::max_value()),
            path_links(old(self).child_left@, old(self).child_right@, fs, dt.idx() as int),
            links(old(self).child_left@, old(self).child_right@, remaining(dt)),
            path_balanced(old(self).bal_factor@, fs),
            balanced(old(self).bal_factor@, dt),
            fs.len() > 0 ==> fs.last().old_h == dt.height(),
            plug(fs, dt).inorder().no_duplicates(),
            old(self).root.value() == if fs.len() > 0 { fs[0].idx } else { dt.idx() },
        ensures
            final(self).arrays_ok(),
            final(self).items == old(self).items,
            final(self).deleted == old(self).deleted,
            final(self).shape == old(self).shape,
            final(search_stack)@ == old(search_stack)@.drop_last(),
            fs.len() == 0 ==> {
                &&& final(self).root.value() == ptr(remaining(dt), I::max_value())
                &&& links(final(self).child_left@, final(self).child_right@, remaining(dt))
                &&& balanced(final(self).bal_factor@, remaining(dt))
            },
            fs.len() > 0 ==> {
                let f = fs.last();
                let fa = fs.drop_last();
                let tp = attach(f, remaining(dt));
                &&& stack_matches(final(search_stack)@, fa, f.idx)
                &&& path_links(final(self).child_left@, final(self).child_right@, fa, f.idx as int)
                &&& links(final(self).child_left@, final(self).child_right@, tp)
                &&& path_balanced(final(self).bal_factor@, fa)
                &&& fa.len() > 0 ==> fa.last().old_h == frame_height(f)
                &&& balanced(final(self).bal_factor@, tp.left())
                &&& balanced(final(self).bal_factor@, tp.right())
                &&& f.idx < final(self).bal_factor.len()
                &&& final(self).bal_factor@[f.idx as int] == tp.bf()
                &&& delete_shrunk(tp, frame_height(f))
                &&& final(self).root == old(self).root
                &&& final(self).root.value() == if fa.len() > 0 { fa[0].idx } else { f.idx }
            },
    {
        proof {
            I::lemma_int_properties();
        }
        let ghost st = search_stack@;
        if search_stack.len() > 1 {
            let ghost f = fs.last();
            let ghost fa = fs.drop_last();
            let ghost c = remaining(dt);
            let ghost tp = attach(f, c);
            let ghost cl0 = self.child_left@;
            let ghost cr0 = self.child_right@;
            let ghost b0 = self.bal_factor@;
            proof {
                assert(st[fs.len() - 1].0.value() == fs[fs.len() - 1].idx);
                lemma_plug_push(fa, f, dt);
                assert(fa.push(f) =~= fs);
                lemma_plug_disjoint(fa, attach(f, dt));
                lemma_plug_disjoint(fs, dt);
                lemma_inorder_contains(attach(f, dt));
                lemma_inorder_contains(dt);
                lemma_nodup_node(attach(f, dt));
                lemma_nodup_node(dt);
                lemma_links_bounds(cl0, cr0, f.sib);
                lemma_links_bounds(cl0, cr0, c);
                lemma_balanced_bounds(b0, f.sib);
                lemma_balanced_bounds(b0, c);
                lemma_path_links_bounds(cl0, cr0, fa, f.idx as int);
                assert(balanced(b0, dt.left()) && balanced(b0, dt.right()));
            }
            let p = search_stack[search_stack.len() - 2].0;
            let p_usize = Self::slot(p);
            let dir = search_stack[search_stack.len() - 1].1;
            if dir == -1 {
                self.child_left.set(p_usize, child);
                let b = self.bal_factor[p_usize];
                self.bal_factor.set(p_usize, b + 1);
            } else {
                self.child_right.set(p_usize, child);
                let b = self.bal_factor[p_usize];
                self.bal_factor.set(p_usize, b - 1);
            }
            proof {
                let one = seq![f.idx];
                assert forall|j: nat| #[trigger] one.contains(j) <==> j == f.idx by {
                    if one.contains(j) {
                        let m = choose|m: int| 0 <= m < 1 && one[m] == j;
                    }
                    if j == f.idx {
                        assert(one[0] == f.idx);
                    }
                }
                lemma_agree_outside(cl0, self.child_left@, one, path_slots(fa));
                lemma_agree_outside(cr0, self.child_right@, one, path_slots(fa));
                lemma_agree_outside(b0, self.bal_factor@, one, path_slots(fa));
                lemma_agree_outside(cl0, self.child_left@, one, f.sib.inorder());
                lemma_agree_outside(cr0, self.child_right@, one, f.sib.inorder());
                lemma_agree_outside(b0, self.bal_factor@, one, f.sib.inorder());
                lemma_agree_outside(cl0, self.child_left@, one, c.inorder());
                lemma_agree_outside(cr0, self.child_right@, one, c.inorder());
                lemma_agree_outside(b0, self.bal_factor@, one, c.inorder());
                lemma_path_links_frame(cl0, cr0, self.child_left@, self.child_right@, fa, f.idx as int);
                lemma_path_balanced_frame(b0, self.bal_factor@, fa);
                lemma_links_frame(cl0, cr0, self.child_left@, self.child_right@, f.sib);
                lemma_links_frame(cl0, cr0, self.child_left@, self.child_right@, c);
                lemma_balanced_frame(b0, self.bal_factor@, f.sib);
                lemma_balanced_frame(b0, self.bal_factor@, c);
                assert(links(self.child_left@, self.child_right@, tp));
                if fa.len() > 0 {
                    assert(fa[0] == fs[0]);
                }
            }
        } else {
            self.root = child;
            // becoming the root does not affect balance factor of `child`
            proof {
                assert(balanced(self.bal_factor@, dt.left()) && balanced(self.bal_factor@, dt.right()));
            }
        }

        // balance of child branch is unaffected; begin rebalancing at parent
        search_stack.pop();
        proof {
            if fs.len() > 0 {
                assert(search_stack@ =~= st.drop_last());
            }
        }
    }

    /// Places `item` in a slot: a deleted one if there is any, else a new one.
    /// The slot gets no children and a zero balance factor.
    fn insert_item(&mut self, item: T) -> (new_idx: I)
        requires
            old(self).arrays_ok(),
            old(self).items.len() < I::max_value() || old(self).deleted.len() > 0,
            forall|k: int| 0 <= k < old(self).deleted.len() ==> 0 <= #[trigger] old(self).dvals()[k] < old(self).items.len(),
        ensures
            slot_filled(*old(self), *final(self), new_idx.value(), item),
            old(self).deleted.len() > 0 ==> {
                &&& new_idx.value() == old(self).dvals().last()
                &&& final(self).deleted@ == old(self).deleted@.drop_last()
                &&& final(self).items.len() == old(self).items.len()
            },
            old(self).deleted.len() == 0 ==> {
                &&& new_idx.value() == old(self).items.len()
                &&& final(self).deleted == old(self).deleted
                &&& final(self).items.len() == old(self).items.len() + 1
            },
    {
        if self.deleted.len() > 0 {
            self.insert_item_overwrite_deleted(item)
        } else {
            self.insert_item_extend_array(item)
        }
    }

    fn insert_item_extend_array(&mut self, item: T) -> (new_idx: I)
        requires
            old(self).arrays_ok(),
            old(self).items.len() < I::max_value(),
        ensures
            slot_filled(*old(self), *final(self), new_idx.value(), item),
            new_idx.value() == old(self).items.len(),
            final(self).deleted == old(self).deleted,
            final(self).items.len() == old(self).items.len() + 1,
    {
        // maintains invariants 02, 03, 04, 05;
        // caller responsible for other invariants
        proof {
            I::lemma_int_properties();
            I::lemma_fits_in_usize();
        }
        let new_idx = I::from_usize_unchecked(self.items.len());
        self.items.push(item);
        self.child_left.push(I::MAX);
        self.child_right.push(I::MAX);
        self.bal_factor.push(0);

        new_idx
    }

    fn insert_item_overwrite_deleted(&mut self, item: T) -> (new_idx: I)
        requires
            old(self).arrays_ok(),
            old(self).deleted.len() > 0,
            forall|k: int| 0 <= k < old(self).deleted.len() ==> 0 <= #[trigger] old(self).dvals()[k] < old(self).items.len(),
        ensures
            slot_filled(*old(self), *final(self), new_idx.value(), item),
            new_idx.value() == old(self).dvals().last(),
            final(self).deleted@ == old(self).deleted@.drop_last(),
            final(self).items.len() == old(self).items.len(),
    {
        // maintains invariants 02, 03, 04, 05;
        // caller responsible for other invariants
        proof {
            I::lemma_int_properties();
            assert(0 <= self.dvals()[self.deleted.len() - 1] < self.items.len());
        }
        let new_idx = self.deleted.pop().unwrap();
        let n_usize = Self::slot(new_idx);
        self.items.set(n_usize, item);
        self.child_left.set(n_usize, I::MAX);
        self.child_right.set(n_usize, I::MAX);
        self.bal_factor.set(n_usize, 0);

        new_idx
    }

    /// Exchanges the items at slots `a` and `b`.
    fn swap_items(&mut self, a: usize, b: usize)
        requires
            a < old(self).items.len(),
            b < old(self).items.len(),
            a != b,
        ensures
            final(self).items@ == old(self).items@.update(a as int, old(self).items@[b as int]).update(
                b as int,
                old(self).items@[a as int],
            ),
            final(self).child_left == old(self).child_left,
            final(self).child_right == old(self).child_right,
            final(self).bal_factor == old(self).bal_factor,
            final(self).deleted == old(self).deleted,
            final(self).root == old(self).root,
            final(self).shape == old(self).shape,
    {
        let mut tmp = T::default();
        self.items.set_and_swap(a, &mut tmp);
        self.items.set_and_swap(b, &mut tmp);
        self.items.set_and_swap(a, &mut tmp);
        proof {
            assert(self.items@ =~= old(self).items@.update(a as int, old(self).items@[b as int]).update(
                b as int,
                old(self).items@[a as int],
            ));
        }
    }

    /// Marks, for each slot, whether it is deleted.
    fn deleted_mask(&self) -> (mask: Vec<bool>)
        requires
            self.wf(),
        ensures
            mask.len() == self.items.len(),
            forall|i: int| 0 <= i < self.items.len() ==> #[trigger] mask@[i] == !self.shape@.inorder().contains(i as nat),
    {
        let ghost n = self.items.len() as int;
        let ghost dv = self.dvals();
        let mut is_deleted = vec![false; self.items.len()];
        let mut k: usize = 0;
        while k < self.deleted.len()
            invariant
                self.wf(),
                self.items.len() == n,
                dv == self.dvals(),
                0 <= k <= self.deleted.len(),
                is_deleted.len() == n,
                forall|i: int| 0 <= i < n ==> #[trigger] is_deleted@[i] == dv.take(k as int).contains(i),
            decreases self.deleted.len() - k,
        {
            let dk = self.deleted[k];
            proof {
                assert(0 <= dv[k as int] < n);
            }
            let dk_usize = Self::slot(dk);
            is_deleted.set(dk_usize, true);
            k += 1;
            proof {
                let tk = dv.take(k - 1);
                assert(dv.take(k as int) =~= tk.push(dv[k - 1]));
                assert forall|i: int| 0 <= i < n implies #[trigger] is_deleted@[i] == dv.take(k as int).contains(i) by {
                    let tp = tk.push(dv[k - 1]);
                    if tp.contains(i) {
                        let m = choose|m: int| 0 <= m < tp.len() && tp[m] == i;
                        if m < tk.len() {
                            assert(tk[m] == i);
                        }
                    }
                    if tk.contains(i) {
                        let m = choose|m: int| 0 <= m < tk.len() && tk[m] == i;
                        assert(tp[m] == i);
                    }
                    if i == dv[k - 1] {
                        assert(tp[tk.len() as int] == i);
                    }
                }
            }
        }
        proof {
            assert(dv.take(k as int) =~= dv);
        }
        is_deleted
    }

    /// First pass of a compaction: moves the live items from the end of the
    /// arrays into the deleted slots before them, so that the live items fill
    /// the first slots. A moved item's old slot keeps in `child_left` the slot
    /// it went to. Returns where each live slot went and, for each new slot,
    /// the live slot that landed there.
    #[verifier::rlimit(60)]
    fn compact_move(&mut self, is_deleted: &Vec<bool>) -> (res: (Ghost<Seq<int>>, Ghost<Seq<int>>))
        requires
            old(self).wf(),
            old(self).slots() > 0,
            is_deleted.len() == old(self).items.len(),
            forall|i: int| 0 <= i < old(self).items.len() ==> #[trigger] is_deleted@[i] == !old(self).shape@.inorder().contains(i as nat),
        ensures
            ({
                let w = old(self).shape@.inorder();
                let pos = res.0@;
                let own = res.1@;
                let ps = w.map_values(|j: nat| pos[j as int]);
                &&& final(self).arrays_ok()
                &&& final(self).items.len() == old(self).items.len()
                &&& final(self).deleted == old(self).deleted
                &&& final(self).shape == old(self).shape
                &&& pos.len() == old(self).items.len()
                &&& own.len() == w.len()
                &&& forall|j: nat| #[trigger] w.contains(j) ==> {
                    &&& 0 <= pos[j as int] < w.len()
                    &&& (pos[j as int] != j ==> j >= w.len() && final(self).child_left@[j as int].value() == pos[j as int])
                    &&& final(self).items@[pos[j as int]] == old(self).items@[j as int]
                    &&& final(self).child_left@[pos[j as int]] == old(self).child_left@[j as int]
                    &&& final(self).child_right@[pos[j as int]] == old(self).child_right@[j as int]
                    &&& final(self).bal_factor@[pos[j as int]] == old(self).bal_factor@[j as int]
                }
                &&& forall|j1: nat, j2: nat|
                    #[trigger] w.contains(j1) && #[trigger] w.contains(j2) && j1 != j2 ==> pos[j1 as int] != pos[j2 as int]
                &&& forall|i: int| 0 <= i < w.len() ==> w.contains(#[trigger] own[i] as nat) && own[i] >= 0 && pos[own[i]] == i
                &&& forall|i: int| #[trigger] ps.contains(i) <==> 0 <= i < w.len()
                &&& old(self).root.value() == I::max_value() ==> final(self).root == old(self).root
                &&& old(self).root.value() != I::max_value() ==> w.contains(old(self).root.value() as nat)
                    && final(self).root.value() == pos[old(self).root.value()]
            }),
    {
        proof {
            I::lemma_int_properties();
            I::lemma_fits_in_usize();
        }
        let ghost t = self.shape@;
        let ghost w = t.inorder();
        let ghost n = self.items.len() as int;
        let ghost items0 = self.items@;
        let ghost cl0 = self.child_left@;
        let ghost cr0 = self.child_right@;
        let ghost b0 = self.bal_factor@;
        let ghost root0 = self.root;
        let mut d: usize = 0;
        let mut s: usize = self.items.len() - 1;
        proof {
            if t is Node {
                lemma_inorder_contains(t);
            }
        }
        let ghost mut pos: Seq<int> = Seq::new(n as nat, |j: int| j);
        let ghost mut own: Seq<int> = Seq::new(n as nat, |j: int| j);
        while d < s
            invariant
                self.arrays_ok(),
                self.items.len() == n,
                self.deleted == old(self).deleted,
                self.shape == old(self).shape,
                t == self.shape@,
                w == t.inorder(),
                is_deleted.len() == n,
                forall|i: int| 0 <= i < n ==> #[trigger] is_deleted@[i] == !w.contains(i as nat),
                forall|j: nat| #[trigger] w.contains(j) ==> j < n,
                0 <= d <= s + 1,
                s < n,
                pos.len() == n,
                own.len() == n,
                forall|j: nat| #[trigger] w.contains(j) ==> {
                    &&& 0 <= pos[j as int] < n
                    &&& (pos[j as int] < d || (pos[j as int] == j && d <= j <= s))
                    &&& (pos[j as int] != j ==> (j > s && pos[j as int] < d))
                    &&& self.items@[pos[j as int]] == items0[j as int]
                    &&& self.child_left@[pos[j as int]] == cl0[j as int]
                    &&& self.child_right@[pos[j as int]] == cr0[j as int]
                    &&& self.bal_factor@[pos[j as int]] == b0[j as int]
                    &&& (pos[j as int] != j ==> self.child_left@[j as int].value() == pos[j as int])
                },
                forall|j1: nat, j2: nat|
                    #[trigger] w.contains(j1) && #[trigger] w.contains(j2) && j1 != j2 ==> pos[j1 as int] != pos[j2 as int],
                forall|i: int| 0 <= i < d ==> w.contains(#[trigger] own[i] as nat) && own[i] >= 0 && pos[own[i]] == i,
                root0.value() == I::max_value() ==> self.root == root0,
                root0.value() != I::max_value() ==> w.contains(root0.value() as nat) && self.root.value() == pos[root0.value()],
                root0 == old(self).root,
                old(self).wf(),
                items0 == old(self).items@,
                cl0 == old(self).child_left@,
                cr0 == old(self).child_right@,
                b0 == old(self).bal_factor@,
            decreases s + 1 - d,
        {
            if !is_deleted[d] {
                proof {
                    own = own.update(d as int, d as int);
                }
                d += 1;
            } else if is_deleted[s] {
                s -= 1;
            } else {
                self.swap_items(d, s);
                let cl_d = self.child_left[d];
                let cl_s = self.child_left[s];
                self.child_left.set(d, cl_s);
                self.child_left.set(s, cl_d);
                let cr_d = self.child_right[d];
                let cr_s = self.child_right[s];
                self.child_right.set(d, cr_s);
                self.child_right.set(s, cr_d);
                let b_d = self.bal_factor[d];
                let b_s = self.bal_factor[s];
                self.bal_factor.set(d, b_s);
                self.bal_factor.set(s, b_d);
                if Self::slot(self.root) == s {
                    self.root = I::from_usize_unchecked(d);
                }

                // temporarily steal `child_left` in the truncated range to map new indices
                self.child_left.set(s, I::from_usize_unchecked(d));
                proof {
                    pos = pos.update(s as int, d as int);
                    own = own.update(d as int, s as int);
                }

                d += 1;
                s -= 1;
            }
        }
        let ghost ps = w.map_values(|j: nat| pos[j as int]);
        let ghost own2: Seq<int> = Seq::new(w.len(), |i: int| w[ps.index_of(i)] as int);
        proof {
            lemma_compact_positions(w, pos, own, d as int, s as int, n);
            assert forall|ii: int| 0 <= ii < w.len() implies w.contains(#[trigger] own2[ii] as nat) && own2[ii] >= 0 && pos[own2[ii]] == ii by {
                assert(own2[ii] == w[ps.index_of(ii)] as int);
            }
        }
        (Ghost(pos), Ghost(own2))
    }

    /// Second pass of a compaction: points each child pointer that leads past
    /// the live slots to the slot its item was moved to.
    #[verifier::rlimit(60)]
    fn compact_relink(&mut self, new_len: usize, Ghost(orig): Ghost<Self>, Ghost(pos): Ghost<Seq<int>>, Ghost(own): Ghost<Seq<int>>)
        requires
            orig.wf(),
            old(self).arrays_ok(),
            old(self).items.len() == orig.items.len(),
            new_len == orig.shape@.inorder().len(),
            own.len() == new_len,
            forall|j: nat| #[trigger] orig.shape@.inorder().contains(j) ==> {
                &&& 0 <= pos[j as int] < new_len
                &&& (pos[j as int] != j ==> j >= new_len && old(self).child_left@[j as int].value() == pos[j as int])
                &&& old(self).child_left@[pos[j as int]] == orig.child_left@[j as int]
                &&& old(self).child_right@[pos[j as int]] == orig.child_right@[j as int]
            },
            forall|ii: int| 0 <= ii < new_len ==> orig.shape@.inorder().contains(#[trigger] own[ii] as nat) && own[ii] >= 0 && pos[own[ii]] == ii,
        ensures
            final(self).arrays_ok(),
            final(self).items == old(self).items,
            final(self).bal_factor == old(self).bal_factor,
            final(self).deleted == old(self).deleted,
            final(self).shape == old(self).shape,
            final(self).root == old(self).root,
            forall|j: nat| #[trigger] orig.shape@.inorder().contains(j) ==> {
                &&& final(self).child_left@[pos[j as int]].value() == renamed(orig.child_left@[j as int].value(), pos, I::max_value())
                &&& final(self).child_right@[pos[j as int]].value() == renamed(orig.child_right@[j as int].value(), pos, I::max_value())
            },
    {
        proof {
            I::lemma_int_properties();
            I::lemma_fits_in_usize();
            lemma_links_bounds(orig.child_left@, orig.child_right@, orig.shape@);
            lemma_links_children(orig.child_left@, orig.child_right@, orig.shape@);
        }
        let ghost w = orig.shape@.inorder();
        let ghost n = self.items.len() as int;
        let ghost cl0 = orig.child_left@;
        let ghost cr0 = orig.child_right@;
        let ghost cl1 = self.child_left@;
        let nil_usize = Self::slot(I::MAX);
        let mut i: usize = 0;
        while i < new_len
            invariant
                self.arrays_ok(),
                self.items.len() == n,
                self.items == old(self).items,
                self.bal_factor == old(self).bal_factor,
                self.deleted == old(self).deleted,
                self.shape == old(self).shape,
                self.root == old(self).root,
                nil_usize == I::max_value(),
                I::MAX.value() == I::max_value(),
                0 <= i <= new_len,
                new_len == w.len(),
                new_len <= n,
                forall|j: nat| #[trigger] w.contains(j) ==> j < n,
                forall|j: nat| #[trigger] w.contains(j) ==> {
                    &&& 0 <= pos[j as int] < new_len
                    &&& (pos[j as int] != j ==> j >= new_len && self.child_left@[j as int].value() == pos[j as int])
                    &&& (pos[j as int] >= i ==> self.child_left@[pos[j as int]] == cl0[j as int])
                    &&& (pos[j as int] >= i ==> self.child_right@[pos[j as int]] == cr0[j as int])
                    &&& (pos[j as int] < i ==> self.child_left@[pos[j as int]].value() == renamed(cl0[j as int].value(), pos, I::max_value()))
                    &&& (pos[j as int] < i ==> self.child_right@[pos[j as int]].value() == renamed(cr0[j as int].value(), pos, I::max_value()))
                    &&& (cl0[j as int].value() == I::max_value() || (cl0[j as int].value() >= 0 && w.contains(cl0[j as int].value() as nat)))
                    &&& (cr0[j as int].value() == I::max_value() || (cr0[j as int].value() >= 0 && w.contains(cr0[j as int].value() as nat)))
                },
                forall|ii: int| 0 <= ii < new_len ==> w.contains(#[trigger] own[ii] as nat) && own[ii] >= 0 && pos[own[ii]] == ii,
            decreases new_len - i,
        {
            let ghost j = own[i as int];
            let cl = self.child_left[i];
            let cl_usize = Self::slot(cl);
            if cl_usize != nil_usize && cl_usize >= new_len {
                let fwd = self.child_left[cl_usize];
                self.child_left.set(i, fwd);  // temporary mapping
            }
            let cr = self.child_right[i];
            let cr_usize = Self::slot(cr);
            if cr_usize != nil_usize && cr_usize >= new_len {
                let fwd = self.child_left[cr_usize];
                self.child_right.set(i, fwd);  // temporary mapping
            }
            i += 1;
        }
    }

    /// Removes the deleted slots, moving live items from the end of the arrays
    /// into the holes and redirecting the child pointers to them.
    pub fn compact(&mut self)
        requires
            old(self).wf(),
            old(self).slots() > 0,
        ensures
            final(self).wf(),
            final(self)@ == old(self)@,
            final(self).slots() == old(self)@.len(),
    {
        proof {
            I::lemma_int_properties();
            I::lemma_fits_in_usize();
            lemma_links_bounds(self.child_left@, self.child_right@, self.shape@);
        }
        let ghost orig = *self;
        let ghost t = self.shape@;
        let ghost w = t.inorder();
        let is_deleted = self.deleted_mask();

        // shrink arrays by number of deleted items; move non-deleted items forward as needed
        let (Ghost(pos), Ghost(own)) = self.compact_move(&is_deleted);

        // update child pointers as needed
        let new_len = self.items.len() - self.deleted.len();
        self.compact_relink(new_len, Ghost(orig), Ghost(pos), Ghost(own));
        let ghost ps = w.map_values(|j: nat| pos[j as int]);

        self.items.truncate(new_len);
        self.child_left.truncate(new_len);
        self.child_right.truncate(new_len);
        self.bal_factor.truncate(new_len);
        self.deleted.clear();
        proof {
            lemma_remap_shape(t, pos);
            lemma_remap_links(orig.child_left@, orig.child_right@, self.child_left@, self.child_right@, t, pos);
            lemma_remap_balanced(orig.bal_factor@, self.bal_factor@, t, pos);
        }
        self.shape = Ghost(remap(t, pos));
        proof {
            if t is Node {
                lemma_inorder_contains(t);
            }
            self.lemma_compact_final(orig, pos, ps);
        }
    }

    /// The state at the end of a compaction: the old shape with its slots renamed by `pos`.
    #[verifier::rlimit(60)]
    proof fn lemma_compact_final(self, old: Self, pos: Seq<int>, ps: Seq<int>)
        requires
            old.wf(),
            self.arrays_ok(),
            self.deleted@.len() == 0,
            self.shape@ == remap(old.shape@, pos),
            self.items.len() == old.shape@.inorder().len(),
            links(self.child_left@, self.child_right@, self.shape@),
            balanced(self.bal_factor@, self.shape@),
            self.shape@.inorder() == old.shape@.inorder().map_values(|j: nat| pos[j as int] as nat),
            ps == old.shape@.inorder().map_values(|j: nat| pos[j as int]),
            forall|i: int| #[trigger] ps.contains(i) <==> 0 <= i < old.shape@.inorder().len(),
            forall|j1: nat, j2: nat|
                #[trigger] old.shape@.inorder().contains(j1) && #[trigger] old.shape@.inorder().contains(j2) && j1 != j2
                    ==> pos[j1 as int] != pos[j2 as int],
            forall|j: nat| #[trigger] old.shape@.inorder().contains(j) ==> {
                &&& 0 <= pos[j as int] < self.items.len()
                &&& self.items@[pos[j as int]] == old.items@[j as int]
            },
            self.root.value() == ptr(self.shape@, I::max_value()),
        ensures
            self.wf(),
            self@ == old@,
            self.slots() == old@.len(),
    {
        let w = old.shape@.inorder();
        let w2 = self.shape@.inorder();
        assert forall|a: int, b: int| 0 <= a < b < w2.len() implies key_lt(
            #[trigger] self.items@[w2[a] as int].spec_key(),
            #[trigger] self.items@[w2[b] as int].spec_key(),
        ) by {
            assert(w.contains(w[a]));
            assert(w.contains(w[b]));
        }
        assert forall|kk: int| 0 <= kk < w2.len() implies #[trigger] w2[kk] < self.items.len() by {
            assert(w.contains(w[kk]));
        }
        assert forall|a: int, b: int| 0 <= a < b < w2.len() implies w2[a] != w2[b] by {
            assert(w.contains(w[a]));
            assert(w.contains(w[b]));
            assert(ps[a] == w2[a] as int);
            assert(ps[b] == w2[b] as int);
            assert(ps.contains(ps[a]));
        }
        assert(self.dvals() =~= Seq::<int>::empty());
        assert forall|jj: nat| jj < self.items.len() implies (w2.contains(jj) <==> !#[trigger] self.dvals().contains(jj as int)) by {
            assert(ps.contains(jj as int));
            let m = ps.index_of(jj as int);
            assert(w2[m] == jj);
        }
        assert forall|kk: int| 0 <= kk < w.len() implies #[trigger] self@[kk] == old@[kk] by {
            assert(w.contains(w[kk]));
        }
        assert(self@ =~= old@);
    }

    /// Rebalances the subtree `t` at `node` after an insertion below it made
    /// one of its subtrees one taller. Returns the new head of the subtree if a
    /// rotation happened, and whether its height grew.
    fn rebalance_after_insert_node(&mut self, node: I, Ghost(t): Ghost<Shape>) -> (res: (Option<I>, bool))
        requires
            old(self).arrays_ok(),
            t is Node,
            node.value() == t.idx(),
            links(old(self).child_left@, old(self).child_right@, t),
            t.inorder().no_duplicates(),
            balanced(old(self).bal_factor@, t.left()),
            balanced(old(self).bal_factor@, t.right()),
            t.idx() < old(self).bal_factor.len(),
            old(self).bal_factor@[t.idx() as int] == t.bf(),
            -2 <= t.bf() <= 2,
            t.bf() == -2 ==> t.left().bf() != 0,
            t.bf() == 2 ==> t.right().bf() != 0,
        ensures
            final(self).arrays_ok(),
            final(self).items == old(self).items,
            final(self).deleted == old(self).deleted,
            final(self).root == old(self).root,
            final(self).shape == old(self).shape,
            links(final(self).child_left@, final(self).child_right@, insert_fixup(t)),
            balanced(final(self).bal_factor@, insert_fixup(t)),
            insert_fixup(t).inorder() == t.inorder(),
            res.0 is Some <==> (t.bf() == -2 || t.bf() == 2),
            res.0 matches Some(h) ==> h.value() == insert_fixup(t).idx(),
            insert_fixup(t) is Node,
            res.0 is None ==> insert_fixup(t) == t,
            res.1 == (t.bf() == -1 || t.bf() == 1),
            insert_fixup(t).height() == if t.bf() == -2 || t.bf() == 2 {
                t.height() - 1
            } else {
                t.height() as int
            },
            unchanged_outside(old(self).child_left@, final(self).child_left@, t.inorder()),
            unchanged_outside(old(self).child_right@, final(self).child_right@, t.inorder()),
            unchanged_outside(old(self).bal_factor@, final(self).bal_factor@, t.inorder()),
    {
        proof {
            I::lemma_int_properties();
            lemma_nodup_node(t);
            lemma_inorder_contains(t);
            lemma_inorder_contains(t.left());
            lemma_inorder_contains(t.right());
            lemma_inorder_contains(t.left().right());
            lemma_inorder_contains(t.right().left());
            lemma_links_bounds(old(self).child_left@, old(self).child_right@, t);
            reveal_with_fuel(links, 3);
            reveal_with_fuel(balanced, 2);
        }
        let n_usize = Self::slot(node);
        let n_bal = self.bal_factor[n_usize];

        // after rotation, the height of the branch becomes the same as before
        // the insertion (return `false` for second output)
        if n_bal == -2 {
            let cl = self.child_left[n_usize];
            let cl_usize = Self::slot(cl);
            if self.bal_factor[cl_usize] == -1 {
                self.rotate_right(node, Ghost(t));
                proof { lemma_rot_right_ok(t, old(self).bal_factor@, self.bal_factor@); }
                return (Some(cl), false);
            } else {
                let new_head = self.child_right[cl_usize];
                self.rotate_leftright(node, Ghost(t));
                proof { lemma_rot_leftright_ok(t, old(self).bal_factor@, self.bal_factor@); }
                return (Some(new_head), false);
            }
        } else if n_bal == 2 {
            let cr = self.child_right[n_usize];
            let cr_usize = Self::slot(cr);
            if self.bal_factor[cr_usize] == 1 {
                self.rotate_left(node, Ghost(t));
                proof { lemma_rot_left_ok(t, old(self).bal_factor@, self.bal_factor@); }
                return (Some(cr), false);
            } else {
                let new_head = self.child_left[cr_usize];
                self.rotate_rightleft(node, Ghost(t));
                proof { lemma_rot_rightleft_ok(t, old(self).bal_factor@, self.bal_factor@); }
                return (Some(new_head), false);
            }
        } else if n_bal == -1 || n_bal == 1 {
            // no rotation needed here but the height of this branch increased
            // (balance factor must have been zero before)
            return (None, true);
        } else {
            // no height increase (the shorter sub-branch grew to match)
            return (None, false);
        }
    }

    /// Rebalances the subtree `t` at `node` after a deletion below it made one
    /// of its subtrees one shorter. Returns the new head of the subtree if a
    /// rotation happened, and whether its height shrank.
    fn rebalance_after_delete_node(&mut self, node: I, Ghost(t): Ghost<Shape>) -> (res: (Option<I>, bool))
        requires
            old(self).arrays_ok(),
            t is Node,
            node.value() == t.idx(),
            links(old(self).child_left@, old(self).child_right@, t),
            t.inorder().no_duplicates(),
            balanced(old(self).bal_factor@, t.left()),
            balanced(old(self).bal_factor@, t.right()),
            t.idx() < old(self).bal_factor.len(),
            old(self).bal_factor@[t.idx() as int] == t.bf(),
            -2 <= t.bf() <= 2,
        ensures
            final(self).arrays_ok(),
            final(self).items == old(self).items,
            final(self).deleted == old(self).deleted,
            final(self).root == old(self).root,
            final(self).shape == old(self).shape,
            links(final(self).child_left@, final(self).child_right@, delete_fixup(t)),
            balanced(final(self).bal_factor@, delete_fixup(t)),
            delete_fixup(t).inorder() == t.inorder(),
            res.0 is Some <==> (t.bf() == -2 || t.bf() == 2),
            res.0 matches Some(h) ==> h.value() == delete_fixup(t).idx(),
            delete_fixup(t) is Node,
            res.0 is None ==> delete_fixup(t) == t && res.1 == (t.bf() == 0),
            res.0 is Some ==> delete_fixup(t).height() == t.height() - if res.1 { 1int } else { 0int },
            unchanged_outside(old(self).child_left@, final(self).child_left@, t.inorder()),
            unchanged_outside(old(self).child_right@, final(self).child_right@, t.inorder()),
            unchanged_outside(old(self).bal_factor@, final(self).bal_factor@, t.inorder()),
    {
        proof {
            I::lemma_int_properties();
            lemma_nodup_node(t);
            lemma_inorder_contains(t);
            lemma_inorder_contains(t.left());
            lemma_inorder_contains(t.right());
            lemma_inorder_contains(t.left().right());
            lemma_inorder_contains(t.right().left());
            lemma_links_bounds(old(self).child_left@, old(self).child_right@, t);
            reveal_with_fuel(links, 3);
            reveal_with_fuel(balanced, 2);
        }
        let n_usize = Self::slot(node);
        let n_bal = self.bal_factor[n_usize];

        if n_bal == -2 {
            let cl = self.child_left[n_usize];
            let cl_usize = Self::slot(cl);
            let cl_bal_before = self.bal_factor[cl_usize];
            if cl_bal_before == -1 || cl_bal_before == 0 {
                self.rotate_right(node, Ghost(t));
                proof { lemma_rot_right_ok(t, old(self).bal_factor@, self.bal_factor@); }
                return (Some(cl), cl_bal_before == -1);
            } else {
                let new_head = self.child_right[cl_usize];
                self.rotate_leftright(node, Ghost(t));
                proof { lemma_rot_leftright_ok(t, old(self).bal_factor@, self.bal_factor@); }
                return (Some(new_head), true);
            }
        } else if n_bal == 2 {
            let cr = self.child_right[n_usize];
            let cr_usize = Self::slot(cr);
            let cr_bal_before = self.bal_factor[cr_usize];
            if cr_bal_before == 1 || cr_bal_before == 0 {
                self.rotate_left(node, Ghost(t));
                proof { lemma_rot_left_ok(t, old(self).bal_factor@, self.bal_factor@); }
                return (Some(cr), cr_bal_before == 1);
            } else {
                let new_head = self.child_left[cr_usize];
                self.rotate_rightleft(node, Ghost(t));
                proof { lemma_rot_rightleft_ok(t, old(self).bal_factor@, self.bal_factor@); }
                return (Some(new_head), true);
            }
        } else if n_bal == -1 || n_bal == 1 {
            // no rotation needed and height of this branch has not changed
            // (balance factor must have been zero before)
            return (None, false);
        } else {
            // no rotation needed but height has decreased (balance factor must
            // have been +/- 1 before, and taller branch must have shrunk)
            return (None, true);
        }
    }

    /// Retraces the path of an insertion bottom-up, updating balance factors and
    /// rotating where needed. The top of `search_stack` is the parent of the
    /// new node, whose balance factor is already updated.
    #[verifier::rlimit(100)]
    #[verifier::spinoff_prover]
    fn rebalance_after_insert(
        &mut self,
        mut search_stack: Vec<(I, i8)>,
        Ghost(fs0): Ghost<Seq<Frame>>,
        Ghost(tp): Ghost<Shape>,
        Ghost(oh): Ghost<nat>,
    )
        requires
            old(self).arrays_ok(),
            stack_matches(search_stack@, fs0, tp.idx()),
            tp is Node,
            path_links(old(self).child_left@, old(self).child_right@, fs0, tp.idx() as int),
            links(old(self).child_left@, old(self).child_right@, tp),
            plug(fs0, tp).inorder().no_duplicates(),
            path_balanced(old(self).bal_factor@, fs0),
            fs0.len() > 0 ==> fs0.last().old_h == oh,
            balanced(old(self).bal_factor@, tp.left()),
            balanced(old(self).bal_factor@, tp.right()),
            tp.idx() < old(self).bal_factor.len(),
            old(self).bal_factor@[tp.idx() as int] == tp.bf(),
            insert_grown(tp, oh),
            old(self).root.value() == if fs0.len() > 0 { fs0[0].idx } else { tp.idx() },
        ensures
            final(self).arrays_ok(),
            final(self).items == old(self).items,
            final(self).deleted == old(self).deleted,
            links(final(self).child_left@, final(self).child_right@, final(self).shape@),
            balanced(final(self).bal_factor@, final(self).shape@),
            final(self).shape@.inorder() == plug(fs0, tp).inorder(),
            final(self).root.value() == ptr(final(self).shape@, I::max_value()),
            final(self).shape@ == retrace_insert(fs0, insert_fixup(tp)),
    {
        proof {
            I::lemma_int_properties();
        }
        let ghost target = plug(fs0, tp).inorder();
        let ghost mut fs = fs0;
        let ghost mut cur = tp;
        let ghost mut first = true;
        let mut prev_branch_dir: i8 = 0;
        let mut prev_branch_height_incr = true;
        let mut prev_branch_new_head: Option<I> = None;

        while search_stack.len() > 0
            invariant
                self.arrays_ok(),
                self.items == old(self).items,
                self.deleted == old(self).deleted,
                target == plug(fs0, tp).inorder(),
                target.no_duplicates(),
                first ==> {
                    &&& prev_branch_dir == 0
                    &&& fs == fs0
                    &&& cur == tp
                    &&& tp is Node
                    &&& tp.idx() < self.bal_factor.len()
                    &&& stack_matches(search_stack@, fs0, tp.idx())
                    &&& path_links(self.child_left@, self.child_right@, fs0, tp.idx() as int)
                    &&& links(self.child_left@, self.child_right@, tp)
                    &&& path_balanced(self.bal_factor@, fs0)
                    &&& balanced(self.bal_factor@, tp.left())
                    &&& balanced(self.bal_factor@, tp.right())
                    &&& self.bal_factor@[tp.idx() as int] == tp.bf()
                    &&& prev_branch_new_head is None
                    &&& prev_branch_height_incr
                    &&& self.root == old(self).root
                },
                !first ==> {
                    &&& fs.len() == search_stack.len()
                    &&& fs.len() > 0 ==> stack_matches(search_stack@, fs.drop_last(), fs.last().idx)
                    &&& fs.len() > 0 ==> prev_branch_dir == if fs.last().go_left { -1i8 } else { 1i8 }
                    &&& plug(fs, cur).inorder() == target
                    &&& cur is Node
                    &&& links(self.child_left@, self.child_right@, cur)
                    &&& balanced(self.bal_factor@, cur)
                    &&& prev_branch_height_incr ==> (cur.bf() != 0 || cur.height() == 1)
                    &&& prev_branch_new_head matches Some(c) ==> c.value() == cur.idx()
                    &&& fs.len() > 0 ==> {
                        &&& cur.height() == fs.last().old_h + if prev_branch_height_incr { 1int } else { 0int }
                        &&& frame_sib_linked(self.child_left@, self.child_right@, fs.last())
                        &&& (prev_branch_new_head is None ==> frame_path_ptr(self.child_left@, self.child_right@, fs.last()) == cur.idx())
                        &&& path_links(self.child_left@, self.child_right@, fs.drop_last(), fs.last().idx as int)
                        &&& path_balanced(self.bal_factor@, fs)
                        &&& self.root.value() == fs[0].idx
                    }
                    &&& fs.len() == 0 ==> (prev_branch_new_head is None ==> self.root.value() == cur.idx())
                },
                fs0.len() > 0 ==> fs0.last().old_h == oh,
                insert_grown(tp, oh),
                !first ==> retrace_insert(fs0, insert_fixup(tp)) == retrace_insert(fs, cur),
                old(self).root.value() == if fs0.len() > 0 { fs0[0].idx } else { tp.idx() },
            decreases search_stack.len(),
        {
            let ghost st_old = search_stack@;
            let (i, dir) = search_stack.pop().unwrap();
            let ghost fs_above: Seq<Frame>;
            let ghost ti: Shape;
            let ghost ohi: nat;
            proof {
                if first {
                    fs_above = fs0;
                    ti = tp;
                    ohi = oh;
                } else {
                    fs_above = fs.drop_last();
                    ti = attach(fs.last(), cur);
                    ohi = frame_height(fs.last());
                    lemma_plug_push(fs_above, fs.last(), cur);
                    assert(fs_above.push(fs.last()) =~= fs);
                }
                lemma_plug_disjoint(fs_above, ti);
                lemma_inorder_contains(ti);
                lemma_nodup_node(ti);
                assert(search_stack@ =~= st_old.drop_last());
            }
            let i_usize = Self::slot(i);
            if prev_branch_dir != 0 {
                let ghost f = fs.last();
                let ghost cl0 = self.child_left@;
                let ghost cr0 = self.child_right@;
                let ghost b0 = self.bal_factor@;

                // update child pointer if child branch was rotated
                if let Some(c) = prev_branch_new_head {
                    if prev_branch_dir == -1 {
                        self.child_left.set(i_usize, c);
                    } else {
                        self.child_right.set(i_usize, c);
                    }
                }
                proof {
                    lemma_links_bounds(cl0, cr0, cur);
                    lemma_links_bounds(cl0, cr0, f.sib);
                    lemma_path_links_bounds(cl0, cr0, fs_above, f.idx as int);
                    lemma_agree_outside(cl0, self.child_left@, seq![f.idx], cur.inorder());
                    lemma_agree_outside(cr0, self.child_right@, seq![f.idx], cur.inorder());
                    lemma_agree_outside(cl0, self.child_left@, seq![f.idx], f.sib.inorder());
                    lemma_agree_outside(cr0, self.child_right@, seq![f.idx], f.sib.inorder());
                    lemma_agree_outside(cl0, self.child_left@, seq![f.idx], path_slots(fs_above));
                    lemma_agree_outside(cr0, self.child_right@, seq![f.idx], path_slots(fs_above));
                    lemma_links_frame(cl0, cr0, self.child_left@, self.child_right@, cur);
                    lemma_links_frame(cl0, cr0, self.child_left@, self.child_right@, f.sib);
                    lemma_path_links_frame(cl0, cr0, self.child_left@, self.child_right@, fs_above, f.idx as int);
                    assert(links(self.child_left@, self.child_right@, ti));
                }

                // update balance factor if height of child branch changed
                if prev_branch_height_incr {
                    if prev_branch_dir == -1 {
                        let b = self.bal_factor[i_usize];
                        self.bal_factor.set(i_usize, b - 1);
                    } else {
                        let b = self.bal_factor[i_usize];
                        self.bal_factor.set(i_usize, b + 1);
                    }
                } else {
                    // child branch did not change height; done rebalancing
                    proof {
                        lemma_plug_links(self.child_left@, self.child_right@, fs_above, ti);
                        lemma_plug_balanced(self.bal_factor@, fs_above, ti);
                        lemma_plug_inorder(fs_above, ti);
                        lemma_plug_ptr(fs_above, ti, I::max_value());
                        lemma_retrace_stable(self.bal_factor@, fs, cur);
                        assert(plug(fs, cur) == plug(fs_above, ti));
                    }
                    self.shape = Ghost(plug(fs_above, ti));
                    return;
                }
                proof {
                    lemma_balanced_bounds(b0, cur);
                    lemma_balanced_bounds(b0, f.sib);
                    lemma_agree_outside(b0, self.bal_factor@, seq![f.idx], cur.inorder());
                    lemma_agree_outside(b0, self.bal_factor@, seq![f.idx], f.sib.inorder());
                    lemma_agree_outside(b0, self.bal_factor@, seq![f.idx], path_slots(fs_above));
                    lemma_balanced_frame(b0, self.bal_factor@, cur);
                    lemma_balanced_frame(b0, self.bal_factor@, f.sib);
                    lemma_path_balanced_frame(b0, self.bal_factor@, fs_above);
                    assert(insert_grown(ti, ohi));
                }
            }
            let ghost cl1 = self.child_left@;
            let ghost cr1 = self.child_right@;
            let ghost b1 = self.bal_factor@;
            proof {
                lemma_path_links_bounds(cl1, cr1, fs_above, ti.idx() as int);
            }

            // rebalance this node's branch
            let (branch_new_head, height_incr) = self.rebalance_after_insert_node(i, Ghost(ti));

            proof {
                let nx = insert_fixup(ti);
                lemma_plug_inorder(fs_above, ti);
                lemma_plug_inorder(fs_above, nx);
                lemma_agree_outside(cl1, self.child_left@, ti.inorder(), path_slots(fs_above));
                lemma_agree_outside(cr1, self.child_right@, ti.inorder(), path_slots(fs_above));
                lemma_agree_outside(b1, self.bal_factor@, ti.inorder(), path_slots(fs_above));
                lemma_path_links_frame(cl1, cr1, self.child_left@, self.child_right@, fs_above, ti.idx() as int);
                lemma_path_balanced_frame(b1, self.bal_factor@, fs_above);
                if fs_above.len() > 0 {
                    assert(fs_above.drop_last().push(fs_above.last()) =~= fs_above);
                    assert(fs_above[0] == fs[0]);
                }
                if !first {
                    assert(retrace_insert(fs, cur) == retrace_insert(fs_above, insert_fixup(ti)));
                }
                fs = fs_above;
                cur = nx;
                first = false;
            }
            prev_branch_dir = dir;
            prev_branch_new_head = branch_new_head;
            prev_branch_height_incr = height_incr;
        }

        // reassign root pointer if rotation happened at root
        if let Some(n) = prev_branch_new_head {
            self.root = n;
        }
        proof {
            assert(fs.len() == 0);
        }
        self.shape = Ghost(cur);
    }

    /// Retraces the path of a deletion bottom-up, updating balance factors and
    /// rotating where needed. The top of `search_stack`, if any, is where
    /// retracing starts; its balance factor is already updated. An empty
    /// `search_stack` means that `tp` is already the whole tree.
    #[verifier::rlimit(40)]
    fn rebalance_after_delete(
        &mut self,
        mut search_stack: Vec<(I, i8)>,
        Ghost(fs0): Ghost<Seq<Frame>>,
        Ghost(tp): Ghost<Shape>,
        Ghost(oh): Ghost<nat>,
    )
        requires
            old(self).arrays_ok(),
            plug(fs0, tp).inorder().no_duplicates(),
            search_stack.len() == 0 ==> {
                &&& fs0.len() == 0
                &&& links(old(self).child_left@, old(self).child_right@, tp)
                &&& balanced(old(self).bal_factor@, tp)
                &&& old(self).root.value() == ptr(tp, I::max_value())
            },
            search_stack.len() > 0 ==> {
                &&& stack_matches(search_stack@, fs0, tp.idx())
                &&& tp is Node
                &&& path_links(old(self).child_left@, old(self).child_right@, fs0, tp.idx() as int)
                &&& links(old(self).child_left@, old(self).child_right@, tp)
                &&& path_balanced(old(self).bal_factor@, fs0)
                &&& fs0.len() > 0 ==> fs0.last().old_h == oh
                &&& balanced(old(self).bal_factor@, tp.left())
                &&& balanced(old(self).bal_factor@, tp.right())
                &&& tp.idx() < old(self).bal_factor.len()
                &&& old(self).bal_factor@[tp.idx() as int] == tp.bf()
                &&& delete_shrunk(tp, oh)
                &&& old(self).root.value() == if fs0.len() > 0 { fs0[0].idx } else { tp.idx() }
            },
        ensures
            final(self).arrays_ok(),
            final(self).items == old(self).items,
            final(self).deleted == old(self).deleted,
            links(final(self).child_left@, final(self).child_right@, final(self).shape@),
            balanced(final(self).bal_factor@, final(self).shape@),
            final(self).shape@.inorder() == plug(fs0, tp).inorder(),
            final(self).root.value() == ptr(final(self).shape@, I::max_value()),
    {
        proof {
            I::lemma_int_properties();
        }
        let ghost target = plug(fs0, tp).inorder();
        let ghost mut fs = fs0;
        let ghost mut cur = tp;
        let ghost mut first = search_stack.len() > 0;
        let mut prev_branch_dir: i8 = 0;
        let mut prev_branch_height_decr = true;
        let mut prev_branch_new_head: Option<I> = None;

        while search_stack.len() > 0
            invariant
                self.arrays_ok(),
                self.items == old(self).items,
                self.deleted == old(self).deleted,
                target == plug(fs0, tp).inorder(),
                target.no_duplicates(),
                first ==> {
                    &&& search_stack.len() > 0
                    &&& prev_branch_dir == 0
                    &&& fs == fs0
                    &&& cur == tp
                    &&& tp is Node
                    &&& tp.idx() < self.bal_factor.len()
                    &&& stack_matches(search_stack@, fs0, tp.idx())
                    &&& path_links(self.child_left@, self.child_right@, fs0, tp.idx() as int)
                    &&& links(self.child_left@, self.child_right@, tp)
                    &&& path_balanced(self.bal_factor@, fs0)
                    &&& balanced(self.bal_factor@, tp.left())
                    &&& balanced(self.bal_factor@, tp.right())
                    &&& self.bal_factor@[tp.idx() as int] == tp.bf()
                    &&& prev_branch_new_head is None
                    &&& prev_branch_height_decr
                    &&& self.root == old(self).root
                },
                !first ==> {
                    &&& fs.len() == search_stack.len()
                    &&& fs.len() > 0 ==> stack_matches(search_stack@, fs.drop_last(), fs.last().idx)
                    &&& fs.len() > 0 ==> prev_branch_dir == if fs.last().go_left { -1i8 } else { 1i8 }
                    &&& plug(fs, cur).inorder() == target
                    &&& (fs.len() > 0 || prev_branch_new_head is Some) ==> cur is Node
                    &&& links(self.child_left@, self.child_right@, cur)
                    &&& balanced(self.bal_factor@, cur)
                    &&& prev_branch_new_head matches Some(c) ==> c.value() == cur.idx()
                    &&& fs.len() > 0 ==> {
                        &&& cur.height() == fs.last().old_h - if prev_branch_height_decr { 1int } else { 0int }
                        &&& frame_sib_linked(self.child_left@, self.child_right@, fs.last())
                        &&& (prev_branch_new_head is None ==> frame_path_ptr(self.child_left@, self.child_right@, fs.last()) == cur.idx())
                        &&& path_links(self.child_left@, self.child_right@, fs.drop_last(), fs.last().idx as int)
                        &&& path_balanced(self.bal_factor@, fs)
                        &&& self.root.value() == fs[0].idx
                    }
                    &&& fs.len() == 0 ==> (prev_branch_new_head is None ==> self.root.value() == ptr(cur, I::max_value()))
                },
                first ==> (fs0.len() > 0 ==> fs0.last().old_h == oh),
                first ==> delete_shrunk(tp, oh),
                first ==> old(self).root.value() == if fs0.len() > 0 { fs0[0].idx } else { tp.idx() },
                !first && fs.len() == 0 && prev_branch_new_head is None && plug(fs, cur) == tp ==> {
                    &&& links(self.child_left@, self.child_right@, cur)
                    &&& balanced(self.bal_factor@, cur)
                    &&& self.root.value() == ptr(cur, I::max_value())
                },
            decreases search_stack.len(),
        {
            let ghost st_old = search_stack@;
            let (i, dir) = search_stack.pop().unwrap();
            let ghost fs_above: Seq<Frame>;
            let ghost ti: Shape;
            let ghost ohi: nat;
            proof {
                if first {
                    fs_above = fs0;
                    ti = tp;
                    ohi = oh;
                } else {
                    fs_above = fs.drop_last();
                    ti = attach(fs.last(), cur);
                    ohi = frame_height(fs.last());
                    lemma_plug_push(fs_above, fs.last(), cur);
                    assert(fs_above.push(fs.last()) =~= fs);
                }
                lemma_plug_disjoint(fs_above, ti);
                lemma_inorder_contains(ti);
                lemma_nodup_node(ti);
                assert(search_stack@ =~= st_old.drop_last());
            }
            let i_usize = Self::slot(i);
            if prev_branch_dir != 0 {
                let ghost f = fs.last();
                let ghost cl0 = self.child_left@;
                let ghost cr0 = self.child_right@;
                let ghost b0 = self.bal_factor@;

                // update child pointer if child branch was rotated
                if let Some(c) = prev_branch_new_head {
                    if prev_branch_dir == -1 {
                        self.child_left.set(i_usize, c);
                    } else {
                        self.child_right.set(i_usize, c);
                    }
                }
                proof {
                    lemma_links_bounds(cl0, cr0, cur);
                    lemma_links_bounds(cl0, cr0, f.sib);
                    lemma_path_links_bounds(cl0, cr0, fs_above, f.idx as int);
                    lemma_agree_outside(cl0, self.child_left@, seq![f.idx], cur.inorder());
                    lemma_agree_outside(cr0, self.child_right@, seq![f.idx], cur.inorder());
                    lemma_agree_outside(cl0, self.child_left@, seq![f.idx], f.sib.inorder());
                    lemma_agree_outside(cr0, self.child_right@, seq![f.idx], f.sib.inorder());
                    lemma_agree_outside(cl0, self.child_left@, seq![f.idx], path_slots(fs_above));
                    lemma_agree_outside(cr0, self.child_right@, seq![f.idx], path_slots(fs_above));
                    lemma_links_frame(cl0, cr0, self.child_left@, self.child_right@, cur);
                    lemma_links_frame(cl0, cr0, self.child_left@, self.child_right@, f.sib);
                    lemma_path_links_frame(cl0, cr0, self.child_left@, self.child_right@, fs_above, f.idx as int);
                    assert(links(self.child_left@, self.child_right@, ti));
                }

                // update balance factor if height of child branch changed
                if prev_branch_height_decr {
                    if prev_branch_dir == -1 {
                        let b = self.bal_factor[i_usize];
                        self.bal_factor.set(i_usize, b + 1);
                    } else {
                        let b = self.bal_factor[i_usize];
                        self.bal_factor.set(i_usize, b - 1);
                    }
                } else {
                    // child branch did not change height; done rebalancing
                    proof {
                        lemma_plug_links(self.child_left@, self.child_right@, fs_above, ti);
                        lemma_plug_balanced(self.bal_factor@, fs_above, ti);
                        lemma_plug_inorder(fs_above, ti);
                        lemma_plug_ptr(fs_above, ti, I::max_value());
                    }
                    self.shape = Ghost(plug(fs_above, ti));
                    return;
                }
                proof {
                    lemma_balanced_bounds(b0, cur);
                    lemma_balanced_bounds(b0, f.sib);
                    lemma_agree_outside(b0, self.bal_factor@, seq![f.idx], cur.inorder());
                    lemma_agree_outside(b0, self.bal_factor@, seq![f.idx], f.sib.inorder());
                    lemma_agree_outside(b0, self.bal_factor@, seq![f.idx], path_slots(fs_above));
                    lemma_balanced_frame(b0, self.bal_factor@, cur);
                    lemma_balanced_frame(b0, self.bal_factor@, f.sib);
                    lemma_path_balanced_frame(b0, self.bal_factor@, fs_above);
                    assert(delete_shrunk(ti, ohi));
                }
            }
            let ghost cl1 = self.child_left@;
            let ghost cr1 = self.child_right@;
            let ghost b1 = self.bal_factor@;
            proof {
                lemma_path_links_bounds(cl1, cr1, fs_above, ti.idx() as int);
            }

            // rebalance this node's branch
            let (branch_new_head, height_decr) = self.rebalance_after_delete_node(i, Ghost(ti));

            proof {
                let nx = delete_fixup(ti);
                lemma_plug_inorder(fs_above, ti);
                lemma_plug_inorder(fs_above, nx);
                lemma_agree_outside(cl1, self.child_left@, ti.inorder(), path_slots(fs_above));
                lemma_agree_outside(cr1, self.child_right@, ti.inorder(), path_slots(fs_above));
                lemma_agree_outside(b1, self.bal_factor@, ti.inorder(), path_slots(fs_above));
                lemma_path_links_frame(cl1, cr1, self.child_left@, self.child_right@, fs_above, ti.idx() as int);
                lemma_path_balanced_frame(b1, self.bal_factor@, fs_above);
                if fs_above.len() > 0 {
                    assert(fs_above.drop_last().push(fs_above.last()) =~= fs_above);
                    assert(fs_above[0] == fs[0]);
                }
                fs = fs_above;
                cur = nx;
                first = false;
            }
            prev_branch_dir = dir;
            prev_branch_new_head = branch_new_head;
            prev_branch_height_decr = height_decr;
        }

        // reassign root pointer if rotation happened at root
        if let Some(n) = prev_branch_new_head {
            self.root = n;
        }
        proof {
            assert(fs.len() == 0);
        }
        self.shape = Ghost(cur);
    }
}

/// The stack of a descent: the frames' nodes, then `top`, with each entry's
/// direction from its parent (-1 for left, 1 for right).
pub open spec fn stack_matches<I: Int>(st: Seq<(I, i8)>, fs: Seq<Frame>, top: nat) -> bool {
    &&& st.len() == fs.len() + 1
    &&& forall|j: int| 0 <= j < fs.len() ==> (#[trigger] st[j]).0.value() == fs[j].idx
    &&& st[fs.len() as int].0.value() == top
    &&& forall|j: int| 0 <= j < fs.len() ==> (#[trigger] st[j + 1]).1 == if fs[j].go_left { -1i8 } else { 1i8 }
}

/// The node of frame `f` holds its other subtree.
pub open spec fn frame_sib_linked<I: Int>(cl: Seq<I>, cr: Seq<I>, f: Frame) -> bool {
    &&& f.idx < cl.len()
    &&& f.idx < cr.len()
    &&& if f.go_left {
        cr[f.idx as int].value() == ptr(f.sib, I::max_value())
    } else {
        cl[f.idx as int].value() == ptr(f.sib, I::max_value())
    }
    &&& links(cl, cr, f.sib)
}

/// The child of the node of frame `f` on the path side.
pub open spec fn frame_path_ptr<I: Int>(cl: Seq<I>, cr: Seq<I>, f: Frame) -> int {
    if f.go_left {
        cl[f.idx as int].value()
    } else {
        cr[f.idx as int].value()
    }
}

/// The subtree of a node with at most one child that takes the node's place when it is deleted.
pub open spec fn remaining(t: Shape) -> Shape {
    if t.left() is Leaf {
        t.right()
    } else {
        t.left()
    }
}

/// `t` is a subtree of old height `oh` after one of its subtrees, in a
/// balanced configuration before, shrank by one.
pub open spec fn delete_shrunk(t: Shape, oh: nat) -> bool {
    &&& -2 <= t.bf() <= 2
    &&& t.bf() == 0 ==> t.height() + 1 == oh
    &&& t.bf() != 0 ==> t.height() == oh
}

/// `t` is a subtree of old height `oh` after one of its subtrees grew by one:
/// its height is `oh` or `oh + 1`, and a subtree two taller than the other leans.
pub open spec fn insert_grown(t: Shape, oh: nat) -> bool {
    &&& -2 <= t.bf() <= 2
    &&& t.bf() == 0 ==> t.height() == oh
    &&& t.bf() != 0 ==> t.height() == oh + 1
    &&& t.bf() == -2 ==> t.left().bf() != 0
    &&& t.bf() == 2 ==> t.right().bf() != 0
}

/// `new` is `old` with `item` placed in slot `n`, which has no children and a
/// zero balance factor; the other slots keep their contents, and the root and
/// the shape are kept.
spec fn slot_filled<T: AvlTreeItem + Default, I: IntNonnegFitsInUsize>(
    old: AvlTree<T, I>,
    new: AvlTree<T, I>,
    n: int,
    item: T,
) -> bool {
    &&& new.arrays_ok()
    &&& 0 <= n < new.items.len()
    &&& new.items.len() >= old.items.len()
    &&& new.items@[n] == item
    &&& new.child_left@[n].value() == I::max_value()
    &&& new.child_right@[n].value() == I::max_value()
    &&& new.bal_factor@[n] == 0
    &&& forall|j: int| 0 <= j < old.items.len() && j != n ==> #[trigger] new.items@[j] == old.items@[j]
    &&& forall|j: int| 0 <= j < old.items.len() && j != n ==> #[trigger] new.child_left@[j] == old.child_left@[j]
    &&& forall|j: int| 0 <= j < old.items.len() && j != n ==> #[trigger] new.child_right@[j] == old.child_right@[j]
    &&& forall|j: int| 0 <= j < old.items.len() && j != n ==> #[trigger] new.bal_factor@[j] == old.bal_factor@[j]
    &&& new.root == old.root
    &&& new.shape == old.shape
}

/// The arrays `s1` and `s2` agree on every slot not in `idxs`.
pub open spec fn unchanged_outside<A>(s1: Seq<A>, s2: Seq<A>, idxs: Seq<nat>) -> bool {
    &&& s1.len() == s2.len()
    &&& forall|j: int| 0 <= j < s1.len() && !idxs.contains(j as nat) ==> s1[j] == s2[j]
}

/// The subtree `t` after rebalancing at its root following an insertion.
pub open spec fn insert_fixup(t: Shape) -> Shape {
    if t.bf() == -2 {
        if t.left().bf() == -1 {
            rot_right(t)
        } else {
            rot_leftright(t)
        }
    } else if t.bf() == 2 {
        if t.right().bf() == 1 {
            rot_left(t)
        } else {
            rot_rightleft(t)
        }
    } else {
        t
    }
}

/// The subtree `t` after rebalancing at its root following a deletion.
pub open spec fn delete_fixup(t: Shape) -> Shape {
    if t.bf() == -2 {
        if t.left().bf() == 1 {
            rot_leftright(t)
        } else {
            rot_right(t)
        }
    } else if t.bf() == 2 {
        if t.right().bf() == -1 {
            rot_rightleft(t)
        } else {
            rot_left(t)
        }
    } else {
        t
    }
}

/// Left rotation at the root of `t`.
pub open spec fn rot_left(t: Shape) -> Shape {
    Shape::Node(
        Box::new(Shape::Node(Box::new(t.left()), t.idx(), Box::new(t.right().left()))),
        t.right().idx(),
        Box::new(t.right().right()),
    )
}

/// Right rotation at the root of `t`.
pub open spec fn rot_right(t: Shape) -> Shape {
    Shape::Node(
        Box::new(t.left().left()),
        t.left().idx(),
        Box::new(Shape::Node(Box::new(t.left().right()), t.idx(), Box::new(t.right()))),
    )
}

/// Left rotation at the left child of `t`, then right rotation at `t`.
pub open spec fn rot_leftright(t: Shape) -> Shape {
    let cl = t.left();
    let clr = cl.right();
    Shape::Node(
        Box::new(Shape::Node(Box::new(cl.left()), cl.idx(), Box::new(clr.left()))),
        clr.idx(),
        Box::new(Shape::Node(Box::new(clr.right()), t.idx(), Box::new(t.right()))),
    )
}

/// Right rotation at the right child of `t`, then left rotation at `t`.
pub open spec fn rot_rightleft(t: Shape) -> Shape {
    let cr = t.right();
    let crl = cr.left();
    Shape::Node(
        Box::new(Shape::Node(Box::new(t.left()), t.idx(), Box::new(crl.left()))),
        crl.idx(),
        Box::new(Shape::Node(Box::new(crl.right()), cr.idx(), Box::new(cr.right()))),
    )
}

/// `t` with each label at or above `q` raised by one.
pub open spec fn shift_labels(t: Shape, q: nat) -> Shape
    decreases t,
{
    match t {
        Shape::Leaf => Shape::Leaf,
        Shape::Node(l, i, r) => Shape::Node(
            Box::new(shift_labels(*l, q)),
            if i >= q { i + 1 } else { i },
            Box::new(shift_labels(*r, q)),
        ),
    }
}

/// The layout that a tree of layout `t` has after a new item is inserted at
/// position `q` of its items: the search for position `q` ends at an empty
/// subtree, where the new node goes; the positions from `q` on move up by
/// one; and each node on the way back up is rebalanced.
pub open spec fn layout_insert(t: Shape, q: nat) -> Shape
    decreases t,
{
    match t {
        Shape::Leaf => Shape::Node(Box::new(Shape::Leaf), q, Box::new(Shape::Leaf)),
        Shape::Node(l, i, r) => if q <= i {
            insert_fixup(Shape::Node(Box::new(layout_insert(*l, q)), i + 1, Box::new(shift_labels(*r, q))))
        } else {
            insert_fixup(Shape::Node(Box::new(shift_labels(*l, q)), i, Box::new(layout_insert(*r, q))))
        },
    }
}

/// The slot shape after the item of key `k` is put in the new slot `n` of a
/// tree of slot shape `t` over `items`, rebalancing on the way back up.
spec fn slot_insert<T: AvlTreeItem>(t: Shape, n: nat, items: Seq<T>, k: T::Key) -> Shape
    decreases t,
{
    match t {
        Shape::Leaf => Shape::Node(Box::new(Shape::Leaf), n, Box::new(Shape::Leaf)),
        Shape::Node(l, i, r) => if key_lt(k, items[i as int].spec_key()) {
            insert_fixup(Shape::Node(Box::new(slot_insert(*l, n, items, k)), i, r))
        } else {
            insert_fixup(Shape::Node(l, i, Box::new(slot_insert(*r, n, items, k))))
        },
    }
}

/// The tree after the subtree `x` below the path `fs` grew by an insertion:
/// each node of the path, bottom up, rebalanced.
spec fn retrace_insert(fs: Seq<Frame>, x: Shape) -> Shape
    decreases fs.len(),
{
    if fs.len() == 0 {
        x
    } else {
        retrace_insert(fs.drop_last(), insert_fixup(attach(fs.last(), x)))
    }
}

/// Where the subtree below the path kept its height, rebalancing the path
/// changes nothing.
proof fn lemma_retrace_stable(b: Seq<i8>, fs: Seq<Frame>, x: Shape)
    requires
        path_balanced(b, fs),
        fs.len() > 0 ==> x.height() == fs.last().old_h,
    ensures
        retrace_insert(fs, x) == plug(fs, x),
    decreases fs.len(),
{
    if fs.len() > 0 {
        let t = attach(fs.last(), x);
        assert(insert_fixup(t) == t);
        lemma_retrace_stable(b, fs.drop_last(), t);
    }
}

/// Inserting below the path that the search took is inserting below its end
/// and rebalancing the path.
proof fn lemma_slot_insert_path<T: AvlTreeItem>(fs: Seq<Frame>, x: Shape, n: nat, items: Seq<T>, k: T::Key)
    requires
        forall|j: int| 0 <= j < fs.len() ==> (#[trigger] fs[j]).go_left == key_lt(k, items[fs[j].idx as int].spec_key()),
    ensures
        slot_insert(plug(fs, x), n, items, k) == retrace_insert(fs, slot_insert(x, n, items, k)),
    decreases fs.len(),
{
    if fs.len() > 0 {
        let f = fs.last();
        let rest = fs.drop_last();
        assert(fs[fs.len() - 1] == f);
        assert forall|j: int| 0 <= j < rest.len() implies (#[trigger] rest[j]).go_left == key_lt(k, items[rest[j].idx as int].spec_key()) by {
            assert(rest[j] == fs[j]);
        }
        lemma_slot_insert_path(rest, attach(f, x), n, items, k);
        assert(slot_insert(attach(f, x), n, items, k) == insert_fixup(attach(f, slot_insert(x, n, items, k))));
    }
}

/// Renaming the nodes keeps every height.
proof fn lemma_remap_height(t: Shape, p: Seq<int>)
    ensures
        remap(t, p).height() == t.height(),
        remap(t, p).bf() == t.bf(),
        (remap(t, p) is Leaf) == (t is Leaf),
        remap(t, p).left() == remap(t.left(), p),
        remap(t, p).right() == remap(t.right(), p),
        remap(t, p).idx() == if t is Node { p[t.idx() as int] as nat } else { 0 },
    decreases t,
{
    if let Shape::Node(l, i, r) = t {
        lemma_remap_height(*l, p);
        lemma_remap_height(*r, p);
    }
}

/// Renaming the nodes and rebalancing after an insertion can go in either order.
proof fn lemma_remap_fixup(t: Shape, p: Seq<int>)
    requires
        t.bf() == -2 ==> height_balanced(t.left()),
        t.bf() == 2 ==> height_balanced(t.right()),
    ensures
        remap(insert_fixup(t), p) == insert_fixup(remap(t, p)),
{
    lemma_remap_height(t, p);
    lemma_remap_height(t.left(), p);
    lemma_remap_height(t.right(), p);
    lemma_remap_height(t.left().left(), p);
    lemma_remap_height(t.left().right(), p);
    lemma_remap_height(t.right().left(), p);
    lemma_remap_height(t.right().right(), p);
    lemma_remap_height(t.left().right().left(), p);
    lemma_remap_height(t.left().right().right(), p);
    lemma_remap_height(t.right().left().left(), p);
    lemma_remap_height(t.right().left().right(), p);
    reveal_with_fuel(remap, 3);
    let u = remap(t, p);
    if t.bf() == -2 {
        assert(t.left() is Node);
        if t.left().bf() == -1 {
            assert(remap(rot_right(t), p) == rot_right(u));
        } else {
            assert(t.left().right().height() >= 1);
            assert(t.left().right() is Node);
            assert(remap(rot_leftright(t), p) == rot_leftright(u));
        }
    } else if t.bf() == 2 {
        assert(t.right() is Node);
        if t.right().bf() == 1 {
            assert(remap(rot_left(t), p) == rot_left(u));
        } else {
            assert(t.right().left().height() >= 1);
            assert(t.right().left() is Node);
            assert(remap(rot_rightleft(t), p) == rot_rightleft(u));
        }
    }
}

/// Renaming with positions raised by one from `q` on raises the labels from `q` on.
proof fn lemma_remap_shift(t: Shape, p: Seq<int>, p2: Seq<int>, q: nat)
    requires
        forall|j: nat| #[trigger] t.inorder().contains(j) ==> {
            &&& j < p.len()
            &&& j < p2.len()
            &&& p[j as int] >= 0
            &&& p2[j as int] == p[j as int] + if p[j as int] >= q { 1int } else { 0int }
        },
    ensures
        remap(t, p2) == shift_labels(remap(t, p), q),
    decreases t,
{
    if let Shape::Node(l, i, r) = t {
        lemma_inorder_contains(t);
        lemma_remap_shift(*l, p, p2, q);
        lemma_remap_shift(*r, p, p2, q);
    }
}

/// Inserting into a height-balanced tree and rebalancing on the way back up
/// gives a height-balanced tree, at most one taller; one that grew (and was
/// not empty) leans to one side.
proof fn lemma_slot_insert_avl<T: AvlTreeItem>(t: Shape, n: nat, items: Seq<T>, k: T::Key)
    requires
        height_balanced(t),
    ensures
        slot_insert(t, n, items, k) is Node,
        height_balanced(slot_insert(t, n, items, k)),
        slot_insert(t, n, items, k).height() == t.height() || slot_insert(t, n, items, k).height() == t.height() + 1,
        slot_insert(t, n, items, k).height() == t.height() + 1 && t is Node ==> slot_insert(t, n, items, k).bf() != 0,
    decreases t,
{
    reveal_with_fuel(height_balanced, 3);
    if let Shape::Node(l, i, r) = t {
        if key_lt(k, items[i as int].spec_key()) {
            lemma_slot_insert_avl(*l, n, items, k);
            let y = slot_insert(*l, n, items, k);
            let x = Shape::Node(Box::new(y), i, r);
            if -1 <= x.bf() <= 1 {
                assert(height_balanced(x));
            }
            if x.bf() == -2 {
                assert(*l is Node);
                assert(y.height() == l.height() + 1);
                if y.bf() == -1 {
                    let inner = Shape::Node(Box::new(y.right()), i, r);
                    assert(inner.height() == r.height() + 1);
                    assert(height_balanced(inner));
                    assert(rot_right(x) == Shape::Node(Box::new(y.left()), y.idx(), Box::new(inner)));
                    assert(height_balanced(rot_right(x)));
                } else {
                    let c = y.right();
                    assert(c.height() == r.height() + 1);
                    assert(c is Node);
                    let a = Shape::Node(Box::new(y.left()), y.idx(), Box::new(c.left()));
                    let b = Shape::Node(Box::new(c.right()), i, r);
                    assert(a.height() == r.height() + 1);
                    assert(b.height() == r.height() + 1);
                    assert(height_balanced(a));
                    assert(height_balanced(b));
                    assert(rot_leftright(x) == Shape::Node(Box::new(a), c.idx(), Box::new(b)));
                    assert(height_balanced(rot_leftright(x)));
                }
            }
        } else {
            lemma_slot_insert_avl(*r, n, items, k);
            let y = slot_insert(*r, n, items, k);
            let x = Shape::Node(l, i, Box::new(y));
            if -1 <= x.bf() <= 1 {
                assert(height_balanced(x));
            }
            if x.bf() == 2 {
                assert(*r is Node);
                assert(y.height() == r.height() + 1);
                if y.bf() == 1 {
                    let inner = Shape::Node(l, i, Box::new(y.left()));
                    assert(inner.height() == l.height() + 1);
                    assert(height_balanced(inner));
                    assert(rot_left(x) == Shape::Node(Box::new(inner), y.idx(), Box::new(y.right())));
                    assert(height_balanced(rot_left(x)));
                } else {
                    let c = y.left();
                    assert(c.height() == l.height() + 1);
                    assert(c is Node);
                    let a = Shape::Node(l, i, Box::new(c.left()));
                    let b = Shape::Node(Box::new(c.right()), y.idx(), Box::new(y.right()));
                    assert(a.height() == l.height() + 1);
                    assert(b.height() == l.height() + 1);
                    assert(height_balanced(a));
                    assert(height_balanced(b));
                    assert(rot_rightleft(x) == Shape::Node(Box::new(a), c.idx(), Box::new(b)));
                    assert(height_balanced(rot_rightleft(x)));
                }
            }
        }
    }
}

/// Inserting into the slot shape and renaming each slot by its new position
/// gives the insertion into the layout.
proof fn lemma_remap_insert<T: AvlTreeItem>(t: Shape, n: nat, items: Seq<T>, k: T::Key, p: Seq<int>, p2: Seq<int>, q: nat)
    requires
        height_balanced(t),
        forall|j: nat| #[trigger] t.inorder().contains(j) ==> {
            &&& j < p.len()
            &&& j < p2.len()
            &&& j < items.len()
            &&& p[j as int] >= 0
            &&& p2[j as int] == p[j as int] + if p[j as int] >= q { 1int } else { 0int }
            &&& (key_lt(k, items[j as int].spec_key()) <==> q <= p[j as int])
        },
        n < p2.len(),
        p2[n as int] == q,
    ensures
        remap(slot_insert(t, n, items, k), p2) == layout_insert(remap(t, p), q),
    decreases t,
{
    if let Shape::Node(l, i, r) = t {
        lemma_inorder_contains(t);
        assert(t.inorder().contains(i));
        if key_lt(k, items[i as int].spec_key()) {
            let x = Shape::Node(Box::new(slot_insert(*l, n, items, k)), i, r);
            lemma_slot_insert_avl(*l, n, items, k);
            lemma_remap_fixup(x, p2);
            lemma_remap_insert(*l, n, items, k, p, p2, q);
            lemma_remap_shift(*r, p, p2, q);
            assert(q <= p[i as int]);
            assert(slot_insert(t, n, items, k) == insert_fixup(x));
            assert(remap(x, p2) == Shape::Node(
                Box::new(layout_insert(remap(*l, p), q)),
                (p[i as int] as nat + 1) as nat,
                Box::new(shift_labels(remap(*r, p), q)),
            ));
            assert(remap(t, p) == Shape::Node(Box::new(remap(*l, p)), p[i as int] as nat, Box::new(remap(*r, p))));
        } else {
            let x = Shape::Node(l, i, Box::new(slot_insert(*r, n, items, k)));
            lemma_slot_insert_avl(*r, n, items, k);
            lemma_remap_fixup(x, p2);
            lemma_remap_insert(*r, n, items, k, p, p2, q);
            lemma_remap_shift(*l, p, p2, q);
            assert(q > p[i as int]);
            assert(slot_insert(t, n, items, k) == insert_fixup(x));
            assert(remap(x, p2) == Shape::Node(
                Box::new(shift_labels(remap(*l, p), q)),
                p[i as int] as nat,
                Box::new(layout_insert(remap(*r, p), q)),
            ));
            assert(remap(t, p) == Shape::Node(Box::new(remap(*l, p)), p[i as int] as nat, Box::new(remap(*r, p))));
        }
    }
}

/// In a tree without repeated slots, the root is in neither subtree, the
/// subtrees share no slot, and neither repeats a slot.
pub proof fn lemma_nodup_node(t: Shape)
    requires
        t.inorder().no_duplicates(),
    ensures
        t matches Shape::Node(l, i, r) ==> {
            &&& !l.inorder().contains(i)
            &&& !r.inorder().contains(i)
            &&& l.inorder().no_duplicates()
            &&& r.inorder().no_duplicates()
            &&& forall|j: nat| #[trigger] l.inorder().contains(j) ==> !r.inorder().contains(j)
        },
{
    if let Shape::Node(l, i, r) = t {
        let s = t.inorder();
        let ll = l.inorder().len();
        assert(s[ll as int] == i);
        if l.inorder().contains(i) {
            let k = choose|k: int| 0 <= k < ll && l.inorder()[k] == i;
            assert(s[k] == i);
        }
        if r.inorder().contains(i) {
            let k = choose|k: int| 0 <= k < r.inorder().len() && r.inorder()[k] == i;
            assert(s[ll + 1 + k] == i);
        }
        assert forall|a: int, b: int|
            0 <= a < b < l.inorder().len() implies l.inorder()[a] != l.inorder()[b] by {
            assert(s[a] == l.inorder()[a]);
            assert(s[b] == l.inorder()[b]);
        }
        assert forall|a: int, b: int|
            0 <= a < b < r.inorder().len() implies r.inorder()[a] != r.inorder()[b] by {
            assert(s[ll + 1 + a] == r.inorder()[a]);
            assert(s[ll + 1 + b] == r.inorder()[b]);
        }
        assert forall|j: nat| #[trigger] l.inorder().contains(j) implies !r.inorder().contains(j) by {
            let k1 = choose|k: int| 0 <= k < ll && l.inorder()[k] == j;
            if r.inorder().contains(j) {
                let k2 = choose|k: int| 0 <= k < r.inorder().len() && r.inorder()[k] == j;
                assert(s[k1] == j);
                assert(s[ll + 1 + k2] == j);
            }
        }
    }
}


/// Slots in order and heights of the nodes of a single rotation.
pub proof fn lemma_single_rotation_shape(t: Shape)
    ensures
        t is Node && t.right() is Node ==> {
            &&& rot_left(t).inorder() == t.inorder()
            &&& rot_left(t).left().height() == 1 + max_nat(t.left().height(), t.right().left().height())
            &&& rot_left(t).height() == 1 + max_nat(rot_left(t).left().height(), t.right().right().height())
            &&& t.right().height() == 1 + max_nat(t.right().left().height(), t.right().right().height())
            &&& t.height() == 1 + max_nat(t.left().height(), t.right().height())
        },
        t is Node && t.left() is Node ==> {
            &&& rot_right(t).inorder() == t.inorder()
            &&& rot_right(t).right().height() == 1 + max_nat(t.left().right().height(), t.right().height())
            &&& rot_right(t).height() == 1 + max_nat(t.left().left().height(), rot_right(t).right().height())
            &&& t.left().height() == 1 + max_nat(t.left().left().height(), t.left().right().height())
            &&& t.height() == 1 + max_nat(t.left().height(), t.right().height())
        },
{
    if let Shape::Node(a, n, r) = t {
        if let Shape::Node(b, m, c) = *r {
            let x = rot_left(t);
            assert(x.left().inorder() == a.inorder() + seq![n] + b.inorder());
            assert(x.inorder() == x.left().inorder() + seq![m] + c.inorder());
            assert(r.inorder() == b.inorder() + seq![m] + c.inorder());
            assert(x.inorder() =~= t.inorder());
        }
        if let Shape::Node(b, m, c) = *a {
            let x = rot_right(t);
            assert(x.right().inorder() == c.inorder() + seq![n] + r.inorder());
            assert(x.inorder() == b.inorder() + seq![m] + x.right().inorder());
            assert(a.inorder() == b.inorder() + seq![m] + c.inorder());
            assert(x.inorder() =~= t.inorder());
        }
    }
}

/// Slots in order and heights of the nodes of a double rotation.
pub proof fn lemma_double_rotation_shape(t: Shape)
    ensures
        t is Node && t.left() is Node && t.left().right() is Node ==> {
            let cl = t.left();
            let g = cl.right();
            &&& rot_leftright(t).inorder() == t.inorder()
            &&& rot_leftright(t).left().height() == 1 + max_nat(cl.left().height(), g.left().height())
            &&& rot_leftright(t).right().height() == 1 + max_nat(g.right().height(), t.right().height())
            &&& rot_leftright(t).height() == 1 + max_nat(rot_leftright(t).left().height(), rot_leftright(t).right().height())
            &&& g.height() == 1 + max_nat(g.left().height(), g.right().height())
            &&& cl.height() == 1 + max_nat(cl.left().height(), g.height())
            &&& t.height() == 1 + max_nat(cl.height(), t.right().height())
        },
        t is Node && t.right() is Node && t.right().left() is Node ==> {
            let cr = t.right();
            let g = cr.left();
            &&& rot_rightleft(t).inorder() == t.inorder()
            &&& rot_rightleft(t).left().height() == 1 + max_nat(t.left().height(), g.left().height())
            &&& rot_rightleft(t).right().height() == 1 + max_nat(g.right().height(), cr.right().height())
            &&& rot_rightleft(t).height() == 1 + max_nat(rot_rightleft(t).left().height(), rot_rightleft(t).right().height())
            &&& g.height() == 1 + max_nat(g.left().height(), g.right().height())
            &&& cr.height() == 1 + max_nat(g.height(), cr.right().height())
            &&& t.height() == 1 + max_nat(t.left().height(), cr.height())
        },
{
    if let Shape::Node(a, n, d) = t {
        if let Shape::Node(a1, m, a2) = *a {
            if let Shape::Node(b1, k, b2) = *a2 {
                let x = rot_leftright(t);
                assert(a2.inorder() == b1.inorder() + seq![k] + b2.inorder());
                assert(a.inorder() == a1.inorder() + seq![m] + a2.inorder());
                assert(x.left().inorder() == a1.inorder() + seq![m] + b1.inorder());
                assert(x.right().inorder() == b2.inorder() + seq![n] + d.inorder());
                assert(x.inorder() == x.left().inorder() + seq![k] + x.right().inorder());
                assert(x.inorder() =~= t.inorder());
            }
        }
        if let Shape::Node(d1, m, d2) = *d {
            if let Shape::Node(b1, k, b2) = *d1 {
                let x = rot_rightleft(t);
                assert(d1.inorder() == b1.inorder() + seq![k] + b2.inorder());
                assert(d.inorder() == d1.inorder() + seq![m] + d2.inorder());
                assert(x.left().inorder() == a.inorder() + seq![n] + b1.inorder());
                assert(x.right().inorder() == b2.inorder() + seq![m] + d2.inorder());
                assert(x.inorder() == x.left().inorder() + seq![k] + x.right().inorder());
                assert(x.inorder() =~= t.inorder());
            }
        }
    }
}

pub open spec fn max_nat(a: nat, b: nat) -> nat {
    if a >= b { a } else { b }
}

/// A left rotation at a node whose right subtree is two taller, and whose right
/// child does not lean left, leaves a balanced subtree with the same slots in order.
pub proof fn lemma_rot_left_ok(t: Shape, b0: Seq<i8>, b1: Seq<i8>)
    requires
        t is Node,
        t.right() is Node,
        t.inorder().no_duplicates(),
        balanced(b0, t.left()),
        balanced(b0, t.right()),
        t.idx() < b0.len(),
        t.bf() == 2,
        t.right().bf() == 0 || t.right().bf() == 1,
        b1 == if t.right().bf() == 1 {
            b0.update(t.idx() as int, 0i8).update(t.right().idx() as int, 0i8)
        } else {
            b0.update(t.idx() as int, 1i8).update(t.right().idx() as int, -1i8)
        },
    ensures
        balanced(b1, rot_left(t)),
        rot_left(t).inorder() == t.inorder(),
        rot_left(t).height() == if t.right().bf() == 1 { t.height() - 1 } else { t.height() as int },
{
    let tr = t.right();
    lemma_single_rotation_shape(t);
    lemma_nodup_node(t);
    lemma_nodup_node(tr);
    lemma_inorder_contains(t);
    lemma_inorder_contains(tr);
    assert(balanced(b0, tr.left()) && balanced(b0, tr.right()));
    lemma_balanced_bounds(b0, t.left());
    lemma_balanced_bounds(b0, tr);
    lemma_balanced_frame(b0, b1, t.left());
    lemma_balanced_frame(b0, b1, tr.left());
    lemma_balanced_frame(b0, b1, tr.right());
    let x = rot_left(t);
    assert(balanced(b1, x.left()));
}

/// Mirror image of `lemma_rot_left_ok`.
pub proof fn lemma_rot_right_ok(t: Shape, b0: Seq<i8>, b1: Seq<i8>)
    requires
        t is Node,
        t.left() is Node,
        t.inorder().no_duplicates(),
        balanced(b0, t.left()),
        balanced(b0, t.right()),
        t.idx() < b0.len(),
        t.bf() == -2,
        t.left().bf() == 0 || t.left().bf() == -1,
        b1 == if t.left().bf() == -1 {
            b0.update(t.idx() as int, 0i8).update(t.left().idx() as int, 0i8)
        } else {
            b0.update(t.idx() as int, -1i8).update(t.left().idx() as int, 1i8)
        },
    ensures
        balanced(b1, rot_right(t)),
        rot_right(t).inorder() == t.inorder(),
        rot_right(t).height() == if t.left().bf() == -1 { t.height() - 1 } else { t.height() as int },
{
    let tl = t.left();
    lemma_single_rotation_shape(t);
    lemma_nodup_node(t);
    lemma_nodup_node(tl);
    lemma_inorder_contains(t);
    lemma_inorder_contains(tl);
    assert(balanced(b0, tl.left()) && balanced(b0, tl.right()));
    lemma_balanced_bounds(b0, t.right());
    lemma_balanced_bounds(b0, tl);
    lemma_balanced_frame(b0, b1, t.right());
    lemma_balanced_frame(b0, b1, tl.left());
    lemma_balanced_frame(b0, b1, tl.right());
    let x = rot_right(t);
    assert(balanced(b1, x.right()));
}

/// A double rotation at a node whose left subtree is two taller and whose left
/// child leans right leaves a balanced subtree, one shorter, with the same slots in order.
pub proof fn lemma_rot_leftright_ok(t: Shape, b0: Seq<i8>, b1: Seq<i8>)
    requires
        t is Node,
        t.left() is Node,
        t.inorder().no_duplicates(),
        balanced(b0, t.left()),
        balanced(b0, t.right()),
        t.idx() < b0.len(),
        t.bf() == -2,
        t.left().bf() == 1,
        ({
            let n = t.idx() as int;
            let c = t.left().idx() as int;
            let g = t.left().right().idx() as int;
            b1 == if b0[g] == 0 {
                b0.update(n, 0i8).update(c, 0i8)
            } else if b0[g] == 1 {
                b0.update(n, 0i8).update(c, -1i8).update(g, 0i8)
            } else {
                b0.update(n, 1i8).update(c, 0i8).update(g, 0i8)
            }
        }),
    ensures
        t.left().right() is Node,
        balanced(b1, rot_leftright(t)),
        rot_leftright(t).inorder() == t.inorder(),
        rot_leftright(t).height() == t.height() - 1,
{
    let tl = t.left();
    let tlr = tl.right();
    assert(balanced(b0, tl.left()) && balanced(b0, tlr));
    assert(tlr is Node);
    assert(balanced(b0, tlr.left()) && balanced(b0, tlr.right()));
    lemma_double_rotation_shape(t);
    lemma_nodup_node(t);
    lemma_nodup_node(tl);
    lemma_nodup_node(tlr);
    lemma_inorder_contains(t);
    lemma_inorder_contains(tl);
    lemma_inorder_contains(tlr);
    lemma_balanced_bounds(b0, t.right());
    lemma_balanced_bounds(b0, tl);
    lemma_balanced_frame(b0, b1, t.right());
    lemma_balanced_frame(b0, b1, tl.left());
    lemma_balanced_frame(b0, b1, tlr.left());
    lemma_balanced_frame(b0, b1, tlr.right());
    let x = rot_leftright(t);
    assert(balanced(b1, x.left()));
    assert(balanced(b1, x.right()));
}

/// Mirror image of `lemma_rot_leftright_ok`.
pub proof fn lemma_rot_rightleft_ok(t: Shape, b0: Seq<i8>, b1: Seq<i8>)
    requires
        t is Node,
        t.right() is Node,
        t.inorder().no_duplicates(),
        balanced(b0, t.left()),
        balanced(b0, t.right()),
        t.idx() < b0.len(),
        t.bf() == 2,
        t.right().bf() == -1,
        ({
            let n = t.idx() as int;
            let c = t.right().idx() as int;
            let g = t.right().left().idx() as int;
            b1 == if b0[g] == 0 {
                b0.update(n, 0i8).update(c, 0i8)
            } else if b0[g] == 1 {
                b0.update(n, -1i8).update(c, 0i8).update(g, 0i8)
            } else {
                b0.update(n, 0i8).update(c, 1i8).update(g, 0i8)
            }
        }),
    ensures
        t.right().left() is Node,
        balanced(b1, rot_rightleft(t)),
        rot_rightleft(t).inorder() == t.inorder(),
        rot_rightleft(t).height() == t.height() - 1,
{
    let tr = t.right();
    let trl = tr.left();
    assert(balanced(b0, tr.right()) && balanced(b0, trl));
    assert(trl is Node);
    assert(balanced(b0, trl.left()) && balanced(b0, trl.right()));
    lemma_double_rotation_shape(t);
    lemma_nodup_node(t);
    lemma_nodup_node(tr);
    lemma_nodup_node(trl);
    lemma_inorder_contains(t);
    lemma_inorder_contains(tr);
    lemma_inorder_contains(trl);
    lemma_balanced_bounds(b0, t.left());
    lemma_balanced_bounds(b0, tr);
    lemma_balanced_frame(b0, b1, t.left());
    lemma_balanced_frame(b0, b1, tr.right());
    lemma_balanced_frame(b0, b1, trl.left());
    lemma_balanced_frame(b0, b1, trl.right());
    let x = rot_rightleft(t);
    assert(balanced(b1, x.left()));
    assert(balanced(b1, x.right()));
}


/// Items at `s` order strictly before `k`.
pub open spec fn all_below<T: AvlTreeItem>(items: Seq<T>, s: Seq<nat>, k: T::Key) -> bool {
    forall|j: int| 0 <= j < s.len() ==> key_lt(#[trigger] items[s[j] as int].spec_key(), k)
}

/// Items at `s` order strictly after `k`.
pub open spec fn all_above<T: AvlTreeItem>(items: Seq<T>, s: Seq<nat>, k: T::Key) -> bool {
    forall|j: int| 0 <= j < s.len() ==> key_lt(k, #[trigger] items[s[j] as int].spec_key())
}

/// Sorted slots hold no slot twice.
pub proof fn lemma_sorted_nodup<T: AvlTreeItem>(items: Seq<T>, s: Seq<nat>)
    requires
        lawful_order::<T::Key>(),
        slots_sorted(items, s),
    ensures
        s.no_duplicates(),
{
    lemma_key_order::<T::Key>();
    assert forall|a: int, b: int| 0 <= a < b < s.len() implies s[a] != s[b] by {
        if s[a] == s[b] {
            assert(key_lt(items[s[a] as int].spec_key(), items[s[b] as int].spec_key()));
        }
    }
}

/// The items at sorted slots have strictly increasing keys.
pub proof fn lemma_sorted_view<T: AvlTreeItem>(items: Seq<T>, s: Seq<nat>)
    requires
        slots_sorted(items, s),
    ensures
        keys_sorted(items_at(items, s)),
        items_at(items, s).len() == s.len(),
{
    let v = items_at(items, s);
    assert forall|a: int, b: int| 0 <= a < b < v.len() implies key_lt(v[a].spec_key(), v[b].spec_key()) by {
        assert(v[a] == items[s[a] as int]);
        assert(v[b] == items[s[b] as int]);
    }
}

/// In a sequence whose first `q` keys order before `k` and whose others do not,
/// `q` items order before `k`.
pub proof fn lemma_rank_split<T: AvlTreeItem>(s: Seq<T>, k: T::Key, q: int)
    requires
        0 <= q <= s.len(),
        forall|j: int| 0 <= j < q ==> key_lt(#[trigger] s[j].spec_key(), k),
        forall|j: int| q <= j < s.len() ==> !key_lt(#[trigger] s[j].spec_key(), k),
    ensures
        rank(s, k) == q,
    decreases s.len(),
{
    if s.len() > 0 {
        let t = s.drop_last();
        if q == s.len() {
            assert(key_lt(s[s.len() - 1].spec_key(), k));
            lemma_rank_split(t, k, q - 1);
        } else {
            assert(!key_lt(s[s.len() - 1].spec_key(), k));
            lemma_rank_split(t, k, q);
        }
    }
}


/// Popping the first item of `s` over and over hands out `s[0]`, `s[1]`, ...
/// in turn: after `i` pops the items are `s.skip(i)`, whose first is `s[i]`;
/// after `s.len()` pops none is left. For items in strictly increasing key
/// order (as a tree's items are, `lemma_view_sorted`) each remainder is again
/// in that order and the keys handed out strictly increase.
pub proof fn lemma_pop_sequence<T: AvlTreeItem>(s: Seq<T>)
    requires
        keys_sorted(s),
    ensures
        forall|i: int| 0 <= i < s.len() ==> {
            &&& #[trigger] s.skip(i).len() > 0
            &&& s.skip(i)[0] == s[i]
            &&& s.skip(i).drop_first() == s.skip(i + 1)
            &&& keys_sorted(s.skip(i))
        },
        s.skip(s.len() as int).len() == 0,
        forall|i: int, j: int| 0 <= i < j < s.len() ==> key_lt(#[trigger] s[i].spec_key(), #[trigger] s[j].spec_key()),
{
    assert forall|i: int| 0 <= i < s.len() implies {
        &&& #[trigger] s.skip(i).len() > 0
        &&& s.skip(i)[0] == s[i]
        &&& s.skip(i).drop_first() == s.skip(i + 1)
        &&& keys_sorted(s.skip(i))
    } by {
        assert(s.skip(i).drop_first() =~= s.skip(i + 1));
        let t = s.skip(i);
        assert forall|a: int, b: int| 0 <= a < b < t.len() implies key_lt(t[a].spec_key(), t[b].spec_key()) by {
            assert(t[a] == s[a + i] && t[b] == s[b + i]);
        }
    }
}

/// In items in strictly increasing key order, the items before position
/// `rank(s, k)` are those whose keys order before `k`.
pub proof fn lemma_rank_sorted<T: AvlTreeItem>(s: Seq<T>, k: T::Key)
    requires
        lawful_order::<T::Key>(),
        keys_sorted(s),
    ensures
        rank(s, k) <= s.len(),
        forall|j: int| 0 <= j < rank(s, k) ==> key_lt(#[trigger] s[j].spec_key(), k),
        forall|j: int| rank(s, k) <= j < s.len() ==> !key_lt(#[trigger] s[j].spec_key(), k),
    decreases s.len(),
{
    lemma_key_order::<T::Key>();
    if s.len() > 0 {
        let t = s.drop_last();
        assert forall|a: int, b: int| 0 <= a < b < t.len() implies key_lt(t[a].spec_key(), t[b].spec_key()) by {
            assert(t[a] == s[a] && t[b] == s[b]);
        }
        lemma_rank_sorted(t, k);
        let last = s.len() - 1;
        if key_lt(s[last].spec_key(), k) {
            if rank(t, k) < t.len() {
                let j = rank(t, k) as int;
                assert(t[j] == s[j]);
                assert(key_lt(s[j].spec_key(), s[last].spec_key()));
            }
            assert(rank(t, k) == t.len());
            assert forall|j: int| 0 <= j < rank(s, k) implies key_lt(#[trigger] s[j].spec_key(), k) by {
                if j < last {
                    assert(key_lt(s[j].spec_key(), s[last].spec_key()));
                }
            }
        } else {
            assert forall|j: int| 0 <= j < rank(s, k) implies key_lt(#[trigger] s[j].spec_key(), k) by {
                assert(t[j] == s[j]);
            }
            assert forall|j: int| rank(s, k) <= j < s.len() implies !key_lt(#[trigger] s[j].spec_key(), k) by {
                if j < last {
                    assert(t[j] == s[j]);
                }
            }
        }
    }
}

/// Inserting an item whose key no item holds, and then deleting its key, finds
/// the inserted item and gives back the items as they were.
pub proof fn lemma_insert_then_delete<T: AvlTreeItem>(s: Seq<T>, item: T)
    requires
        lawful_order::<T::Key>(),
        keys_sorted(s),
        !(rank(s, item.spec_key()) < s.len() && key_equiv(s[rank(s, item.spec_key()) as int].spec_key(), item.spec_key())),
    ensures
        ({
            let k = item.spec_key();
            let s2 = s.insert(rank(s, k) as int, item);
            let p2 = rank(s2, k) as int;
            &&& p2 < s2.len()
            &&& key_equiv(s2[p2].spec_key(), k)
            &&& s2[p2] == item
            &&& s2.remove(p2) == s
        }),
{
    lemma_key_order::<T::Key>();
    let k = item.spec_key();
    let p = rank(s, k) as int;
    let s2 = s.insert(p, item);
    lemma_rank_sorted(s, k);
    assert forall|j: int| 0 <= j < p implies key_lt(#[trigger] s2[j].spec_key(), k) by {
        assert(s2[j] == s[j]);
    }
    assert forall|j: int| p <= j < s2.len() implies !key_lt(#[trigger] s2[j].spec_key(), k) by {
        if j > p {
            assert(s2[j] == s[j - 1]);
        }
    }
    lemma_rank_split(s2, k, p);
    assert(s2.remove(p) =~= s);
}

/// Deleting the item whose key equals `k` and inserting that item again gives
/// back the items as they were: the insertion finds no item with its key and
/// puts it where it was.
pub proof fn lemma_delete_then_insert<T: AvlTreeItem>(s: Seq<T>, k: T::Key)
    requires
        lawful_order::<T::Key>(),
        keys_sorted(s),
        rank(s, k) < s.len(),
        key_equiv(s[rank(s, k) as int].spec_key(), k),
    ensures
        ({
            let p = rank(s, k) as int;
            let x = s[p];
            let s2 = s.remove(p);
            let q = rank(s2, x.spec_key()) as int;
            &&& !(q < s2.len() && key_equiv(s2[q].spec_key(), x.spec_key()))
            &&& s2.insert(q, x) == s
        }),
{
    lemma_key_order::<T::Key>();
    let p = rank(s, k) as int;
    let x = s[p];
    let kx = x.spec_key();
    let s2 = s.remove(p);
    assert forall|j: int| 0 <= j < p implies key_lt(#[trigger] s2[j].spec_key(), kx) by {
        assert(s2[j] == s[j]);
    }
    assert forall|j: int| p <= j < s2.len() implies !key_lt(#[trigger] s2[j].spec_key(), kx) by {
        assert(s2[j] == s[j + 1]);
        assert(key_lt(kx, s[j + 1].spec_key()));
    }
    lemma_rank_split(s2, kx, p);
    if p < s2.len() {
        assert(s2[p] == s[p + 1]);
        assert(key_lt(kx, s2[p].spec_key()));
    }
    assert(s2.insert(p, x) =~= s);
}

/// Placing slot `n`, holding `item`, at position `q` of the live slots places
/// `item` at position `q` of the items.
pub proof fn lemma_view_insert<T>(items: Seq<T>, items2: Seq<T>, w: Seq<nat>, q: int, n: nat, item: T)
    requires
        0 <= q <= w.len(),
        forall|j: int| 0 <= j < w.len() ==> w[j] < items.len() && w[j] < items2.len() && #[trigger] items2[w[j] as int] == items[w[j] as int],
        n < items2.len(),
        items2[n as int] == item,
    ensures
        items_at(items2, w.insert(q, n)) == items_at(items, w).insert(q, item),
{
    let a = items_at(items2, w.insert(q, n));
    let b = items_at(items, w).insert(q, item);
    assert forall|j: int| 0 <= j < a.len() implies a[j] == b[j] by {
        if j < q {
            assert(w.insert(q, n)[j] == w[j]);
        } else if j > q {
            assert(w.insert(q, n)[j] == w[j - 1]);
        }
    }
    assert(a =~= b);
}

/// Inserting a slot whose key lies between the keys before and after it keeps the slots sorted.
pub proof fn lemma_sorted_insert<T: AvlTreeItem>(items: Seq<T>, items2: Seq<T>, w: Seq<nat>, q: int, n: nat)
    requires
        lawful_order::<T::Key>(),
        0 <= q <= w.len(),
        slots_sorted(items, w),
        forall|j: int| 0 <= j < w.len() ==> w[j] < items2.len() && #[trigger] items2[w[j] as int] == items[w[j] as int],
        n < items2.len(),
        all_below(items, w.take(q), items2[n as int].spec_key()),
        all_above(items, w.skip(q), items2[n as int].spec_key()),
    ensures
        slots_sorted(items2, w.insert(q, n)),
{
    let w2 = w.insert(q, n);
    let k = items2[n as int].spec_key();
    assert forall|a: int, b: int| 0 <= a < b < w2.len() implies key_lt(
        #[trigger] items2[w2[a] as int].spec_key(),
        #[trigger] items2[w2[b] as int].spec_key(),
    ) by {
        if a < q {
            assert(w2[a] == w[a]);
            assert(w.take(q)[a] == w[a]);
            if b < q {
                assert(w2[b] == w[b]);
            } else if b == q {
                assert(w2[b] == n);
            } else {
                assert(w2[b] == w[b - 1]);
            }
        } else if a == q {
            assert(w2[a] == n);
            assert(w2[b] == w[b - 1]);
            assert(w.skip(q)[b - 1 - q] == w[b - 1]);
        } else {
            assert(w2[a] == w[a - 1]);
            assert(w2[b] == w[b - 1]);
        }
    }
    assert forall|j: int| 0 <= j < w2.len() implies #[trigger] w2[j] < items2.len() by {
        if j < q {
            assert(w2[j] == w[j]);
            assert(items2[w[j] as int] == items[w[j] as int]);
        } else if j == q {
            assert(w2[j] == n);
        } else {
            assert(w2[j] == w[j - 1]);
            assert(items2[w[j - 1] as int] == items[w[j - 1] as int]);
        }
    }
}


/// Going down to the left child of `cur` keeps the items after the path ordered after `k`.
pub proof fn lemma_descend_left<T: AvlTreeItem>(items: Seq<T>, pre: Seq<nat>, cur: Shape, suf: Seq<nat>, k: T::Key)
    requires
        lawful_order::<T::Key>(),
        slots_sorted(items, pre + cur.inorder() + suf),
        cur is Node,
        key_lt(k, items[cur.idx() as int].spec_key()),
        all_above(items, suf, k),
    ensures
        all_above(items, seq![cur.idx()] + cur.right().inorder() + suf, k),
{
    lemma_key_order::<T::Key>();
    let w = pre + cur.inorder() + suf;
    let s = seq![cur.idx()] + cur.right().inorder() + suf;
    let pos = (pre.len() + cur.left().inorder().len()) as int;
    assert(cur.inorder() == cur.left().inorder() + seq![cur.idx()] + cur.right().inorder());
    assert(w[pos] == cur.idx());
    assert forall|j: int| 0 <= j < s.len() implies key_lt(k, #[trigger] items[s[j] as int].spec_key()) by {
        if j == 0 {
        } else if j < 1 + cur.right().inorder().len() {
            assert(s[j] == w[pos + j]);
            assert(key_lt(items[w[pos] as int].spec_key(), items[w[pos + j] as int].spec_key()));
        } else {
            assert(s[j] == suf[j - 1 - cur.right().inorder().len()]);
        }
    }
}

/// Going down to the right child of `cur` keeps the items before the path ordered before `k`.
pub proof fn lemma_descend_right<T: AvlTreeItem>(items: Seq<T>, pre: Seq<nat>, cur: Shape, suf: Seq<nat>, k: T::Key)
    requires
        lawful_order::<T::Key>(),
        slots_sorted(items, pre + cur.inorder() + suf),
        cur is Node,
        key_lt(items[cur.idx() as int].spec_key(), k),
        all_below(items, pre, k),
    ensures
        all_below(items, pre + cur.left().inorder() + seq![cur.idx()], k),
{
    lemma_key_order::<T::Key>();
    let w = pre + cur.inorder() + suf;
    let s = pre + cur.left().inorder() + seq![cur.idx()];
    let pos = (pre.len() + cur.left().inorder().len()) as int;
    assert(cur.inorder() == cur.left().inorder() + seq![cur.idx()] + cur.right().inorder());
    assert(w[pos] == cur.idx());
    assert forall|j: int| 0 <= j < s.len() implies key_lt(#[trigger] items[s[j] as int].spec_key(), k) by {
        if j < pre.len() {
            assert(s[j] == pre[j]);
        } else if j < pos {
            assert(s[j] == w[j]);
            assert(key_lt(items[w[j] as int].spec_key(), items[w[pos] as int].spec_key()));
        } else {
            assert(s[j] == cur.idx());
        }
    }
}

/// At a node whose key compares equal to `k`, the node's position in order is
/// the number of items before `k`.
pub proof fn lemma_found<T: AvlTreeItem>(items: Seq<T>, pre: Seq<nat>, cur: Shape, suf: Seq<nat>, k: T::Key)
    requires
        lawful_order::<T::Key>(),
        slots_sorted(items, pre + cur.inorder() + suf),
        cur is Node,
        key_equiv(items[cur.idx() as int].spec_key(), k),
        all_below(items, pre, k),
        all_above(items, suf, k),
    ensures
        ({
            let w = pre + cur.inorder() + suf;
            let pos = (pre.len() + cur.left().inorder().len()) as int;
            &&& w[pos] == cur.idx()
            &&& forall|j: int| 0 <= j < pos ==> key_lt(#[trigger] items[w[j] as int].spec_key(), k)
            &&& forall|j: int| pos < j < w.len() ==> key_lt(k, #[trigger] items[w[j] as int].spec_key())
            &&& rank(items_at(items, w), k) == pos
        }),
{
    lemma_key_order::<T::Key>();
    let w = pre + cur.inorder() + suf;
    let pos = (pre.len() + cur.left().inorder().len()) as int;
    let ki = items[cur.idx() as int].spec_key();
    assert(cur.inorder() == cur.left().inorder() + seq![cur.idx()] + cur.right().inorder());
    assert(w[pos] == cur.idx());
    assert forall|j: int| 0 <= j < pos implies key_lt(#[trigger] items[w[j] as int].spec_key(), k) by {
        if j < pre.len() {
            assert(w[j] == pre[j]);
        } else {
            assert(key_lt(items[w[j] as int].spec_key(), items[w[pos] as int].spec_key()));
        }
    }
    assert forall|j: int| pos < j < w.len() implies key_lt(k, #[trigger] items[w[j] as int].spec_key()) by {
        if j < pos + 1 + cur.right().inorder().len() {
            assert(key_lt(items[w[pos] as int].spec_key(), items[w[j] as int].spec_key()));
            assert(key_equiv(k, ki));
        } else {
            assert(w[j] == suf[j - pos - 1 - cur.right().inorder().len()]);
        }
    }
    let v = items_at(items, w);
    assert forall|j: int| 0 <= j < pos implies key_lt(#[trigger] v[j].spec_key(), k) by {
        assert(v[j] == items[w[j] as int]);
    }
    assert forall|j: int| pos <= j < v.len() implies !key_lt(#[trigger] v[j].spec_key(), k) by {
        assert(v[j] == items[w[j] as int]);
        if j > pos {
            assert(key_lt(k, items[w[j] as int].spec_key()));
        }
    }
    lemma_rank_split(v, k, pos);
}

/// Replacing the item at sorted position `pos` by one with an equal key keeps the slots sorted.
pub proof fn lemma_sorted_replace<T: AvlTreeItem>(items: Seq<T>, w: Seq<nat>, pos: int, item: T)
    requires
        lawful_order::<T::Key>(),
        slots_sorted(items, w),
        w.no_duplicates(),
        0 <= pos < w.len(),
        key_equiv(items[w[pos] as int].spec_key(), item.spec_key()),
    ensures
        slots_sorted(items.update(w[pos] as int, item), w),
        items_at(items.update(w[pos] as int, item), w) == items_at(items, w).update(pos, item),
{
    lemma_key_order::<T::Key>();
    let items2 = items.update(w[pos] as int, item);
    let k = item.spec_key();
    assert forall|a: int, b: int| 0 <= a < b < w.len() implies key_lt(
        #[trigger] items2[w[a] as int].spec_key(),
        #[trigger] items2[w[b] as int].spec_key(),
    ) by {
        assert(key_lt(items[w[a] as int].spec_key(), items[w[b] as int].spec_key()));
        if a == pos {
            assert(w[b] != w[pos]);
            assert(key_equiv(k, items[w[pos] as int].spec_key()));
        } else if b == pos {
            assert(w[a] != w[pos]);
        } else {
            assert(w[a] != w[pos]);
            assert(w[b] != w[pos]);
        }
    }
    let v1 = items_at(items2, w);
    let v2 = items_at(items, w).update(pos, item);
    assert forall|j: int| 0 <= j < w.len() implies v1[j] == v2[j] by {
        if j != pos {
            assert(w[j] != w[pos]);
        }
    }
    assert(v1 =~= v2);
}


/// Dropping position `p` of slots without duplicates leaves slots without
/// duplicates: all the others.
pub proof fn lemma_remove_nodup(w: Seq<nat>, p: int)
    requires
        w.no_duplicates(),
        0 <= p < w.len(),
    ensures
        w.remove(p).no_duplicates(),
        w.remove(p).len() + 1 == w.len(),
        forall|j: nat| #[trigger] w.remove(p).contains(j) <==> (w.contains(j) && j != w[p]),
{
    let w2 = w.remove(p);
    assert forall|a: int| 0 <= a < w2.len() implies #[trigger] w2[a] == if a < p { w[a] } else { w[a + 1] } by {}
    assert forall|a: int, b: int| 0 <= a < b < w2.len() implies w2[a] != w2[b] by {
        let a1 = if a < p { a } else { a + 1 };
        let b1 = if b < p { b } else { b + 1 };
        assert(w2[a] == w[a1]);
        assert(w2[b] == w[b1]);
    }
    assert forall|j: nat| #[trigger] w2.contains(j) <==> (w.contains(j) && j != w[p]) by {
        if w2.contains(j) {
            let m = choose|m: int| 0 <= m < w2.len() && w2[m] == j;
            let m1 = if m < p { m } else { m + 1 };
            assert(w[m1] == j);
        }
        if w.contains(j) && j != w[p] {
            let m = choose|m: int| 0 <= m < w.len() && w[m] == j;
            if m < p {
                assert(w2[m] == j);
            } else {
                assert(m != p);
                assert(w2[m - 1] == j);
            }
        }
    }
}

/// Dropping the slot at position `p` from sorted live slots, whatever its item
/// becomes, keeps the others sorted and drops the item at `p` from the view.
pub proof fn lemma_sorted_remove<T: AvlTreeItem>(items: Seq<T>, w: Seq<nat>, p: int, x: T)
    requires
        slots_sorted(items, w),
        w.no_duplicates(),
        0 <= p < w.len(),
    ensures
        slots_sorted(items.update(w[p] as int, x), w.remove(p)),
        items_at(items.update(w[p] as int, x), w.remove(p)) == items_at(items, w).remove(p),
{
    let items2 = items.update(w[p] as int, x);
    let w2 = w.remove(p);
    assert forall|a: int| 0 <= a < w2.len() implies #[trigger] w2[a] == if a < p { w[a] } else { w[a + 1] } by {}
    assert forall|a: int| 0 <= a < w2.len() implies #[trigger] items2[w2[a] as int] == items[w2[a] as int] by {
        let a1 = if a < p { a } else { a + 1 };
        assert(w2[a] == w[a1]);
        assert(a1 != p);
    }
    assert forall|a: int, b: int| 0 <= a < b < w2.len() implies key_lt(
        #[trigger] items2[w2[a] as int].spec_key(),
        #[trigger] items2[w2[b] as int].spec_key(),
    ) by {
        let a1 = if a < p { a } else { a + 1 };
        let b1 = if b < p { b } else { b + 1 };
        assert(w2[a] == w[a1]);
        assert(w2[b] == w[b1]);
        assert(items2[w2[a] as int] == items[w2[a] as int]);
        assert(items2[w2[b] as int] == items[w2[b] as int]);
        assert(key_lt(items[w[a1] as int].spec_key(), items[w[b1] as int].spec_key()));
    }
    assert forall|k: int| 0 <= k < w2.len() implies #[trigger] w2[k] < items2.len() by {
        let k1 = if k < p { k } else { k + 1 };
        assert(w2[k] == w[k1]);
    }
    let v1 = items_at(items2, w2);
    let v2 = items_at(items, w).remove(p);
    assert forall|j: int| 0 <= j < v1.len() implies v1[j] == v2[j] by {
        let j1 = if j < p { j } else { j + 1 };
        assert(w2[j] == w[j1]);
        assert(items2[w2[j] as int] == items[w2[j] as int]);
    }
    assert(v1 =~= v2);
}

/// Where a search for `k` ends below `cur`, at an absent child on the side of
/// `k`, no item holds a key equal to `k`, and the position there is the rank of `k`.
pub proof fn lemma_absent<T: AvlTreeItem>(items: Seq<T>, pre: Seq<nat>, cur: Shape, suf: Seq<nat>, k: T::Key, left: bool)
    requires
        lawful_order::<T::Key>(),
        slots_sorted(items, pre + cur.inorder() + suf),
        cur is Node,
        left ==> cur.left() is Leaf && key_lt(k, items[cur.idx() as int].spec_key()),
        !left ==> cur.right() is Leaf && key_lt(items[cur.idx() as int].spec_key(), k),
        all_below(items, pre, k),
        all_above(items, suf, k),
    ensures
        ({
            let w = pre + cur.inorder() + suf;
            let v = items_at(items, w);
            let q = if left { pre.len() as int } else { (pre.len() + cur.left().inorder().len() + 1) as int };
            &&& rank(v, k) == q
            &&& !(q < v.len() && key_equiv(v[q].spec_key(), k))
        }),
{
    lemma_key_order::<T::Key>();
    let w = pre + cur.inorder() + suf;
    let v = items_at(items, w);
    let pos = (pre.len() + cur.left().inorder().len()) as int;
    let q = if left { pre.len() as int } else { pos + 1 };
    let kc = items[cur.idx() as int].spec_key();
    assert(cur.inorder() == cur.left().inorder() + seq![cur.idx()] + cur.right().inorder());
    assert(w[pos] == cur.idx());
    assert forall|j: int| 0 <= j < q implies key_lt(#[trigger] v[j].spec_key(), k) by {
        assert(v[j] == items[w[j] as int]);
        if j < pre.len() {
            assert(w[j] == pre[j]);
        } else if j < pos {
            assert(key_lt(items[w[j] as int].spec_key(), kc));
        }
    }
    assert forall|j: int| q <= j < v.len() implies key_lt(k, #[trigger] v[j].spec_key()) by {
        assert(v[j] == items[w[j] as int]);
        if left {
            if j > pos {
                assert(key_lt(kc, items[w[j] as int].spec_key()));
            }
        } else {
            assert(w[j] == suf[j - pos - 1]);
        }
    }
    assert forall|j: int| q <= j < v.len() implies !key_lt(#[trigger] v[j].spec_key(), k) by {
        assert(key_lt(k, v[j].spec_key()));
        if key_lt(v[j].spec_key(), k) {
            assert(key_lt(k, k));
        }
    }
    lemma_rank_split(v, k, q);
    if q < v.len() {
        assert(key_lt(k, v[q].spec_key()));
    }
}

/// The state after a compound deletion whose successor is the right child of the deleted node.
#[verifier::rlimit(60)]
proof fn lemma_direct_facts<I: Int>(
    cl0: Seq<I>,
    cr0: Seq<I>,
    b0: Seq<i8>,
    cl1: Seq<I>,
    cr1: Seq<I>,
    clf: Seq<I>,
    crf: Seq<I>,
    bff: Seq<i8>,
    fs: Seq<Frame>,
    dt: Shape,
)
    requires
        dt is Node,
        dt.left() is Node,
        dt.right() is Node,
        dt.right().left() is Leaf,
        links(cl0, cr0, dt),
        balanced(b0, dt),
        path_balanced(b0, fs),
        fs.len() > 0 ==> fs.last().old_h == dt.height(),
        plug(fs, dt).inorder().no_duplicates(),
        cl0.len() == cr0.len() && cr0.len() == b0.len(),
        cl1.len() == cl0.len() && cr1.len() == cl0.len(),
        unchanged_outside(cl0, cl1, path_slots(fs)),
        unchanged_outside(cr0, cr1, path_slots(fs)),
        path_links(cl1, cr1, fs, dt.right().idx() as int),
        clf == cl1.update(dt.right().idx() as int, cl1[dt.idx() as int]),
        crf == cr1,
        bff == b0.update(dt.right().idx() as int, (b0[dt.idx() as int] - 1) as i8),
    ensures
        ({
            let tp = Shape::Node(Box::new(dt.left()), dt.right().idx(), Box::new(dt.right().right()));
            &&& path_links(clf, crf, fs, tp.idx() as int)
            &&& links(clf, crf, tp)
            &&& path_balanced(bff, fs)
            &&& balanced(bff, tp.left())
            &&& balanced(bff, tp.right())
            &&& tp.idx() < bff.len()
            &&& bff[tp.idx() as int] == tp.bf()
            &&& delete_shrunk(tp, dt.height())
            &&& plug(fs, tp).inorder() == prefix(fs) + dt.left().inorder() + dt.right().inorder() + suffix(fs)
        }),
{
    let ld = dt.left();
    let rd = dt.right();
    let rs = rd.right();
    let sidx = rd.idx();
    let d = dt.idx();
    let tp = Shape::Node(Box::new(ld), sidx, Box::new(rs));
    lemma_plug_disjoint(fs, dt);
    lemma_plug_inorder(fs, dt);
    lemma_plug_inorder(fs, tp);
    lemma_inorder_contains(dt);
    lemma_inorder_contains(rd);
    lemma_nodup_node(dt);
    lemma_nodup_node(rd);
    lemma_links_bounds(cl0, cr0, dt);
    lemma_balanced_bounds(b0, dt);
    assert(links(cl0, cr0, ld) && links(cl0, cr0, rd) && links(cl0, cr0, rs));
    assert(balanced(b0, ld) && balanced(b0, rd) && balanced(b0, rs));
    let one = seq![sidx];
    assert forall|j: nat| #[trigger] one.contains(j) <==> j == sidx by {
        if one.contains(j) {
            let m = choose|m: int| 0 <= m < 1 && one[m] == j;
        }
        if j == sidx {
            assert(one[0] == sidx);
        }
    }
    // s is no slot of the path above, nor of the subtrees that stay
    assert(!path_slots(fs).contains(sidx));
    assert(!path_slots(fs).contains(d));
    let pw = path_slots(fs) + one;
    assert forall|j: nat| #[trigger] pw.contains(j) <==> (path_slots(fs).contains(j) || j == sidx) by {
        if pw.contains(j) {
            let m = choose|m: int| 0 <= m < pw.len() && pw[m] == j;
            if m < path_slots(fs).len() {
                assert(path_slots(fs)[m] == j);
            } else {
                assert(one[m - path_slots(fs).len()] == j);
            }
        }
        if path_slots(fs).contains(j) {
            let m = choose|m: int| 0 <= m < path_slots(fs).len() && path_slots(fs)[m] == j;
            assert(pw[m] == j);
        }
        if j == sidx {
            assert(pw[path_slots(fs).len() as int] == j);
        }
    }
    // arrays of the subtrees that stay are untouched
    lemma_agree_outside(cl0, clf, path_slots(fs) + one, ld.inorder());
    lemma_agree_outside(cr0, crf, path_slots(fs) + one, ld.inorder());
    lemma_agree_outside(cl0, clf, path_slots(fs) + one, rs.inorder());
    lemma_agree_outside(cr0, crf, path_slots(fs) + one, rs.inorder());
    lemma_links_frame(cl0, cr0, clf, crf, ld);
    lemma_links_frame(cl0, cr0, clf, crf, rs);
    lemma_agree_outside(b0, bff, one, ld.inorder());
    lemma_agree_outside(b0, bff, one, rs.inorder());
    lemma_balanced_frame(b0, bff, ld);
    lemma_balanced_frame(b0, bff, rs);
    lemma_path_links_bounds(cl1, cr1, fs, sidx as int);
    lemma_agree_outside(cl1, clf, one, path_slots(fs));
    lemma_agree_outside(cr1, crf, one, path_slots(fs));
    lemma_path_links_frame(cl1, cr1, clf, crf, fs, sidx as int);
    lemma_agree_outside(b0, bff, one, path_slots(fs));
    lemma_path_balanced_frame(b0, bff, fs);
    assert(links(clf, crf, tp));
    assert(rd.inorder() =~= seq![sidx] + rs.inorder());
    assert(tp.inorder() =~= ld.inorder() + rd.inorder());
}

/// The state after a compound deletion whose successor lies deeper in the right subtree.
#[verifier::rlimit(100)]
#[verifier::spinoff_prover]
proof fn lemma_compound_facts<I: Int>(
    cl0: Seq<I>,
    cr0: Seq<I>,
    b0: Seq<i8>,
    cl1: Seq<I>,
    cr1: Seq<I>,
    clf: Seq<I>,
    crf: Seq<I>,
    bff: Seq<i8>,
    st1: Seq<(I, i8)>,
    succ: Seq<(I, i8)>,
    stf: Seq<(I, i8)>,
    fs: Seq<Frame>,
    dt: Shape,
    gs: Seq<Frame>,
    lm: Shape,
)
    requires
        dt is Node,
        dt.left() is Node,
        dt.right() is Node,
        lm is Node,
        lm.left() is Leaf,
        gs.len() > 0,
        plug(gs, lm) == dt.right(),
        forall|j: int| 0 <= j < gs.len() ==> #[trigger] gs[j].go_left,
        path_links(cl0, cr0, gs, lm.idx() as int),
        path_balanced(b0, gs),
        links(cl0, cr0, lm),
        balanced(b0, lm),
        gs.last().old_h == lm.height(),
        gs[0].idx == dt.right().idx(),
        links(cl0, cr0, dt),
        balanced(b0, dt),
        path_balanced(b0, fs),
        fs.len() > 0 ==> fs.last().old_h == dt.height(),
        plug(fs, dt).inorder().no_duplicates(),
        cl0.len() == cr0.len() && cr0.len() == b0.len(),
        cl1.len() == cl0.len() && cr1.len() == cl0.len(),
        unchanged_outside(cl0, cl1, path_slots(fs)),
        unchanged_outside(cr0, cr1, path_slots(fs)),
        path_links(cl1, cr1, fs, lm.idx() as int),
        clf == cl1.update(lm.idx() as int, cl1[dt.idx() as int]).update(gs.last().idx as int, cr1[lm.idx() as int]),
        crf == cr1.update(lm.idx() as int, cr1[dt.idx() as int]),
        bff == b0.update(lm.idx() as int, b0[dt.idx() as int]).update(
            gs.last().idx as int,
            (b0[gs.last().idx as int] + 1) as i8,
        ),
        stack_matches(st1, fs, lm.idx()),
        succ.len() == gs.len() + 1,
        succ[0].1 == 1i8,
        forall|j: int| 0 <= j < gs.len() ==> (#[trigger] succ[j]).0.value() == gs[j].idx,
        forall|j: int| 1 <= j <= gs.len() ==> (#[trigger] succ[j]).1 == -1i8,
        stf == st1 + succ.take(gs.len() as int),
    ensures
        ({
            let fsl = Frame { idx: lm.idx(), go_left: false, sib: dt.left(), old_h: dt.right().height() };
            let fs2 = fs.push(fsl) + gs.drop_last();
            let tp = attach(gs.last(), lm.right());
            let oh = frame_height(gs.last());
            &&& stack_matches(stf, fs2, tp.idx())
            &&& tp is Node
            &&& path_links(clf, crf, fs2, tp.idx() as int)
            &&& links(clf, crf, tp)
            &&& path_balanced(bff, fs2)
            &&& fs2.len() > 0 ==> fs2.last().old_h == oh
            &&& balanced(bff, tp.left())
            &&& balanced(bff, tp.right())
            &&& tp.idx() < bff.len()
            &&& bff[tp.idx() as int] == tp.bf()
            &&& delete_shrunk(tp, oh)
            &&& fs2.len() > 0 && fs2[0].idx == if fs.len() > 0 { fs[0].idx } else { lm.idx() }
            &&& plug(fs2, tp).inorder() == prefix(fs) + dt.left().inorder() + dt.right().inorder() + suffix(fs)
        }),
{
    let ld = dt.left();
    let rd = dt.right();
    let d = dt.idx();
    let sidx = lm.idx();
    let rs = lm.right();
    let gl = gs.last();
    let ga = gs.drop_last();
    let sp = gl.idx;
    let fsl = Frame { idx: sidx, go_left: false, sib: ld, old_h: rd.height() };
    let fs1 = fs.push(fsl);
    let fs2 = fs1 + ga;
    let tp = attach(gl, rs);
    let oh = frame_height(gl);
    // disjointness of the regions
    lemma_plug_disjoint(fs, dt);
    lemma_plug_inorder(fs, dt);
    lemma_inorder_contains(dt);
    lemma_nodup_node(dt);
    lemma_plug_disjoint(gs, lm);
    lemma_plug_inorder(gs, lm);
    lemma_prefix_all_left(gs);
    lemma_inorder_contains(lm);
    lemma_nodup_node(lm);
    lemma_plug_push(ga, gl, lm);
    assert(ga.push(gl) =~= gs);
    lemma_plug_disjoint(ga, attach(gl, lm));
    lemma_inorder_contains(attach(gl, lm));
    lemma_nodup_node(attach(gl, lm));
    lemma_path_slots(gs);
    lemma_links_bounds(cl0, cr0, dt);
    lemma_links_bounds(cl0, cr0, lm);
    lemma_balanced_bounds(b0, dt);
    lemma_path_links_bounds(cl0, cr0, gs, sidx as int);
    lemma_path_links_bounds(cl0, cr0, ga, sp as int);
    lemma_plug_balanced(b0, gs, lm);
    assert(rd.inorder() == lm.inorder() + suffix(gs));
    assert(lm.inorder() == seq![sidx] + rs.inorder());
    assert forall|x: nat| #[trigger] path_slots(gs).contains(x) implies rd.inorder().contains(x) by {
        let m = choose|m: int| 0 <= m < path_slots(gs).len() && path_slots(gs)[m] == x;
        assert(path_slots(gs) =~= suffix(gs));
        assert(rd.inorder()[lm.inorder().len() + m] == x);
    }
    assert forall|x: nat| #[trigger] lm.inorder().contains(x) implies rd.inorder().contains(x) by {
        let m = choose|m: int| 0 <= m < lm.inorder().len() && lm.inorder()[m] == x;
        assert(rd.inorder()[m] == x);
    }
    assert(path_slots(gs).contains(sp)) by {
        assert(gs[gs.len() - 1].idx == sp);
    }
    assert forall|x: nat| #[trigger] gl.sib.inorder().contains(x) implies path_slots(gs).contains(x) by {
        assert(gs[gs.len() - 1].sib.inorder().contains(x));
    }
    assert forall|x: nat| #[trigger] path_slots(ga).contains(x) implies path_slots(gs).contains(x) by {
    }
    assert(rs.inorder().contains(sidx) == false);
    // the slots written
    let w3 = seq![sidx, sp];
    assert forall|j: nat| #[trigger] w3.contains(j) <==> (j == sidx || j == sp) by {
        if w3.contains(j) {
            let m = choose|m: int| 0 <= m < 2 && w3[m] == j;
        }
        if j == sidx {
            assert(w3[0] == sidx);
        }
        if j == sp {
            assert(w3[1] == sp);
        }
    }
    let pw = path_slots(fs) + w3;
    assert forall|j: nat| #[trigger] pw.contains(j) <==> (path_slots(fs).contains(j) || j == sidx || j == sp) by {
        if pw.contains(j) {
            let m = choose|m: int| 0 <= m < pw.len() && pw[m] == j;
            if m < path_slots(fs).len() {
                assert(path_slots(fs)[m] == j);
            } else {
                assert(w3[m - path_slots(fs).len()] == j);
            }
        }
        if path_slots(fs).contains(j) {
            let m = choose|m: int| 0 <= m < path_slots(fs).len() && path_slots(fs)[m] == j;
            assert(pw[m] == j);
        }
        if j == sidx || j == sp {
            assert(w3.contains(j));
            let m = choose|m: int| 0 <= m < w3.len() && w3[m] == j;
            assert(pw[path_slots(fs).len() + m] == j);
        }
    }
    assert forall|j: int| 0 <= j < cl0.len() && !pw.contains(j as nat) implies clf[j] == cl0[j] && crf[j] == cr0[j] by {
        assert(!path_slots(fs).contains(j as nat));
    }
    // subtrees that stay keep their links and balance
    lemma_agree_outside(cl0, clf, pw, ld.inorder());
    lemma_agree_outside(cr0, crf, pw, ld.inorder());
    lemma_agree_outside(cl0, clf, pw, rs.inorder());
    lemma_agree_outside(cr0, crf, pw, rs.inorder());
    lemma_agree_outside(cl0, clf, pw, gl.sib.inorder());
    lemma_agree_outside(cr0, crf, pw, gl.sib.inorder());
    lemma_agree_outside(cl0, clf, pw, path_slots(ga));
    lemma_agree_outside(cr0, crf, pw, path_slots(ga));
    assert(links(cl0, cr0, ld));
    lemma_links_frame(cl0, cr0, clf, crf, ld);
    lemma_links_frame(cl0, cr0, clf, crf, rs);
    lemma_links_frame(cl0, cr0, clf, crf, gl.sib);
    lemma_path_links_frame(cl0, cr0, clf, crf, ga, sp as int);
    lemma_agree_outside(b0, bff, w3, ld.inorder());
    lemma_agree_outside(b0, bff, w3, rs.inorder());
    lemma_agree_outside(b0, bff, w3, gl.sib.inorder());
    lemma_agree_outside(b0, bff, w3, path_slots(ga));
    lemma_path_links_bounds(cl1, cr1, fs, sidx as int);
    assert forall|x: nat| #[trigger] rd.inorder().contains(x) implies dt.inorder().contains(x) by {
    }
    lemma_agree_outside(b0, bff, w3, path_slots(fs));
    assert(balanced(b0, ld));
    lemma_balanced_frame(b0, bff, ld);
    lemma_balanced_frame(b0, bff, rs);
    lemma_balanced_frame(b0, bff, gl.sib);
    lemma_path_balanced_frame(b0, bff, ga);
    lemma_path_balanced_frame(b0, bff, fs);
    lemma_path_links_bounds(cl1, cr1, fs, sidx as int);
    lemma_agree_outside(cl1, clf, w3, path_slots(fs));
    lemma_agree_outside(cr1, crf, w3, path_slots(fs));
    lemma_path_links_frame(cl1, cr1, clf, crf, fs, sidx as int);
    // the pending node and the frame of the successor
    assert(links(clf, crf, tp));
    assert(fs1.drop_last() =~= fs);
    assert(fs1.last() == fsl);
    assert(path_links(clf, crf, fs1, rd.idx() as int));
    assert(path_balanced(bff, fs1));
    if ga.len() > 0 {
        assert(ga[0] == gs[0]);
        lemma_path_links_concat(clf, crf, fs1, ga, sp as int);
        lemma_path_balanced_concat(bff, fs1, ga);
        assert(fs2.last() == ga.last());
        assert(gs.drop_last().last() == ga.last());
    } else {
        assert(fs2 =~= fs1);
        assert(gs.len() == 1);
        assert(gs[0] == gl);
    }
    // the stack
    assert forall|j: int| 0 <= j < fs2.len() implies (#[trigger] stf[j]).0.value() == fs2[j].idx by {
        if j < fs.len() {
            assert(stf[j] == st1[j]);
            assert(fs2[j] == fs[j]);
        } else if j == fs.len() {
            assert(stf[j] == st1[j]);
            assert(fs2[j] == fsl);
        } else {
            assert(stf[j] == succ[j - fs.len() - 1]);
            assert(fs2[j] == ga[j - fs.len() - 1]);
            assert(ga[j - fs.len() - 1] == gs[j - fs.len() - 1]);
        }
    }
    assert(stf[fs2.len() as int] == succ[gs.len() - 1]);
    assert forall|j: int| 0 <= j < fs2.len() implies (#[trigger] stf[j + 1]).1 == if fs2[j].go_left { -1i8 } else { 1i8 } by {
        if j < fs.len() {
            assert(stf[j + 1] == st1[j + 1]);
            assert(fs2[j] == fs[j]);
        } else if j == fs.len() {
            assert(stf[j + 1] == succ[0]);
            assert(fs2[j] == fsl);
        } else {
            assert(stf[j + 1] == succ[j - fs.len()]);
            assert(fs2[j] == ga[j - fs.len() - 1]);
            assert(ga[j - fs.len() - 1] == gs[j - fs.len() - 1]);
        }
    }
    if fs.len() > 0 {
        assert(fs2[0] == fs[0]);
    } else {
        assert(fs2[0] == fsl);
    }
    // the order of slots
    lemma_plug_concat(fs1, ga, tp);
    lemma_plug_push(ga, gl, rs);
    lemma_plug_push(fs, fsl, plug(gs, rs));
    lemma_plug_inorder(fs, attach(fsl, plug(gs, rs)));
    lemma_plug_inorder(gs, rs);
    assert(attach(fsl, plug(gs, rs)).inorder() == ld.inorder() + seq![sidx] + plug(gs, rs).inorder());
    assert(prefix(fs) + attach(fsl, plug(gs, rs)).inorder() + suffix(fs)
        =~= prefix(fs) + ld.inorder() + rd.inorder() + suffix(fs));
}


/// After the two-pointer pass of a compaction, the live items sit exactly in
/// the first slots, and a moved item came from beyond them.
proof fn lemma_compact_positions(w: Seq<nat>, pos: Seq<int>, own: Seq<int>, d: int, s: int, n: int)
    requires
        w.no_duplicates(),
        pos.len() == n,
        own.len() == n,
        0 <= d <= s + 1,
        d >= s,
        s < n,
        forall|j: nat| #[trigger] w.contains(j) ==> {
            &&& 0 <= pos[j as int] < n
            &&& (pos[j as int] < d || (pos[j as int] == j && d <= j <= s))
            &&& (pos[j as int] != j ==> (j > s && pos[j as int] < d))
        },
        forall|j1: nat, j2: nat|
            #[trigger] w.contains(j1) && #[trigger] w.contains(j2) && j1 != j2 ==> pos[j1 as int] != pos[j2 as int],
        forall|i: int| 0 <= i < d ==> w.contains(#[trigger] own[i] as nat) && own[i] >= 0 && pos[own[i]] == i,
    ensures
        ({
            let ps = w.map_values(|j: nat| pos[j as int]);
            &&& forall|i: int| #[trigger] ps.contains(i) <==> 0 <= i < w.len()
            &&& forall|i: int| 0 <= i < w.len() ==> {
                &&& 0 <= #[trigger] ps.index_of(i) < w.len()
                &&& ps[ps.index_of(i)] == i
                &&& w.contains(w[ps.index_of(i)])
                &&& pos[w[ps.index_of(i)] as int] == i
            }
            &&& forall|j: nat| #[trigger] w.contains(j) ==> pos[j as int] < w.len() && (pos[j as int] != j ==> j >= w.len())
        }),
{
    let ps = w.map_values(|j: nat| pos[j as int]);
    assert forall|a: int, b: int| 0 <= a < b < ps.len() implies ps[a] != ps[b] by {
        assert(w.contains(w[a]));
        assert(w.contains(w[b]));
    }
    assert forall|kk: int| 0 <= kk < ps.len() implies 0 <= #[trigger] ps[kk] <= s by {
        assert(w.contains(w[kk]));
    }
    assert forall|i: int| 0 <= i < d implies ps.contains(i) by {
        let j = own[i];
        let m = choose|m: int| 0 <= m < w.len() && w[m] == j as nat;
        assert(ps[m] == i);
    }
    lemma_positions_fill(ps, d, s);
    assert forall|i: int| 0 <= i < w.len() implies {
        &&& 0 <= #[trigger] ps.index_of(i) < w.len()
        &&& ps[ps.index_of(i)] == i
        &&& w.contains(w[ps.index_of(i)])
        &&& pos[w[ps.index_of(i)] as int] == i
    } by {
        assert(ps.contains(i));
        let m = ps.index_of(i);
        assert(w.contains(w[m]));
    }
    assert forall|j: nat| #[trigger] w.contains(j) implies pos[j as int] < w.len() && (pos[j as int] != j ==> j >= w.len()) by {
        let m = choose|m: int| 0 <= m < w.len() && w[m] == j;
        assert(ps[m] == pos[j as int]);
        assert(ps.contains(ps[m]));
    }
}

} // verus!
