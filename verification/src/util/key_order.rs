use vstd::prelude::*;
use vstd::laws_cmp::obeys_cmp;
use vstd::laws_cmp::obeys_cmp_partial_ord;
use vstd::laws_cmp::obeys_cmp_ord;
use vstd::laws_cmp::obeys_partial_cmp_spec_properties;
use vstd::laws_eq::obeys_eq_spec_properties;
use vstd::std_specs::cmp::PartialOrdSpec;
use vstd::std_specs::cmp::OrdSpec;
use vstd::std_specs::cmp::PartialEqSpec;
use std::cmp::Ordering;

verus! {

/// The type's `Ord` is a lawful total order (as `Ord` documents it must be).
pub open spec fn lawful_order<K: Ord>() -> bool {
    obeys_cmp::<K>()
}

/// `a` orders strictly before `b` under the type's `Ord`.
pub open spec fn key_lt<K: Ord>(a: K, b: K) -> bool {
    a.partial_cmp_spec(&b) == Some(Ordering::Less)
}

/// `a` and `b` compare equal under the type's `Ord`.
pub open spec fn key_equiv<K: Ord>(a: K, b: K) -> bool {
    !key_lt(a, b) && !key_lt(b, a)
}

/// A lawful `Ord` orders its values strictly and totally: `key_lt` is irreflexive
/// and transitive, and `key_equiv` is an equivalence that `key_lt` respects.
pub proof fn lemma_key_order<K: Ord>()
    requires
        obeys_cmp::<K>(),
    ensures
        forall|a: K| !#[trigger] key_lt(a, a),
        forall|a: K, b: K, c: K| #[trigger] key_lt(a, b) && #[trigger] key_lt(b, c) ==> key_lt(a, c),
        forall|a: K, b: K, c: K|
            #[trigger] key_lt(a, b) && #[trigger] key_equiv(b, c) ==> key_lt(a, c),
        forall|a: K, b: K, c: K|
            #[trigger] key_equiv(a, b) && #[trigger] key_lt(b, c) ==> key_lt(a, c),
        forall|a: K, b: K, c: K|
            #[trigger] key_equiv(a, b) && #[trigger] key_equiv(b, c) ==> key_equiv(a, c),
{
    reveal(obeys_cmp_partial_ord);
    reveal(obeys_cmp_ord);
    reveal(obeys_partial_cmp_spec_properties);
    reveal(obeys_eq_spec_properties);
    assert forall|a: K| !#[trigger] key_lt(a, a) by {
        assert(a.partial_cmp_spec(&a) == Some(a.cmp_spec(&a)));
    }
    assert forall|a: K, b: K| #[trigger] key_equiv(a, b) implies a.eq_spec(&b) by {
        assert(a.partial_cmp_spec(&b) == Some(a.cmp_spec(&b)));
        assert(b.partial_cmp_spec(&a) == Some(b.cmp_spec(&a)));
    }
    assert forall|a: K, b: K| a.eq_spec(&b) implies #[trigger] key_equiv(a, b) by {
        assert(a.partial_cmp_spec(&b) == Some(Ordering::Equal));
        assert(b.eq_spec(&a));
        assert(b.partial_cmp_spec(&a) == Some(Ordering::Equal));
    }
    assert forall|a: K, b: K, c: K|
        #[trigger] key_lt(a, b) && #[trigger] key_equiv(b, c) implies key_lt(a, c) by {
        assert(a.partial_cmp_spec(&c) == Some(a.cmp_spec(&c)));
        assert(b.eq_spec(&c));
        assert(c.eq_spec(&b));
        if a.eq_spec(&c) {
            assert(a.eq_spec(&b));
        }
        if c.partial_cmp_spec(&a) == Some(Ordering::Less) {
            assert(key_lt(c, b));
        }
    }
    assert forall|a: K, b: K, c: K|
        #[trigger] key_equiv(a, b) && #[trigger] key_lt(b, c) implies key_lt(a, c) by {
        assert(a.partial_cmp_spec(&c) == Some(a.cmp_spec(&c)));
        assert(a.eq_spec(&b));
        assert(b.eq_spec(&a));
        if a.eq_spec(&c) {
            assert(b.eq_spec(&c));
        }
        if c.partial_cmp_spec(&a) == Some(Ordering::Less) {
            assert(key_lt(c, b));
        }
    }
    assert forall|a: K, b: K, c: K|
        #[trigger] key_equiv(a, b) && #[trigger] key_equiv(b, c) implies key_equiv(a, c) by {
        assert(a.eq_spec(&b));
        assert(b.eq_spec(&c));
        assert(a.eq_spec(&c));
    }
}

/// `a < b` under the type's `Ord`.
pub fn lt_keys<K: Ord>(a: &K, b: &K) -> (r: bool)
    requires
        obeys_cmp::<K>(),
    ensures
        r == key_lt(*a, *b),
{
    proof {
        reveal(obeys_cmp_partial_ord);
    }
    a.lt(b)
}

/// `a > b` under the type's `Ord`.
pub fn gt_keys<K: Ord>(a: &K, b: &K) -> (r: bool)
    requires
        obeys_cmp::<K>(),
    ensures
        r == key_lt(*b, *a),
{
    proof {
        reveal(obeys_cmp_partial_ord);
        reveal(obeys_partial_cmp_spec_properties);
    }
    a.gt(b)
}

/// Under a lawful `Ord`, "not before" is transitive and `key_lt` is asymmetric.
pub proof fn lemma_key_total<K: Ord>()
    requires
        obeys_cmp::<K>(),
    ensures
        forall|a: K, b: K| #[trigger] key_lt(a, b) ==> !key_lt(b, a),
        forall|a: K, b: K, c: K| !#[trigger] key_lt(a, b) && !#[trigger] key_lt(b, c) ==> !key_lt(a, c),
{
    lemma_key_order::<K>();
    assert forall|a: K, b: K| #[trigger] key_lt(a, b) implies !key_lt(b, a) by {
        if key_lt(b, a) {
            assert(key_lt(a, a));
        }
    }
    assert forall|a: K, b: K, c: K| !#[trigger] key_lt(a, b) && !#[trigger] key_lt(b, c) implies !key_lt(a, c) by {
        if key_lt(a, c) {
            if key_lt(b, a) {
                assert(key_lt(b, c));
            } else {
                assert(key_equiv(b, a));
                assert(key_lt(b, c));
            }
        }
    }
}

/// `a >= b` under the type's `Ord`.
pub fn ge_keys<K: Ord>(a: &K, b: &K) -> (r: bool)
    requires
        obeys_cmp::<K>(),
    ensures
        r == !key_lt(*a, *b),
{
    proof {
        reveal(obeys_cmp_partial_ord);
        reveal(obeys_cmp_ord);
        assert(a.partial_cmp_spec(b) == Some(a.cmp_spec(b)));
    }
    a.ge(b)
}

/// `K`'s `PartialOrd` and `PartialEq` behave as their spec functions say and
/// keep the laws their documentation asks for: two values compare `Equal`
/// exactly when they are equal, `==` is symmetric and transitive, `<` is
/// transitive, and equal values order alike.
pub open spec fn lawful_partial_order<K: PartialOrd>() -> bool {
    &&& K::obeys_partial_cmp_spec()
    &&& K::obeys_eq_spec()
    &&& forall|a: K, b: K| #[trigger] a.partial_cmp_spec(&b) == Some(Ordering::Equal) <==> a.eq_spec(&b)
    &&& forall|a: K, b: K| #[trigger] a.eq_spec(&b) ==> b.eq_spec(&a)
    &&& forall|a: K, b: K, c: K| #[trigger] a.eq_spec(&b) && #[trigger] b.eq_spec(&c) ==> a.eq_spec(&c)
    &&& forall|a: K, b: K, c: K| #[trigger] pkey_lt(a, b) && #[trigger] pkey_lt(b, c) ==> pkey_lt(a, c)
    &&& forall|a: K, b: K, c: K| #[trigger] pkey_lt(a, b) && #[trigger] b.eq_spec(&c) ==> pkey_lt(a, c)
}

/// `a < b` under the type's `PartialOrd`.
pub open spec fn pkey_lt<K: PartialOrd>(a: K, b: K) -> bool {
    a.partial_cmp_spec(&b) == Some(Ordering::Less)
}

/// `a > b` under the type's `PartialOrd`.
pub open spec fn pkey_gt<K: PartialOrd>(a: K, b: K) -> bool {
    a.partial_cmp_spec(&b) == Some(Ordering::Greater)
}

/// `a == b` under the type's `PartialEq`.
pub open spec fn pkey_eq<K: PartialOrd>(a: K, b: K) -> bool {
    a.eq_spec(&b)
}

/// `a < b` under the type's `PartialOrd`.
pub fn lt_partial<K: PartialOrd>(a: &K, b: &K) -> (r: bool)
    requires
        K::obeys_partial_cmp_spec(),
    ensures
        r == pkey_lt(*a, *b),
{
    a.lt(b)
}

/// `a > b` under the type's `PartialOrd`.
pub fn gt_partial<K: PartialOrd>(a: &K, b: &K) -> (r: bool)
    requires
        K::obeys_partial_cmp_spec(),
    ensures
        r == pkey_gt(*a, *b),
{
    a.gt(b)
}

/// `a == b` under the type's `PartialEq`.
pub fn eq_partial<K: PartialOrd>(a: &K, b: &K) -> (r: bool)
    requires
        K::obeys_eq_spec(),
    ensures
        r == pkey_eq(*a, *b),
{
    a.eq(b)
}

/// Under a lawful partial order, a value below another is not equal to it
/// (either way round).
pub proof fn lemma_lt_not_eq<K: PartialOrd>(a: K, b: K)
    requires
        lawful_partial_order::<K>(),
        pkey_lt(a, b),
    ensures
        !pkey_eq(a, b),
        !pkey_eq(b, a),
{
    if b.eq_spec(&a) {
        assert(a.eq_spec(&b));
    }
}

} // verus!
