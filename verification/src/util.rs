pub mod key_order;
pub mod avl_shape;
pub mod avl_tree;
pub mod sort;
pub mod sorted_list_ops;

pub use avl_tree::{AvlTree, AvlTreeItem};
pub use sort::cosort_two_vecs_inplace;
pub use sorted_list_ops::sorted_list_setminus_keyed;

use vstd::prelude::*;
use vstd::arithmetic::power::{pow, lemma_pow0, lemma_pow1, lemma_pow_adds, lemma_pow_positive, lemma_pow_increases, lemma_pow_mod};
use crate::primitives::integer::Int;
use crate::primitives::integer::IntNonnegFitsInUsize;

verus! {

/// Some item of `s` has the value `v`.
pub open spec fn has_value<I: Int>(s: Seq<I>, v: int) -> bool {
    exists|k: int| 0 <= k < s.len() && #[trigger] s[k].value() == v
}

/// The indices below `length` that `indices` does not hold, in increasing order.
pub fn indices_complement<I, I2>(indices: &Vec<I>, length: I2) -> (complement: Vec<I>)
    where I: IntNonnegFitsInUsize, I2: IntNonnegFitsInUsize,
    requires
        length.value() >= 0,
        length.value() <= I::max_value() + 1,
        forall|k: int| 0 <= k < indices.len() ==> 0 <= #[trigger] indices@[k].value() < length.value(),
    ensures
        forall|a: int, b: int| 0 <= a < b < complement.len() ==> #[trigger] complement@[a].value() < #[trigger] complement@[b].value(),
        forall|k: int| 0 <= k < complement.len() ==> {
            &&& 0 <= #[trigger] complement@[k].value() < length.value()
            &&& !has_value(indices@, complement@[k].value())
        },
        forall|j: int| 0 <= j < length.value() && !has_value(indices@, j) ==> has_value(complement@, j),
{
    proof {
        I::lemma_int_properties();
        I2::lemma_int_properties();
        I::lemma_fits_in_usize();
        I2::lemma_fits_in_usize();
    }
    let n = length.to_usize_unchecked();
    let mut is_complement = vec![true; n];
    let mut k: usize = 0;
    while k < indices.len()
        invariant
            0 <= k <= indices.len(),
            n == length.value(),
            is_complement.len() == n,
            forall|k: int| 0 <= k < indices.len() ==> 0 <= #[trigger] indices@[k].value() < length.value(),
            forall|j: int| 0 <= j < n ==> (#[trigger] is_complement@[j] <==> forall|m: int| 0 <= m < k ==> indices@[m].value() != j),
        decreases indices.len() - k,
    {
        let i = indices[k];
        let i_usize = i.to_usize_unchecked();
        proof {
            assert(0 <= indices@[k as int].value() < length.value());
        }
        is_complement.set(i_usize, false);
        k += 1;
        proof {
            assert forall|j: int| 0 <= j < n implies (#[trigger] is_complement@[j] <==> forall|m: int| 0 <= m < k ==> indices@[m].value() != j) by {
                if j != i_usize {
                    if !is_complement@[j] {
                        let m = choose|m: int| 0 <= m < k - 1 && indices@[m].value() == j;
                    }
                }
            }
        }
    }
    proof {
        assert forall|j: int| 0 <= j < n implies (#[trigger] is_complement@[j] <==> !has_value(indices@, j)) by {
            if has_value(indices@, j) {
                let m = choose|m: int| 0 <= m < indices.len() && #[trigger] indices@[m].value() == j;
            }
        }
    }

    let mut complement: Vec<I> = Vec::new();
    let mut i: usize = 0;
    while i < is_complement.len()
        invariant
            0 <= i <= n,
            n == length.value(),
            n <= I::max_value() + 1,
            is_complement.len() == n,
            forall|j: int| 0 <= j < n ==> (#[trigger] is_complement@[j] <==> !has_value(indices@, j)),
            forall|a: int, b: int| 0 <= a < b < complement.len() ==> #[trigger] complement@[a].value() < #[trigger] complement@[b].value(),
            forall|k: int| 0 <= k < complement.len() ==> {
                &&& 0 <= #[trigger] complement@[k].value() < i
                &&& is_complement@[complement@[k].value()]
            },
            forall|j: int| 0 <= j < i && is_complement@[j] ==> has_value(complement@, j),
        decreases n - i,
    {
        if is_complement[i] {
            let v = I::from_usize_unchecked(i);
            let ghost before = complement@;
            complement.push(v);
            proof {
                assert(complement@[before.len() as int] == v);
                assert forall|j: int| 0 <= j < i + 1 && is_complement@[j] implies has_value(complement@, j) by {
                    if j < i {
                        let m = choose|m: int| 0 <= m < before.len() && #[trigger] before[m].value() == j;
                        assert(complement@[m] == before[m]);
                    } else {
                        assert(complement@[before.len() as int].value() == j);
                    }
                }
            }
        }
        i += 1;
    }
    proof {
        assert forall|j: int| 0 <= j < length.value() && !has_value(indices@, j) implies has_value(complement@, j) by {
            assert(is_complement@[j]);
        }
    }
    complement
}

/// `x` is a power of `base`.
pub open spec fn is_power_of(x: int, base: int) -> bool {
    exists|k: nat| pow(base, k) == x
}

/// A number `x * base^m` with `x` above one and either below `base` or not a
/// multiple of it is no power of `base`.
proof fn lemma_not_power(x: int, b: int, m: nat)
    requires
        b >= 2,
        x >= 2,
        x < b || x % b != 0,
    ensures
        !is_power_of(x * pow(b, m), b),
{
    lemma_pow_positive(b, m);
    if is_power_of(x * pow(b, m), b) {
        let k = choose|k: nat| pow(b, k) == x * pow(b, m);
        let pm = pow(b, m);
        if k <= m {
            lemma_pow_increases(b as nat, k, m);
            assert(x * pm > pm) by (nonlinear_arith)
                requires
                    x >= 2,
                    pm > 0,
            ;
        } else {
            let d = (k - m) as nat;
            lemma_pow_adds(b, m, d);
            assert(pow(b, k) == pm * pow(b, d));
            assert(pow(b, d) == x) by (nonlinear_arith)
                requires
                    pm * pow(b, d) == x * pm,
                    pm > 0,
            ;
            lemma_pow_mod(b as nat, d);
            lemma_pow1(b);
            lemma_pow_increases(b as nat, 1, d);
        }
    }
}

/// Whether the positive integer `value` is a power of `base` (`base^0 == 1` counts).
pub fn pos_int_is_power_of<I, I2>(value: I, base: I2) -> (r: bool)
    where I: IntNonnegFitsInUsize, I2: IntNonnegFitsInUsize,
    requires
        base.value() > 0,
        value.value() > 0,
        base.value() == 1 ==> value.value() == 1,
    ensures
        r == is_power_of(value.value(), base.value()),
{
    proof {
        I::lemma_int_properties();
        I2::lemma_int_properties();
        I::lemma_fits_in_usize();
        I2::lemma_fits_in_usize();
    }
    let int_usize = value.to_usize_unchecked();
    let base_usize = base.to_usize_unchecked();
    if int_usize == 1 {
        proof {
            lemma_pow0(base.value());
        }
        return true;
    }

    let ghost b = base_usize as int;
    proof {
        lemma_pow0(b);
        assert(int_usize == int_usize * pow(b, 0));
    }
    if int_usize < base_usize {
        proof {
            lemma_not_power(int_usize as int, b, 0);
        }
        return false;
    }

    let mut x = int_usize;
    let ghost mut m: nat = 0;
    while x > base_usize
        invariant
            b == base_usize,
            b >= 2,
            x >= 2,
            x >= b || m > 0,
            int_usize == x * pow(b, m),
            int_usize == value.value(),
            b == base.value(),
        decreases x,
    {
        if x % base_usize != 0 {
            proof {
                lemma_not_power(x as int, b, m);
            }
            return false;
        }
        let ghost xo = x as int;
        x /= base_usize;
        proof {
            lemma_pow_adds(b, 1, m);
            lemma_pow1(b);
            assert(xo == x * b) by (nonlinear_arith)
                requires
                    xo % b == 0,
                    x == xo / b,
                    b > 0,
            ;
            assert(x >= 2) by (nonlinear_arith)
                requires
                    xo > b,
                    xo == x * b,
                    b >= 2,
            ;
            assert(x < xo) by (nonlinear_arith)
                requires
                    xo == x * b,
                    b >= 2,
                    x >= 2,
            ;
            assert(xo * pow(b, m) == x * (b * pow(b, m))) by (nonlinear_arith)
                requires
                    xo == x * b,
            ;
            assert(pow(b, (m + 1) as nat) == b * pow(b, m)) by {
                assert((1 + m) as nat == (m + 1) as nat);
            }
            m = m + 1;
        }
    }

    proof {
        if x == base_usize {
            lemma_pow_adds(b, 1, m);
            lemma_pow1(b);
            assert(pow(b, (1 + m) as nat) == int_usize);
        } else {
            lemma_not_power(x as int, b, m);
        }
    }
    x == base_usize
}

} // verus!
