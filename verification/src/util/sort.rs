use vstd::prelude::*;
use crate::util::key_order::{lawful_order, key_lt, lemma_key_total, gt_keys, ge_keys};

verus! {

/// The key that `key_func` gives the pair `(a, b)`.
pub open spec fn pair_key<T1, T2, K, F: Fn(&T1, &T2) -> K>(key_func: F, a: T1, b: T2) -> K {
    choose|k: K| call_ensures(key_func, (&a, &b), k)
}

/// `key_func` gives the same pair of arguments the same key every time.
pub open spec fn deterministic<T1, T2, K, F: Fn(&T1, &T2) -> K>(key_func: F) -> bool {
    forall|a: &T1, b: &T2, k1: K, k2: K|
        #[trigger] call_ensures(key_func, (a, b), k1) && #[trigger] call_ensures(key_func, (a, b), k2) ==> k1 == k2
}

/// The key of the pair at position `i` of `s1` and `s2`.
pub open spec fn key_at<T1, T2, K, F: Fn(&T1, &T2) -> K>(key_func: F, s1: Seq<T1>, s2: Seq<T2>, i: int) -> K {
    pair_key(key_func, s1[i], s2[i])
}

/// The keys of the pairs of `s1` and `s2` never decrease along them.
pub open spec fn keys_nondecreasing<T1, T2, K: Ord, F: Fn(&T1, &T2) -> K>(key_func: F, s1: Seq<T1>, s2: Seq<T2>) -> bool {
    forall|a: int, b: int|
        0 <= a < b < s1.len() ==> !key_lt(#[trigger] key_at(key_func, s1, s2, b), #[trigger] key_at(key_func, s1, s2, a))
}

/// `perm` reorders `0..n`.
pub open spec fn is_permutation(perm: Seq<int>, n: nat) -> bool {
    &&& perm.len() == n
    &&& forall|i: int| 0 <= i < n ==> 0 <= #[trigger] perm[i] < n
    &&& forall|i: int, j: int| 0 <= i < j < n ==> #[trigger] perm[i] != #[trigger] perm[j]
}

/// `s1` and `s2` hold at each position the elements of `o1` and `o2` at the
/// position that `perm` gives.
pub open spec fn reordered<T1, T2>(s1: Seq<T1>, s2: Seq<T2>, o1: Seq<T1>, o2: Seq<T2>, perm: Seq<int>) -> bool {
    &&& s1.len() == perm.len()
    &&& s2.len() == perm.len()
    &&& forall|j: int| 0 <= j < perm.len() ==> #[trigger] s1[j] == o1[perm[j]] && s2[j] == o2[perm[j]]
}

/// `s` with the elements at `a` and `b` exchanged.
pub open spec fn swapped<T>(s: Seq<T>, a: int, b: int) -> Seq<T> {
    s.update(a, s[b]).update(b, s[a])
}

/// Max-heap order on the first `h` pairs, on every edge but those from the
/// parent `xp` and those to the child `xc`.
pub open spec fn heap_but<T1, T2, K: Ord, F: Fn(&T1, &T2) -> K>(
    key_func: F,
    s1: Seq<T1>,
    s2: Seq<T2>,
    h: int,
    xp: int,
    xc: int,
) -> bool {
    forall|p: int, c: int|
        #![trigger key_at(key_func, s1, s2, p), key_at(key_func, s1, s2, c)]
        0 <= p && c < h && (c == 2 * p + 1 || c == 2 * p + 2) && p != xp && c != xc ==> !key_lt(
            key_at(key_func, s1, s2, p),
            key_at(key_func, s1, s2, c),
        )
}

/// Exchanges the elements at `a` and `b`, with the last element, taken off
/// and put back, as the spare value that moves through the exchanges.
fn swap_elems<T>(v: &mut Vec<T>, a: usize, b: usize)
    requires
        a < old(v).len(),
        b < old(v).len(),
    ensures
        final(v)@ == swapped(old(v)@, a as int, b as int),
{
    let ghost s = v@;
    if a == b {
        assert(v@ =~= swapped(s, a as int, b as int));
        return;
    }
    let last = v.len() - 1;
    let mut tmp = v.pop().unwrap();
    assert(v@ =~= s.drop_last());
    if a == last {
        v.set_and_swap(b, &mut tmp);
        v.push(tmp);
    } else if b == last {
        v.set_and_swap(a, &mut tmp);
        v.push(tmp);
    } else {
        v.set_and_swap(a, &mut tmp);
        v.set_and_swap(b, &mut tmp);
        v.set_and_swap(a, &mut tmp);
        v.push(tmp);
    }
    assert(v@ =~= swapped(s, a as int, b as int));
}

/// A key that a deterministic `key_func` handed out for `(a, b)` is the pair's key.
proof fn lemma_key_call<T1, T2, K, F: Fn(&T1, &T2) -> K>(key_func: F, a: T1, b: T2, k: K)
    requires
        deterministic(key_func),
        call_ensures(key_func, (&a, &b), k),
    ensures
        pair_key(key_func, a, b) == k,
{
    let k2 = pair_key(key_func, a, b);
    assert(call_ensures(key_func, (&a, &b), k2));
}

/// In a max-heap, the root's key is not below any other key of the heap.
proof fn lemma_heap_root<T1, T2, K: Ord, F: Fn(&T1, &T2) -> K>(key_func: F, s1: Seq<T1>, s2: Seq<T2>, h: int, j: int)
    requires
        lawful_order::<K>(),
        heap_but(key_func, s1, s2, h, -1, -1),
        0 <= j < h,
    ensures
        !key_lt(key_at(key_func, s1, s2, 0), key_at(key_func, s1, s2, j)),
    decreases j,
{
    lemma_key_total::<K>();
    if j > 0 {
        let p = (j - 1) / 2;
        lemma_heap_root(key_func, s1, s2, h, p);
        assert(!key_lt(key_at(key_func, s1, s2, p), key_at(key_func, s1, s2, j)));
    } else {
        crate::util::key_order::lemma_key_order::<K>();
    }
}

/// One step of sifting up: the target at `t` rose above its parent `p`.
proof fn lemma_sift_up_step<T1, T2, K: Ord, F: Fn(&T1, &T2) -> K>(
    key_func: F,
    s1: Seq<T1>,
    s2: Seq<T2>,
    h: int,
    t: int,
)
    requires
        lawful_order::<K>(),
        0 < t < h,
        h <= s1.len(),
        s1.len() == s2.len(),
        heap_but(key_func, s1, s2, h, -1, t),
        forall|c: int| c < h && (c == 2 * t + 1 || c == 2 * t + 2) ==> !key_lt(
            key_at(key_func, s1, s2, (t - 1) / 2),
            #[trigger] key_at(key_func, s1, s2, c),
        ),
        key_lt(key_at(key_func, s1, s2, (t - 1) / 2), key_at(key_func, s1, s2, t)),
    ensures
        ({
            let p = (t - 1) / 2;
            let n1 = swapped(s1, t, p);
            let n2 = swapped(s2, t, p);
            &&& heap_but(key_func, n1, n2, h, -1, p)
            &&& p > 0 ==> forall|c: int| c < h && (c == 2 * p + 1 || c == 2 * p + 2) ==> !key_lt(
                key_at(key_func, n1, n2, (p - 1) / 2),
                #[trigger] key_at(key_func, n1, n2, c),
            )
            &&& key_at(key_func, n1, n2, p) == key_at(key_func, s1, s2, t)
        }),
{
    lemma_key_total::<K>();
    let p = (t - 1) / 2;
    let n1 = swapped(s1, t, p);
    let n2 = swapped(s2, t, p);
    let k = |i: int| key_at(key_func, s1, s2, i);
    let nk = |i: int| key_at(key_func, n1, n2, i);
    assert forall|i: int| 0 <= i < s1.len() implies #[trigger] key_at(key_func, n1, n2, i) == if i == t {
        k(p)
    } else if i == p {
        k(t)
    } else {
        k(i)
    } by {}
    assert forall|a: int, c: int|
        #![trigger key_at(key_func, n1, n2, a), key_at(key_func, n1, n2, c)]
        0 <= a && c < h && (c == 2 * a + 1 || c == 2 * a + 2) && a != -1 && c != p implies !key_lt(
            key_at(key_func, n1, n2, a),
            key_at(key_func, n1, n2, c),
        ) by {
        assert(nk(a) == key_at(key_func, n1, n2, a));
        assert(nk(c) == key_at(key_func, n1, n2, c));
        if a == p && c == t {
        } else if a == p {
            // the sibling of `t`
            assert(!key_lt(k(p), k(c)));
        } else if a == t {
            assert(!key_lt(k(p), k(c)));
        } else if c == t {
            // no edge other than the one from `p` ends at `t`
            assert(a == p);
        } else {
            assert(!key_lt(k(a), k(c)));
        }
    }
    if p > 0 {
        let g = (p - 1) / 2;
        assert forall|c: int| c < h && (c == 2 * p + 1 || c == 2 * p + 2) implies !key_lt(
            key_at(key_func, n1, n2, (p - 1) / 2),
            #[trigger] key_at(key_func, n1, n2, c),
        ) by {
            assert(nk(g) == k(g));
            assert(!key_lt(k(g), k(p)));
            if c == t {
                assert(nk(c) == k(p));
            } else {
                assert(nk(c) == k(c));
                assert(!key_lt(k(p), k(c)));
            }
        }
    }
}

/// One step of sifting down: the target at `t` sank below its greatest child `s`.
proof fn lemma_sift_down_step<T1, T2, K: Ord, F: Fn(&T1, &T2) -> K>(
    key_func: F,
    s1: Seq<T1>,
    s2: Seq<T2>,
    h: int,
    t: int,
    s: int,
)
    requires
        lawful_order::<K>(),
        0 <= t,
        s < h,
        s == 2 * t + 1 || s == 2 * t + 2,
        h <= s1.len(),
        s1.len() == s2.len(),
        heap_but(key_func, s1, s2, h, t, -1),
        t > 0 ==> forall|c: int| c < h && (c == 2 * t + 1 || c == 2 * t + 2) ==> !key_lt(
            key_at(key_func, s1, s2, (t - 1) / 2),
            #[trigger] key_at(key_func, s1, s2, c),
        ),
        key_lt(key_at(key_func, s1, s2, t), key_at(key_func, s1, s2, s)),
        forall|c: int| c < h && (c == 2 * t + 1 || c == 2 * t + 2) ==> !key_lt(
            key_at(key_func, s1, s2, s),
            #[trigger] key_at(key_func, s1, s2, c),
        ),
    ensures
        ({
            let n1 = swapped(s1, t, s);
            let n2 = swapped(s2, t, s);
            &&& heap_but(key_func, n1, n2, h, s, -1)
            &&& forall|c: int| c < h && (c == 2 * s + 1 || c == 2 * s + 2) ==> !key_lt(
                key_at(key_func, n1, n2, (s - 1) / 2),
                #[trigger] key_at(key_func, n1, n2, c),
            )
            &&& forall|i: int| 0 <= i < s1.len() ==> #[trigger] key_at(key_func, n1, n2, i) == if i == t {
                key_at(key_func, s1, s2, s)
            } else if i == s {
                key_at(key_func, s1, s2, t)
            } else {
                key_at(key_func, s1, s2, i)
            }
        }),
{
    lemma_key_total::<K>();
    let n1 = swapped(s1, t, s);
    let n2 = swapped(s2, t, s);
    let k = |i: int| key_at(key_func, s1, s2, i);
    let nk = |i: int| key_at(key_func, n1, n2, i);
    assert forall|i: int| 0 <= i < s1.len() implies #[trigger] key_at(key_func, n1, n2, i) == if i == t {
        k(s)
    } else if i == s {
        k(t)
    } else {
        k(i)
    } by {}
    assert forall|a: int, c: int|
        #![trigger key_at(key_func, n1, n2, a), key_at(key_func, n1, n2, c)]
        0 <= a && c < h && (c == 2 * a + 1 || c == 2 * a + 2) && a != s && c != -1 implies !key_lt(
            key_at(key_func, n1, n2, a),
            key_at(key_func, n1, n2, c),
        ) by {
        assert(nk(a) == key_at(key_func, n1, n2, a));
        assert(nk(c) == key_at(key_func, n1, n2, c));
        if a == t && c == s {
        } else if a == t {
            assert(!key_lt(k(s), k(c)));
        } else if c == t {
            assert(a == (t - 1) / 2);
            assert(!key_lt(k(a), k(s)));
        } else if c == s {
            assert(a == t);
        } else {
            assert(!key_lt(k(a), k(c)));
        }
    }
    assert forall|c: int| c < h && (c == 2 * s + 1 || c == 2 * s + 2) implies !key_lt(
        key_at(key_func, n1, n2, (s - 1) / 2),
        #[trigger] key_at(key_func, n1, n2, c),
    ) by {
        assert((s - 1) / 2 == t);
        assert(nk(t) == k(s));
        assert(nk(c) == k(c));
        assert(!key_lt(k(s), k(c)));
    }
}

/// Sorts `vec1` and `vec2` together by the keys that `key_func` gives their
/// pairs, applying the same permutation to both. The vectors must be of the
/// same length.
///
/// Uses heap sort, which is not a "stable" sort, i.e. it does not preserve the
/// order of elements that compare equal, a property which is often used for
/// multi-level sorting. Multi-level sorting can easily be implemented here by
/// having `key_func` return a tuple.
#[verifier::rlimit(60)]
pub fn cosort_two_vecs_inplace<T1, T2, K, F>(vec1: &mut Vec<T1>, vec2: &mut Vec<T2>, key_func: F)
    where K: Ord, F: Fn(&T1, &T2) -> K,
    requires
        old(vec1).len() == old(vec2).len(),
        old(vec1).len() <= isize::MAX,
        lawful_order::<K>(),
        forall|a: &T1, b: &T2| call_requires(key_func, (a, b)),
        deterministic(key_func),
    ensures
        final(vec1).len() == old(vec1).len(),
        final(vec2).len() == old(vec2).len(),
        exists|perm: Seq<int>| {
            &&& is_permutation(perm, old(vec1).len() as nat)
            &&& forall|i: int| 0 <= i < old(vec1).len() ==> {
                &&& #[trigger] final(vec1)@[i] == old(vec1)@[perm[i]]
                &&& final(vec2)@[i] == old(vec2)@[perm[i]]
            }
        },
        keys_nondecreasing(key_func, final(vec1)@, final(vec2)@),
        forall|i: int, j: int, ki: K, kj: K|
            0 <= i < j < final(vec1).len() && #[trigger] call_ensures(key_func, (&final(vec1)@[i], &final(vec2)@[i]), ki)
                && #[trigger] call_ensures(key_func, (&final(vec1)@[j], &final(vec2)@[j]), kj) ==> !key_lt(kj, ki),
{
    proof {
        lemma_key_total::<K>();
    }
    let length = vec1.len();
    let ghost o1 = vec1@;
    let ghost o2 = vec2@;
    let ghost mut perm: Seq<int> = Seq::new(length as nat, |i: int| i);

    // turn into max heap in place
    let mut i: usize = 1;
    while i < length
        invariant
            1 <= i,
            length == 0 || i <= length,
            length <= isize::MAX,
            vec1.len() == length,
            vec2.len() == length,
            lawful_order::<K>(),
            forall|a: &T1, b: &T2| call_requires(key_func, (a, b)),
            deterministic(key_func),
            heap_but(key_func, vec1@, vec2@, i as int, -1, -1),
            is_permutation(perm, length as nat),
            reordered(vec1@, vec2@, o1, o2, perm),
        decreases length - i,
    {
        // insert target element at index `i` into the heap, sift up
        let mut t = i;  // current index
        let t_key = key_func(&vec1[t], &vec2[t]);
        proof {
            lemma_key_call(key_func, vec1@[t as int], vec2@[t as int], t_key);
            assert forall|a: int, c: int|
                #![trigger key_at(key_func, vec1@, vec2@, a), key_at(key_func, vec1@, vec2@, c)]
                0 <= a && c < i + 1 && (c == 2 * a + 1 || c == 2 * a + 2) && a != -1 && c != t implies !key_lt(
                    key_at(key_func, vec1@, vec2@, a),
                    key_at(key_func, vec1@, vec2@, c),
                ) by {}
        }
        while t != 0
            invariant
                0 <= t <= i < length,
                length <= isize::MAX,
                vec1.len() == length,
                vec2.len() == length,
                lawful_order::<K>(),
                forall|a: &T1, b: &T2| call_requires(key_func, (a, b)),
                deterministic(key_func),
                heap_but(key_func, vec1@, vec2@, i + 1, -1, t as int),
                t > 0 ==> forall|c: int| c < i + 1 && (c == 2 * t + 1 || c == 2 * t + 2) ==> !key_lt(
                    key_at(key_func, vec1@, vec2@, (t - 1) / 2),
                    #[trigger] key_at(key_func, vec1@, vec2@, c),
                ),
                key_at(key_func, vec1@, vec2@, t as int) == t_key,
                is_permutation(perm, length as nat),
                reordered(vec1@, vec2@, o1, o2, perm),
            ensures
                heap_but(key_func, vec1@, vec2@, i + 1, -1, -1),
                is_permutation(perm, length as nat),
                reordered(vec1@, vec2@, o1, o2, perm),
                vec1.len() == length,
                vec2.len() == length,
            decreases t,
        {
            let p = (t + 1) / 2 - 1;
            let p_key = key_func(&vec1[p], &vec2[p]);
            proof {
                lemma_key_call(key_func, vec1@[p as int], vec2@[p as int], p_key);
                assert(p == (t - 1) / 2);
            }
            if gt_keys(&t_key, &p_key) {
                // swap current element with parent
                proof {
                    lemma_sift_up_step(key_func, vec1@, vec2@, i + 1, t as int);
                }
                let ghost pre1 = vec1@;
                let ghost pre2 = vec2@;
                swap_elems(vec1, t, p);
                swap_elems(vec2, t, p);
                proof {
                    let np = swapped(perm, t as int, p as int);
                    assert forall|j: int| 0 <= j < np.len() implies #[trigger] vec1@[j] == o1[np[j]] && vec2@[j] == o2[np[j]] by {
                        assert(pre1[j] == o1[perm[j]]);
                        assert(pre1[t as int] == o1[perm[t as int]]);
                        assert(pre1[p as int] == o1[perm[p as int]]);
                    }
                    assert forall|a: int, b: int| 0 <= a < b < length implies #[trigger] np[a] != #[trigger] np[b] by {
                        assert(perm[a] != perm[b]);
                        assert(perm[a] != perm[t as int] || a == t);
                        assert(perm[b] != perm[p as int] || b == p);
                        if a == t || a == p || b == t || b == p {
                            assert(perm[t as int] != perm[p as int]);
                        }
                    }
                    perm = np;
                }
                t = p;
            } else {
                // done sifting up
                proof {
                    assert forall|a: int, c: int|
                        #![trigger key_at(key_func, vec1@, vec2@, a), key_at(key_func, vec1@, vec2@, c)]
                        0 <= a && c < i + 1 && (c == 2 * a + 1 || c == 2 * a + 2) && a != -1 && c != -1 implies !key_lt(
                            key_at(key_func, vec1@, vec2@, a),
                            key_at(key_func, vec1@, vec2@, c),
                        ) by {
                        if c == t {
                            assert(a == p);
                        }
                    }
                }
                break;
            }
        }
        i += 1;
    }
    proof {
        if length > 0 {
            assert(i == length);
        }
    }

    // pop max element off and place after heap one by one
    let mut i: usize = length;
    while i > 1
        invariant
            i <= length,
            length <= isize::MAX,
            vec1.len() == length,
            vec2.len() == length,
            lawful_order::<K>(),
            forall|a: &T1, b: &T2| call_requires(key_func, (a, b)),
            deterministic(key_func),
            heap_but(key_func, vec1@, vec2@, i as int, -1, -1),
            forall|a: int, b: int|
                i <= a < b < length ==> !key_lt(
                    #[trigger] key_at(key_func, vec1@, vec2@, b),
                    #[trigger] key_at(key_func, vec1@, vec2@, a),
                ),
            forall|j: int, m: int|
                0 <= j < i <= m < length ==> !key_lt(
                    #[trigger] key_at(key_func, vec1@, vec2@, m),
                    #[trigger] key_at(key_func, vec1@, vec2@, j),
                ),
            is_permutation(perm, length as nat),
            reordered(vec1@, vec2@, o1, o2, perm),
        decreases i,
    {
        i -= 1;

        // swap root (max) with target element at the end of the heap range
        let ghost pre1 = vec1@;
        let ghost pre2 = vec2@;
        proof {
            assert forall|j: int| 0 <= j <= i implies !key_lt(
                key_at(key_func, pre1, pre2, 0),
                #[trigger] key_at(key_func, pre1, pre2, j),
            ) by {
                lemma_heap_root(key_func, pre1, pre2, i + 1, j);
            }
        }
        swap_elems(vec1, 0, i);
        swap_elems(vec2, 0, i);
        proof {
            let np = swapped(perm, 0, i as int);
            let k = |x: int| key_at(key_func, pre1, pre2, x);
            assert forall|x: int| 0 <= x < length implies #[trigger] key_at(key_func, vec1@, vec2@, x) == if x == 0 {
                k(i as int)
            } else if x == i {
                k(0)
            } else {
                k(x)
            } by {}
            assert forall|j: int| 0 <= j < np.len() implies #[trigger] vec1@[j] == o1[np[j]] && vec2@[j] == o2[np[j]] by {
                assert(pre1[j] == o1[perm[j]]);
                assert(pre1[0] == o1[perm[0]]);
                assert(pre1[i as int] == o1[perm[i as int]]);
            }
            assert forall|a: int, b: int| 0 <= a < b < length implies #[trigger] np[a] != #[trigger] np[b] by {
                assert(perm[a] != perm[b]);
                if a == 0 || a == i || b == 0 || b == i {
                    assert(perm[0] != perm[i as int]);
                    assert(perm[a] != perm[i as int] || a == i);
                    assert(perm[b] != perm[0] || b == 0);
                }
            }
            perm = np;
            assert forall|a: int, b: int|
                i <= a < b < length implies !key_lt(
                    #[trigger] key_at(key_func, vec1@, vec2@, b),
                    #[trigger] key_at(key_func, vec1@, vec2@, a),
                ) by {
                if a == i {
                    assert(!key_lt(k(b), k(0)));
                } else {
                    assert(!key_lt(k(b), k(a)));
                }
            }
            assert forall|j: int, m: int|
                0 <= j < i <= m < length implies !key_lt(
                    #[trigger] key_at(key_func, vec1@, vec2@, m),
                    #[trigger] key_at(key_func, vec1@, vec2@, j),
                ) by {
                let kj = if j == 0 { k(i as int) } else { k(j) };
                let jj = if j == 0 { i as int } else { j };
                assert(!key_lt(k(0), kj));
                if m == i {
                } else {
                    assert(!key_lt(k(m), k(0)));
                }
            }
            assert forall|a: int, c: int|
                #![trigger key_at(key_func, vec1@, vec2@, a), key_at(key_func, vec1@, vec2@, c)]
                0 <= a && c < i && (c == 2 * a + 1 || c == 2 * a + 2) && a != 0 && c != -1 implies !key_lt(
                    key_at(key_func, vec1@, vec2@, a),
                    key_at(key_func, vec1@, vec2@, c),
                ) by {
                assert(!key_lt(k(a), k(c)));
            }
        }

        // indices `i` and beyond are now outside of the heap
        let heap_length = i;

        // sift target element down
        let mut t: usize = 0;
        let t_key = key_func(&vec1[t], &vec2[t]);
        proof {
            lemma_key_call(key_func, vec1@[0], vec2@[0], t_key);
        }
        loop
            invariant
                0 <= t < heap_length,
                heap_length == i,
                1 <= i < length,
                length <= isize::MAX,
                vec1.len() == length,
                vec2.len() == length,
                lawful_order::<K>(),
                forall|a: &T1, b: &T2| call_requires(key_func, (a, b)),
                deterministic(key_func),
                heap_but(key_func, vec1@, vec2@, i as int, t as int, -1),
                t > 0 ==> forall|c: int| c < i && (c == 2 * t + 1 || c == 2 * t + 2) ==> !key_lt(
                    key_at(key_func, vec1@, vec2@, (t - 1) / 2),
                    #[trigger] key_at(key_func, vec1@, vec2@, c),
                ),
                key_at(key_func, vec1@, vec2@, t as int) == t_key,
                forall|a: int, b: int|
                    i <= a < b < length ==> !key_lt(
                        #[trigger] key_at(key_func, vec1@, vec2@, b),
                        #[trigger] key_at(key_func, vec1@, vec2@, a),
                    ),
                forall|j: int, m: int|
                    0 <= j < i <= m < length ==> !key_lt(
                        #[trigger] key_at(key_func, vec1@, vec2@, m),
                        #[trigger] key_at(key_func, vec1@, vec2@, j),
                    ),
                is_permutation(perm, length as nat),
                reordered(vec1@, vec2@, o1, o2, perm),
            ensures
                heap_but(key_func, vec1@, vec2@, i as int, -1, -1),
                forall|a: int, b: int|
                    i <= a < b < length ==> !key_lt(
                        #[trigger] key_at(key_func, vec1@, vec2@, b),
                        #[trigger] key_at(key_func, vec1@, vec2@, a),
                    ),
                forall|j: int, m: int|
                    0 <= j < i <= m < length ==> !key_lt(
                        #[trigger] key_at(key_func, vec1@, vec2@, m),
                        #[trigger] key_at(key_func, vec1@, vec2@, j),
                    ),
                is_permutation(perm, length as nat),
                reordered(vec1@, vec2@, o1, o2, perm),
                vec1.len() == length,
                vec2.len() == length,
            decreases heap_length - t,
        {
            proof {
                lemma_key_total::<K>();
                crate::util::key_order::lemma_key_order::<K>();
            }
            let cl = 2 * t + 1;
            let cr = 2 * t + 2;
            let mut s = t;

            // case: has both children
            if cr < heap_length {
                let cl_key = key_func(&vec1[cl], &vec2[cl]);
                let cr_key = key_func(&vec1[cr], &vec2[cr]);
                proof {
                    lemma_key_call(key_func, vec1@[cl as int], vec2@[cl as int], cl_key);
                    lemma_key_call(key_func, vec1@[cr as int], vec2@[cr as int], cr_key);
                }
                if gt_keys(&cl_key, &t_key) {
                    if ge_keys(&cl_key, &cr_key) {
                        s = cl;  // swap with left child
                    } else {
                        s = cr;  // swap with right child (greater transitively)
                    }
                } else if gt_keys(&cr_key, &t_key) {
                    s = cr;  // swap with right child
                }
            }
            // case: has only left child
            else if cl < heap_length {
                let cl_key = key_func(&vec1[cl], &vec2[cl]);
                proof {
                    lemma_key_call(key_func, vec1@[cl as int], vec2@[cl as int], cl_key);
                }
                if gt_keys(&cl_key, &t_key) {
                    s = cl;  // swap with left child
                }
            }

            // target is no less than its children (or has none): done sifting
            if s == t {
                proof {
                    assert forall|a: int, c: int|
                        #![trigger key_at(key_func, vec1@, vec2@, a), key_at(key_func, vec1@, vec2@, c)]
                        0 <= a && c < i && (c == 2 * a + 1 || c == 2 * a + 2) && a != -1 && c != -1 implies !key_lt(
                            key_at(key_func, vec1@, vec2@, a),
                            key_at(key_func, vec1@, vec2@, c),
                        ) by {
                    }
                }
                break;
            }

            // swap target element with the chosen child
            proof {
                lemma_sift_down_step(key_func, vec1@, vec2@, i as int, t as int, s as int);
            }
            let ghost pre1 = vec1@;
            let ghost pre2 = vec2@;
            swap_elems(vec1, t, s);
            swap_elems(vec2, t, s);
            proof {
                let np = swapped(perm, t as int, s as int);
                let k = |x: int| key_at(key_func, pre1, pre2, x);
                assert forall|j: int| 0 <= j < np.len() implies #[trigger] vec1@[j] == o1[np[j]] && vec2@[j] == o2[np[j]] by {
                    assert(pre1[j] == o1[perm[j]]);
                    assert(pre1[t as int] == o1[perm[t as int]]);
                    assert(pre1[s as int] == o1[perm[s as int]]);
                }
                assert forall|a: int, b: int| 0 <= a < b < length implies #[trigger] np[a] != #[trigger] np[b] by {
                    assert(perm[a] != perm[b]);
                    if a == t || a == s || b == t || b == s {
                        assert(perm[t as int] != perm[s as int]);
                        assert(perm[a] != perm[s as int] || a == s);
                        assert(perm[b] != perm[t as int] || b == t);
                    }
                }
                perm = np;
                assert forall|a: int, b: int|
                    i <= a < b < length implies !key_lt(
                        #[trigger] key_at(key_func, vec1@, vec2@, b),
                        #[trigger] key_at(key_func, vec1@, vec2@, a),
                    ) by {
                    assert(!key_lt(k(b), k(a)));
                }
                assert forall|j: int, m: int|
                    0 <= j < i <= m < length implies !key_lt(
                        #[trigger] key_at(key_func, vec1@, vec2@, m),
                        #[trigger] key_at(key_func, vec1@, vec2@, j),
                    ) by {
                    let jj = if j == t { s as int } else if j == s { t as int } else { j };
                    assert(!key_lt(k(m), k(jj)));
                }
            }
            t = s;
        }
    }
    proof {
        assert(is_permutation(perm, length as nat));
        assert forall|a: int, b: int|
            0 <= a < b < vec1@.len() implies !key_lt(
                #[trigger] key_at(key_func, vec1@, vec2@, b),
                #[trigger] key_at(key_func, vec1@, vec2@, a),
            ) by {
            if a == 0 && i == 1 {
            }
        }
        assert forall|x: int, y: int, kx: K, ky: K|
            0 <= x < y < vec1.len() && #[trigger] call_ensures(key_func, (&vec1@[x], &vec2@[x]), kx)
                && #[trigger] call_ensures(key_func, (&vec1@[y], &vec2@[y]), ky) implies !key_lt(ky, kx) by {
            lemma_key_call(key_func, vec1@[x], vec2@[x], kx);
            lemma_key_call(key_func, vec1@[y], vec2@[y], ky);
            assert(!key_lt(key_at(key_func, vec1@, vec2@, y), key_at(key_func, vec1@, vec2@, x)));
        }
    }
}

} // verus!
