use vstd::prelude::*;
use crate::util::key_order::{lawful_partial_order, pkey_lt, pkey_eq, lt_partial, eq_partial, lemma_lt_not_eq};

verus! {

/// `key_func` gives the same argument the same key every time.
pub open spec fn deterministic_key<T, K, FK: Fn(&T) -> K>(key_func: FK) -> bool {
    forall|x: &T, k1: K, k2: K|
        #[trigger] call_ensures(key_func, (x,), k1) && #[trigger] call_ensures(key_func, (x,), k2) ==> k1 == k2
}

/// The keys that `key_func` gives the items of `s` never decrease along `s`:
/// of two items, the later one's key is above or equal to the earlier one's.
pub open spec fn sorted_by_key<T, K: PartialOrd, FK: Fn(&T) -> K>(key_func: FK, s: Seq<T>) -> bool {
    forall|a: int, b: int, ka: K, kb: K|
        0 <= a < b < s.len() && #[trigger] call_ensures(key_func, (&s[a],), ka) && #[trigger] call_ensures(
            key_func,
            (&s[b],),
            kb,
        ) ==> pkey_lt(ka, kb) || pkey_eq(ka, kb)
}

/// No key that `key_func` gives `x` equals a key it gives an item of `s`.
pub open spec fn key_absent<T, K: PartialOrd, FK: Fn(&T) -> K>(key_func: FK, x: T, s: Seq<T>) -> bool {
    forall|j: int, kx: K, ky: K|
        0 <= j < s.len() && #[trigger] call_ensures(key_func, (&x,), kx) && #[trigger] call_ensures(
            key_func,
            (&s[j],),
            ky,
        ) ==> !pkey_eq(kx, ky)
}

/// `pos` lists positions below `n` in strictly increasing order.
pub open spec fn ascending_positions(pos: Seq<int>, n: int) -> bool {
    &&& forall|j: int| 0 <= j < pos.len() ==> 0 <= #[trigger] pos[j] < n
    &&& forall|a: int, b: int| 0 <= a < b < pos.len() ==> #[trigger] pos[a] < #[trigger] pos[b]
}

/// `out` holds, in order, what `result_func` gave for the items of `s` at the positions `pos`.
pub open spec fn outputs_of<T, R, FR: Fn(&T) -> R>(result_func: FR, s: Seq<T>, pos: Seq<int>, out: Seq<R>) -> bool {
    &&& out.len() == pos.len()
    &&& forall|j: int| 0 <= j < pos.len() ==> 0 <= #[trigger] pos[j] < s.len()
    &&& forall|j: int| 0 <= j < pos.len() ==> call_ensures(result_func, (&s[pos[j]],), #[trigger] out[j])
}

/// Some item of `pos` is `i`.
pub open spec fn holds_position(pos: Seq<int>, i: int) -> bool {
    exists|m: int| 0 <= m < pos.len() && pos[m] == i
}

/// For lists sorted by key, the items of `list1` whose keys are not in
/// `list2`, in their order in `list1` and passed through `result_func`: a
/// merge walk over both lists.
///
/// Whatever the lists, the result comes from items of `list1` in their order;
/// when `list2` is empty it is every item of `list1`.
#[verifier::rlimit(40)]
pub fn sorted_list_setminus_keyed<T, K, R, FK, FR>(
    list1: &Vec<T>,
    list2: &Vec<T>,
    key_func: FK,
    result_func: FR,
) -> (result: Vec<R>)
    where K: PartialOrd, FK: Fn(&T) -> K, FR: Fn(&T) -> R,
    requires
        lawful_partial_order::<K>(),
        forall|x: &T| call_requires(key_func, (x,)),
        forall|x: &T| call_requires(result_func, (x,)),
        deterministic_key(key_func),
    ensures
        exists|pos: Seq<int>|
            {
                &&& ascending_positions(pos, list1.len() as int)
                &&& outputs_of(result_func, list1@, pos, result@)
                &&& (list2.len() == 0 || (sorted_by_key(key_func, list1@) && sorted_by_key(key_func, list2@)))
                    ==> forall|i: int|
                    0 <= i < list1.len() ==> (#[trigger] holds_position(pos, i) <==> key_absent(
                        key_func,
                        list1@[i],
                        list2@,
                    ))
            },
{
    let mut result: Vec<R> = Vec::new();
    let ghost mut done: Seq<int> = Seq::empty();
    if list2.len() == 0 {
        let mut i: usize = 0;
        while i < list1.len()
            invariant
                0 <= i <= list1.len(),
                done.len() == i,
                forall|j: int| 0 <= j < i ==> #[trigger] done[j] == j,
                outputs_of(result_func, list1@, done, result@),
                forall|x: &T| call_requires(result_func, (x,)),
            decreases list1.len() - i,
        {
            let r = result_func(&list1[i]);
            result.push(r);
            proof {
                let d0 = done;
                done = done.push(i as int);
                assert forall|j: int| 0 <= j < done.len() implies call_ensures(
                    result_func,
                    (&list1@[done[j]],),
                    #[trigger] result@[j],
                ) by {
                    if j < d0.len() {
                        assert(done[j] == d0[j]);
                    }
                }
            }
            i += 1;
        }
        proof {
            assert forall|i: int| 0 <= i < list1.len() implies #[trigger] holds_position(done, i) by {
                assert(done[i] == i);
            }
            assert(ascending_positions(done, list1.len() as int));
        }
        return result;
    }

    let ghost srt = sorted_by_key(key_func, list1@) && sorted_by_key(key_func, list2@);
    let mut i1: usize = 0;
    let mut i2: usize = 0;
    while i1 < list1.len()
        invariant
            lawful_partial_order::<K>(),
            forall|x: &T| call_requires(key_func, (x,)),
            forall|x: &T| call_requires(result_func, (x,)),
            deterministic_key(key_func),
            srt == (sorted_by_key(key_func, list1@) && sorted_by_key(key_func, list2@)),
            list2.len() > 0,
            0 <= i1 <= list1.len(),
            0 <= i2 <= list2.len(),
            forall|j: int| 0 <= j < done.len() ==> #[trigger] done[j] < i1,
            ascending_positions(done, list1.len() as int),
            outputs_of(result_func, list1@, done, result@),
            srt ==> forall|i: int|
                0 <= i < i1 ==> (#[trigger] holds_position(done, i) <==> key_absent(key_func, list1@[i], list2@)),
            // the keys of `list2` passed over lie below the keys of `list1` still to come
            srt ==> forall|j: int, m: int, kb: K, km: K|
                0 <= j < i2 && i1 <= m < list1.len() && #[trigger] call_ensures(key_func, (&list2@[j],), kb)
                    && #[trigger] call_ensures(key_func, (&list1@[m],), km) ==> pkey_lt(kb, km),
        decreases list1.len() - i1,
    {
        let k1 = key_func(&list1[i1]);
        let ghost i2_start = i2 as int;

        // pass over the items of `list2` whose keys lie below `k1`
        loop
            invariant
                lawful_partial_order::<K>(),
                forall|x: &T| call_requires(key_func, (x,)),
                deterministic_key(key_func),
                srt == (sorted_by_key(key_func, list1@) && sorted_by_key(key_func, list2@)),
                call_ensures(key_func, (&list1@[i1 as int],), k1),
                0 <= i1 < list1.len(),
                i2_start <= i2 <= list2.len(),
                srt ==> forall|j: int, m: int, kb: K, km: K|
                    0 <= j < i2 && i1 <= m < list1.len() && #[trigger] call_ensures(key_func, (&list2@[j],), kb)
                        && #[trigger] call_ensures(key_func, (&list1@[m],), km) ==> pkey_lt(kb, km),
            ensures
                i2_start <= i2 <= list2.len(),
                srt ==> forall|j: int, m: int, kb: K, km: K|
                    0 <= j < i2 && i1 <= m < list1.len() && #[trigger] call_ensures(key_func, (&list2@[j],), kb)
                        && #[trigger] call_ensures(key_func, (&list1@[m],), km) ==> pkey_lt(kb, km),
                i2 < list2.len() ==> forall|kb: K| #[trigger] call_ensures(key_func, (&list2@[i2 as int],), kb)
                    ==> !pkey_lt(kb, k1),
            decreases list2.len() - i2,
        {
            if i2 >= list2.len() {
                break;
            }
            let k2 = key_func(&list2[i2]);
            if lt_partial(&k2, &k1) {
                proof {
                    if srt {
                        assert forall|j: int, m: int, kb: K, km: K|
                            0 <= j < i2 + 1 && i1 <= m < list1.len() && #[trigger] call_ensures(key_func, (&list2@[j],), kb)
                                && #[trigger] call_ensures(key_func, (&list1@[m],), km) implies pkey_lt(kb, km) by {
                            if j == i2 {
                                assert(kb == k2);
                                if m > i1 {
                                    assert(pkey_lt(k1, km) || pkey_eq(k1, km));
                                }
                            }
                        }
                    }
                }
                i2 += 1;
            } else {
                break;
            }
        }

        let mut found = false;
        if i2 < list2.len() {
            let k2 = key_func(&list2[i2]);
            found = eq_partial(&k2, &k1);
            proof {
                if found {
                    assert(pkey_eq(k1, k2));
                    assert(!key_absent(key_func, list1@[i1 as int], list2@));
                } else if srt {
                    assert(!pkey_lt(k2, k1));
                    assert forall|j: int, kx: K, ky: K|
                        0 <= j < list2.len() && #[trigger] call_ensures(key_func, (&list1@[i1 as int],), kx)
                            && #[trigger] call_ensures(key_func, (&list2@[j],), ky) implies !pkey_eq(kx, ky) by {
                        assert(kx == k1);
                        if j < i2 {
                            lemma_lt_not_eq(ky, k1);
                        } else if j == i2 {
                            assert(ky == k2);
                        } else {
                            assert(pkey_lt(k2, ky) || pkey_eq(k2, ky));
                            if pkey_eq(k1, ky) {
                                assert(pkey_eq(ky, k1));
                            }
                        }
                    }
                }
            }
        } else {
            proof {
                if srt {
                    assert forall|j: int, kx: K, ky: K|
                        0 <= j < list2.len() && #[trigger] call_ensures(key_func, (&list1@[i1 as int],), kx)
                            && #[trigger] call_ensures(key_func, (&list2@[j],), ky) implies !pkey_eq(kx, ky) by {
                        assert(kx == k1);
                        lemma_lt_not_eq(ky, k1);
                    }
                }
            }
        }

        let ghost d0 = done;
        if !found {
            // found an item in list1 not in list2
            let r = result_func(&list1[i1]);
            result.push(r);
            proof {
                done = done.push(i1 as int);
                assert forall|j: int| 0 <= j < done.len() implies call_ensures(
                    result_func,
                    (&list1@[done[j]],),
                    #[trigger] result@[j],
                ) by {
                    if j < d0.len() {
                        assert(done[j] == d0[j]);
                    }
                }
                assert(done[d0.len() as int] == i1);
            }
        }
        proof {
            assert forall|i: int| 0 <= i < i1 + 1 implies (#[trigger] holds_position(done, i) <==> holds_position(d0, i)
                || (i == i1 && !found)) by {
                if holds_position(done, i) {
                    let m = choose|m: int| 0 <= m < done.len() && done[m] == i;
                    if m < d0.len() {
                        assert(d0[m] == i);
                    }
                }
                if holds_position(d0, i) {
                    let m = choose|m: int| 0 <= m < d0.len() && d0[m] == i;
                    assert(done[m] == i);
                }
                if i == i1 && !found {
                    assert(done[d0.len() as int] == i1);
                }
                if holds_position(d0, i) {
                    let m = choose|m: int| 0 <= m < d0.len() && d0[m] == i;
                    assert(d0[m] < i1);
                }
            }
        }
        i1 += 1;
    }
    result
}

} // verus!
