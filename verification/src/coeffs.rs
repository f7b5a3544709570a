//! Coefficient lists: the representation of an affine coefficient mapping
//! as an ordered list of `(variable identity, scalar)` pairs with distinct
//! keys, in first-appearance order. The list's meaning at a point is its
//! wrapping dot product with the point, `list_dot`.

use vstd::prelude::*;
use crate::scalar::{wadd, wmul, lemma_wadd_zero, lemma_wmul_unit, lemma_wadd_assoc,
    lemma_wmul_assoc, lemma_wmul_distrib};

verus! {

/// The keys of a coefficient list, in order.
pub open spec fn key_seq(a: Seq<(u64, i64)>) -> Seq<u64> {
    a.map_values(|kv: (u64, i64)| kv.0)
}

/// True iff no key occurs twice.
pub open spec fn distinct(ks: Seq<u64>) -> bool {
    forall|i: int, j: int| 0 <= i < j < ks.len() ==> ks[i] != ks[j]
}

/// The value of a coefficient list at the point `p`: the wrapping sum of
/// `coefficient * p[key]` over its entries.
pub open spec fn list_dot(a: Seq<(u64, i64)>, p: Map<u64, i64>) -> i64
    decreases a,
{
    if a.len() == 0 {
        0
    } else {
        wadd(wmul(a[0].1, p[a[0].0]), list_dot(a.drop_first(), p))
    }
}

/// The key order that merging produces: keys of the left list keep their
/// positions, new keys of the right list are appended in their order.
pub open spec fn merge_keys(k1: Seq<u64>, k2: Seq<u64>) -> Seq<u64>
    decreases k2,
{
    if k2.len() == 0 {
        k1
    } else {
        merge_keys(
            if k1.contains(k2[0]) {
                k1
            } else {
                k1.push(k2[0])
            },
            k2.drop_first(),
        )
    }
}

/// Appending an entry adds its term to the value.
pub proof fn lemma_list_dot_push(a: Seq<(u64, i64)>, k: u64, v: i64, p: Map<u64, i64>)
    ensures
        list_dot(a.push((k, v)), p) == wadd(list_dot(a, p), wmul(v, p[k])),
    decreases a,
{
    if a.len() == 0 {
        assert(a.push((k, v)).drop_first() =~= Seq::<(u64, i64)>::empty());
        assert(a.push((k, v))[0] == (k, v));
        assert(list_dot(Seq::<(u64, i64)>::empty(), p) == 0);
        assert(list_dot(a, p) == 0);
        lemma_wadd_zero(wmul(v, p[k]));
        lemma_wadd_zero(list_dot(a, p));
        lemma_wadd_assoc(0, wmul(v, p[k]), 0);
    } else {
        assert(a.push((k, v)).drop_first() =~= a.drop_first().push((k, v)));
        lemma_list_dot_push(a.drop_first(), k, v, p);
        lemma_wadd_assoc(wmul(a[0].1, p[a[0].0]), list_dot(a.drop_first(), p), wmul(v, p[k]));
    }
}

/// Adding `w` into the entry at position `i` adds its term to the value.
pub proof fn lemma_list_dot_update(a: Seq<(u64, i64)>, i: int, w: i64, p: Map<u64, i64>)
    requires
        0 <= i < a.len(),
    ensures
        list_dot(a.update(i, (a[i].0, wadd(a[i].1, w))), p) == wadd(
            list_dot(a, p),
            wmul(w, p[a[i].0]),
        ),
    decreases a,
{
    let k = a[i].0;
    let b = a.update(i, (k, wadd(a[i].1, w)));
    if i == 0 {
        assert(b.drop_first() =~= a.drop_first());
        lemma_wmul_distrib(p[k], a[0].1, w);
        lemma_wmul_assoc(a[0].1, p[k], 1);
        lemma_wmul_assoc(wadd(a[0].1, w), p[k], 1);
        lemma_wmul_assoc(w, p[k], 1);
        assert(wmul(wadd(a[0].1, w), p[k]) == wadd(wmul(a[0].1, p[k]), wmul(w, p[k]))) by {
            assert(wmul(p[k], wadd(a[0].1, w)) == wadd(wmul(p[k], a[0].1), wmul(p[k], w)));
            lemma_wmul_assoc(p[k], a[0].1, 1);
            lemma_wmul_assoc(p[k], w, 1);
        }
        lemma_wadd_assoc(wmul(a[0].1, p[k]), wmul(w, p[k]), list_dot(a.drop_first(), p));
        lemma_wadd_assoc(wmul(w, p[k]), list_dot(a.drop_first(), p), 0);
        lemma_wadd_assoc(wmul(a[0].1, p[k]), list_dot(a.drop_first(), p), wmul(w, p[k]));
    } else {
        assert(b.drop_first() =~= a.drop_first().update(i - 1, (a[i].0, wadd(a[i].1, w))));
        assert(a.drop_first()[i - 1] == a[i]);
        lemma_list_dot_update(a.drop_first(), i - 1, w, p);
        lemma_wadd_assoc(wmul(a[0].1, p[a[0].0]), list_dot(a.drop_first(), p), wmul(w, p[k]));
    }
}

/// Finds the position of a key in a coefficient list.
pub fn find_key(a: &Vec<(u64, i64)>, k: u64) -> (r: Option<usize>)
    ensures
        match r {
            Some(i) => i < a@.len() && a@[i as int].0 == k && key_seq(a@).contains(k),
            None => !key_seq(a@).contains(k),
        },
{
    let mut i: usize = 0;
    while i < a.len()
        invariant
            i <= a@.len(),
            forall|j: int| 0 <= j < i ==> a@[j].0 != k,
        decreases a@.len() - i,
    {
        if a[i].0 == k {
            proof {
                assert(key_seq(a@)[i as int] == k);
            }
            return Some(i);
        }
        i += 1;
    }
    proof {
        assert forall|j: int| 0 <= j < key_seq(a@).len() implies key_seq(a@)[j] != k by {
            assert(key_seq(a@)[j] == a@[j].0);
        }
    }
    None
}

/// Merges `src` into `dst`, summing the coefficients of shared keys and
/// appending new keys in their order. The merged value at every point is
/// the wrapping sum of the two values.
#[verifier::rlimit(50)]
pub fn merge_add(dst: &mut Vec<(u64, i64)>, src: &Vec<(u64, i64)>)
    requires
        distinct(key_seq(old(dst)@)),
        distinct(key_seq(src@)),
    ensures
        distinct(key_seq(final(dst)@)),
        key_seq(final(dst)@) == merge_keys(key_seq(old(dst)@), key_seq(src@)),
        forall|p: Map<u64, i64>| #[trigger] list_dot(final(dst)@, p) == wadd(
            list_dot(old(dst)@, p),
            list_dot(src@, p),
        ),
{
    let ghost d0 = dst@;
    proof {
        assert(key_seq(src@).skip(0) =~= key_seq(src@));
        assert(src@.skip(0) =~= src@);
    }
    let mut i: usize = 0;
    while i < src.len()
        invariant
            i <= src@.len(),
            distinct(key_seq(dst@)),
            distinct(key_seq(src@)),
            merge_keys(key_seq(dst@), key_seq(src@).skip(i as int)) == merge_keys(
                key_seq(d0),
                key_seq(src@),
            ),
            forall|p: Map<u64, i64>| #[trigger] wadd(
                list_dot(dst@, p),
                list_dot(src@.skip(i as int), p),
            ) == wadd(list_dot(d0, p), list_dot(src@, p)),
        decreases src@.len() - i,
    {
        let ghost pre = dst@;
        let (k, v) = src[i];
        proof {
            assert(src@.skip(i as int)[0] == src@[i as int]);
            assert(src@.skip(i as int).drop_first() =~= src@.skip(i as int + 1));
            assert(key_seq(src@.skip(i as int)) =~= key_seq(src@).skip(i as int));
            assert(key_seq(src@).skip(i as int)[0] == key_seq(src@)[i as int]);
            assert(key_seq(src@)[i as int] == k);
            assert(key_seq(src@).skip(i as int).drop_first() =~= key_seq(src@).skip(i as int + 1));
        }
        match find_key(dst, k) {
            Some(j) => {
                let cur = dst[j].1;
                dst[j] = (k, cur.wrapping_add(v));
                proof {
                    assert(dst@ == pre.update(j as int, (k, wadd(pre[j as int].1, v))));
                    assert(key_seq(dst@) =~= key_seq(pre));
                    assert(key_seq(pre).contains(k));
                    assert(merge_keys(key_seq(pre), key_seq(src@).skip(i as int)) == merge_keys(
                        key_seq(pre),
                        key_seq(src@).skip(i as int + 1),
                    ));
                    assert(src@.skip(i as int)[0] == (k, v));
                    assert forall|p: Map<u64, i64>| #[trigger] wadd(
                        list_dot(dst@, p),
                        list_dot(src@.skip(i as int + 1), p),
                    ) == wadd(list_dot(d0, p), list_dot(src@, p)) by {
                        lemma_list_dot_update(pre, j as int, v, p);
                        let rest = list_dot(src@.skip(i as int + 1), p);
                        assert(src@.skip(i as int).len() > 0);
                        assert(list_dot(src@.skip(i as int), p) == wadd(wmul(v, p[k]), rest));
                        lemma_wadd_assoc(list_dot(pre, p), wmul(v, p[k]), rest);
                    }
                }
            },
            None => {
                dst.push((k, v));
                proof {
                    assert(key_seq(dst@) =~= key_seq(pre).push(k));
                    assert(!key_seq(pre).contains(k));
                    assert(merge_keys(key_seq(pre), key_seq(src@).skip(i as int)) == merge_keys(
                        key_seq(pre).push(k),
                        key_seq(src@).skip(i as int + 1),
                    ));
                    assert(src@.skip(i as int)[0] == (k, v));
                    assert(distinct(key_seq(dst@))) by {
                        assert forall|x: int, y: int|
                            0 <= x < y < key_seq(dst@).len() implies key_seq(dst@)[x] != key_seq(
                            dst@,
                        )[y] by {
                            if y == key_seq(dst@).len() - 1 {
                                assert(key_seq(pre)[x] == key_seq(dst@)[x]);
                                if key_seq(dst@)[x] == k {
                                    assert(key_seq(pre).contains(k));
                                }
                            }
                        }
                    }
                    assert forall|p: Map<u64, i64>| #[trigger] wadd(
                        list_dot(dst@, p),
                        list_dot(src@.skip(i as int + 1), p),
                    ) == wadd(list_dot(d0, p), list_dot(src@, p)) by {
                        lemma_list_dot_push(pre, k, v, p);
                        let rest = list_dot(src@.skip(i as int + 1), p);
                        assert(src@.skip(i as int).len() > 0);
                        assert(list_dot(src@.skip(i as int), p) == wadd(wmul(v, p[k]), rest));
                        lemma_wadd_assoc(list_dot(pre, p), wmul(v, p[k]), rest);
                    }
                }
            },
        }
        i += 1;
    }
    proof {
        assert(src@.skip(src@.len() as int) =~= Seq::<(u64, i64)>::empty());
        assert(key_seq(src@).skip(src@.len() as int) =~= Seq::<u64>::empty());
        assert forall|p: Map<u64, i64>| #[trigger] list_dot(dst@, p) == wadd(
            list_dot(d0, p),
            list_dot(src@, p),
        ) by {
            assert(wadd(list_dot(dst@, p), list_dot(src@.skip(i as int), p)) == wadd(
                list_dot(d0, p),
                list_dot(src@, p),
            ));
            assert(list_dot(Seq::<(u64, i64)>::empty(), p) == 0);
            lemma_wadd_zero(list_dot(dst@, p));
        }
    }
}

/// A copy of the list with every coefficient multiplied by `c`; the keys
/// and their order are kept, and the value at every point is scaled by `c`.
pub fn scale_list(a: &Vec<(u64, i64)>, c: i64) -> (r: Vec<(u64, i64)>)
    ensures
        key_seq(r@) == key_seq(a@),
        forall|p: Map<u64, i64>| #[trigger] list_dot(r@, p) == wmul(c, list_dot(a@, p)),
{
    let mut r: Vec<(u64, i64)> = Vec::new();
    proof {
        assert(a@.skip(0) =~= a@);
        assert forall|p: Map<u64, i64>| #[trigger] wadd(
            list_dot(r@, p),
            wmul(c, list_dot(a@.skip(0), p)),
        ) == wmul(c, list_dot(a@, p)) by {
            crate::scalar::lemma_wadd_zero(wmul(c, list_dot(a@, p)));
        }
    }
    let mut i: usize = 0;
    while i < a.len()
        invariant
            i <= a@.len(),
            r@.len() == i,
            forall|j: int| 0 <= j < i ==> r@[j] == (a@[j].0, wmul(c, a@[j].1)),
            forall|p: Map<u64, i64>| #[trigger] wadd(
                list_dot(r@, p),
                wmul(c, list_dot(a@.skip(i as int), p)),
            ) == wmul(c, list_dot(a@, p)),
        decreases a@.len() - i,
    {
        let ghost pre = r@;
        let (k, v) = a[i];
        r.push((k, c.wrapping_mul(v)));
        proof {
            assert(a@.skip(i as int)[0] == (k, v));
            assert(a@.skip(i as int).drop_first() =~= a@.skip(i as int + 1));
            assert forall|p: Map<u64, i64>| #[trigger] wadd(
                list_dot(r@, p),
                wmul(c, list_dot(a@.skip(i as int + 1), p)),
            ) == wmul(c, list_dot(a@, p)) by {
                lemma_list_dot_push(pre, k, wmul(c, v), p);
                let rest = list_dot(a@.skip(i as int + 1), p);
                assert(a@.skip(i as int).len() > 0);
                assert(list_dot(a@.skip(i as int), p) == wadd(wmul(v, p[k]), rest));
                lemma_wmul_distrib(c, wmul(v, p[k]), rest);
                lemma_wmul_assoc(c, v, p[k]);
                lemma_wadd_assoc(list_dot(pre, p), wmul(wmul(c, v), p[k]), wmul(c, rest));
            }
        }
        i += 1;
    }
    proof {
        assert(key_seq(r@) =~= key_seq(a@));
        assert(a@.skip(a@.len() as int) =~= Seq::<(u64, i64)>::empty());
        assert forall|p: Map<u64, i64>| #[trigger] list_dot(r@, p) == wmul(c, list_dot(a@, p)) by {
            assert(wadd(list_dot(r@, p), wmul(c, list_dot(a@.skip(i as int), p))) == wmul(
                c,
                list_dot(a@, p),
            ));
            assert(list_dot(Seq::<(u64, i64)>::empty(), p) == 0);
            lemma_wmul_unit(c);
            lemma_wadd_zero(list_dot(r@, p));
        }
    }
    r
}

} // verus!
