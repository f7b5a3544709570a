//! Problem assembly: resolving variable identities against a caller-supplied
//! ordering, dense gradient vectors, sparse coordinate matrices, and the
//! weighted (Lagrangian-style) combination of Hessians.

use vstd::prelude::*;
use crate::scalar::{wadd, wmul, lemma_wadd_zero, lemma_wadd_assoc, lemma_wmul_unit,
    lemma_wmul_distrib};
use crate::node_std::NodeStdProp;

verus! {

/// An error of problem assembly, distinct from any numeric concern: a
/// variable was referenced that the caller's ordering does not contain.
#[derive(Debug)]
pub enum AssembleError {
    /// The identity that could not be resolved.
    UnknownVariable(u64),
}

/// A sparse matrix in coordinate form: dimensions and `(row, column,
/// value)` triplets. The value at a position is the wrapping sum of the
/// triplets that name it.
pub struct CooMat {
    /// Number of rows.
    pub m: usize,
    /// Number of columns.
    pub n: usize,
    /// The `(row, column, value)` triplets.
    pub triplets: Vec<(usize, usize, i64)>,
}

/// The value a triplet list gives to position `(r, c)`.
pub open spec fn coo_at(ts: Seq<(usize, usize, i64)>, r: int, c: int) -> i64
    decreases ts,
{
    if ts.len() == 0 {
        0
    } else {
        wadd(
            if ts[0].0 == r && ts[0].1 == c {
                ts[0].2
            } else {
                0
            },
            coo_at(ts.drop_first(), r, c),
        )
    }
}

/// True iff every triplet lies inside an `m` by `n` matrix.
pub open spec fn coo_valid(ts: Seq<(usize, usize, i64)>, m: int, n: int) -> bool {
    forall|i: int| 0 <= i < ts.len() ==> (#[trigger] ts[i]).0 < m && ts[i].1 < n
}

/// True iff no position is named by two triplets.
pub open spec fn coo_distinct(ts: Seq<(usize, usize, i64)>) -> bool {
    forall|i: int, j: int|
        0 <= i < j < ts.len() ==> !((#[trigger] ts[i]).0 == (#[trigger] ts[j]).0 && ts[i].1
            == ts[j].1)
}

impl CooMat {
    /// Builds a coordinate matrix from its parts.
    pub fn new(m: usize, n: usize, triplets: Vec<(usize, usize, i64)>) -> (r: CooMat)
        ensures
            r.m == m && r.n == n && r.triplets@ == triplets@,
    {
        CooMat { m, n, triplets }
    }

    /// The value at position `(r, c)`.
    pub open spec fn at(&self, r: int, c: int) -> i64 {
        coo_at(self.triplets@, r, c)
    }
}

/// Appending a triplet adds its value at its position and nothing
/// elsewhere.
proof fn lemma_coo_push(ts: Seq<(usize, usize, i64)>, e: (usize, usize, i64), r: int, c: int)
    ensures
        coo_at(ts.push(e), r, c) == wadd(
            coo_at(ts, r, c),
            if e.0 == r && e.1 == c {
                e.2
            } else {
                0
            },
        ),
    decreases ts,
{
    let v = if e.0 == r && e.1 == c {
        e.2
    } else {
        0
    };
    if ts.len() == 0 {
        assert(ts.push(e).drop_first() =~= Seq::<(usize, usize, i64)>::empty());
        assert(ts.push(e)[0] == e);
        assert(coo_at(Seq::<(usize, usize, i64)>::empty(), r, c) == 0);
        lemma_wadd_zero(v);
        lemma_wadd_assoc(0, v, 0);
    } else {
        assert(ts.push(e).drop_first() =~= ts.drop_first().push(e));
        lemma_coo_push(ts.drop_first(), e, r, c);
        let h = if ts[0].0 == r && ts[0].1 == c {
            ts[0].2
        } else {
            0
        };
        lemma_wadd_assoc(h, coo_at(ts.drop_first(), r, c), v);
    }
}

/// Adding `w` into the triplet at position `i` adds it at that triplet's
/// coordinates and nothing elsewhere.
proof fn lemma_coo_update(ts: Seq<(usize, usize, i64)>, i: int, w: i64, r: int, c: int)
    requires
        0 <= i < ts.len(),
    ensures
        coo_at(ts.update(i, (ts[i].0, ts[i].1, wadd(ts[i].2, w))), r, c) == wadd(
            coo_at(ts, r, c),
            if ts[i].0 == r && ts[i].1 == c {
                w
            } else {
                0
            },
        ),
    decreases ts,
{
    let b = ts.update(i, (ts[i].0, ts[i].1, wadd(ts[i].2, w)));
    let v = if ts[i].0 == r && ts[i].1 == c {
        w
    } else {
        0
    };
    if i == 0 {
        assert(b.drop_first() =~= ts.drop_first());
        let h = if ts[0].0 == r && ts[0].1 == c {
            ts[0].2
        } else {
            0
        };
        if ts[0].0 == r && ts[0].1 == c {
            lemma_wadd_assoc(ts[0].2, w, coo_at(ts.drop_first(), r, c));
            lemma_wadd_assoc(w, coo_at(ts.drop_first(), r, c), 0);
            lemma_wadd_assoc(ts[0].2, coo_at(ts.drop_first(), r, c), w);
        } else {
            lemma_wadd_zero(wadd(h, coo_at(ts.drop_first(), r, c)));
        }
    } else {
        assert(b.drop_first() =~= ts.drop_first().update(
            i - 1,
            (ts[i].0, ts[i].1, wadd(ts[i].2, w)),
        ));
        assert(ts.drop_first()[i - 1] == ts[i]);
        lemma_coo_update(ts.drop_first(), i - 1, w, r, c);
        let h = if ts[0].0 == r && ts[0].1 == c {
            ts[0].2
        } else {
            0
        };
        lemma_wadd_assoc(h, coo_at(ts.drop_first(), r, c), v);
        if !(ts[i].0 == r && ts[i].1 == c) {
            lemma_wadd_zero(coo_at(ts.drop_first(), r, c));
            lemma_wadd_zero(wadd(h, coo_at(ts.drop_first(), r, c)));
        }
    }
}

/// Adds `v` at position `(r, c)` of the accumulator, merging with an
/// existing triplet at that position rather than duplicating it.
fn coo_add_entry(acc: &mut Vec<(usize, usize, i64)>, r: usize, c: usize, v: i64)
    requires
        coo_distinct(old(acc)@),
    ensures
        coo_distinct(final(acc)@),
        forall|rr: int, cc: int| #[trigger] coo_at(final(acc)@, rr, cc) == wadd(
            coo_at(old(acc)@, rr, cc),
            if r == rr && c == cc {
                v
            } else {
                0
            },
        ),
        forall|mm: int, nn: int|
            coo_valid(old(acc)@, mm, nn) && r < mm && c < nn ==> coo_valid(final(acc)@, mm, nn),
{
    let ghost pre = acc@;
    let mut i: usize = 0;
    while i < acc.len()
        invariant
            i <= acc@.len(),
            acc@ == pre,
            pre == old(acc)@,
            coo_distinct(pre),
            forall|j: int| 0 <= j < i ==> !((#[trigger] pre[j]).0 == r && pre[j].1 == c),
        decreases acc@.len() - i,
    {
        let (er, ec, ev) = acc[i];
        if er == r && ec == c {
            acc[i] = (er, ec, ev.wrapping_add(v));
            proof {
                assert(acc@ == pre.update(i as int, (r, c, wadd(pre[i as int].2, v))));
                assert forall|rr: int, cc: int| #[trigger] coo_at(acc@, rr, cc) == wadd(
                    coo_at(pre, rr, cc),
                    if r == rr && c == cc {
                        v
                    } else {
                        0
                    },
                ) by {
                    lemma_coo_update(pre, i as int, v, rr, cc);
                }
                assert(coo_distinct(acc@));
                assert forall|mm: int, nn: int|
                    coo_valid(pre, mm, nn) && r < mm && c < nn implies coo_valid(
                    acc@,
                    mm,
                    nn,
                ) by {
                    assert forall|x: int|
                        0 <= x < acc@.len() && coo_valid(pre, mm, nn) && r < mm && c
                            < nn implies (#[trigger] acc@[x]).0 < mm && acc@[x].1 < nn by {
                        if x != i {
                            assert(acc@[x] == pre[x]);
                        }
                    }
                }
            }
            return ;
        }
        i += 1;
    }
    acc.push((r, c, v));
    proof {
        assert(acc@ == pre.push((r, c, v)));
        assert forall|rr: int, cc: int| #[trigger] coo_at(acc@, rr, cc) == wadd(
            coo_at(pre, rr, cc),
            if r == rr && c == cc {
                v
            } else {
                0
            },
        ) by {
            lemma_coo_push(pre, (r, c, v), rr, cc);
        }
        assert(coo_distinct(acc@)) by {
            assert forall|x: int, y: int|
                0 <= x < y < acc@.len() implies !((#[trigger] acc@[x]).0 == (
            #[trigger] acc@[y]).0 && acc@[x].1 == acc@[y].1) by {
                if y == acc@.len() - 1 {
                    assert(!(pre[x].0 == r && pre[x].1 == c));
                }
            }
        }
        assert forall|mm: int, nn: int|
            coo_valid(pre, mm, nn) && r < mm && c < nn implies coo_valid(acc@, mm, nn) by {
            assert forall|x: int|
                0 <= x < acc@.len() && coo_valid(pre, mm, nn) && r < mm && c < nn implies (
            #[trigger] acc@[x]).0 < mm && acc@[x].1 < nn by {
                if x < pre.len() {
                    assert(acc@[x] == pre[x]);
                }
            }
        }
    }
}

/// The weighted contribution of the constraint Hessians at a position:
/// each scaled by its multiplier, summed.
pub open spec fn nu_sum(hs: Seq<CooMat>, nu: Seq<i64>, r: int, c: int) -> i64
    decreases hs,
{
    if hs.len() == 0 {
        0
    } else {
        wadd(
            wmul(nu[0], coo_at(hs[0].triplets@, r, c)),
            nu_sum(hs.drop_first(), nu.drop_first(), r, c),
        )
    }
}

/// The Lagrangian-style combination of the objective Hessian with each
/// constraint Hessian scaled by its multiplier. Triplets landing on the
/// same position are merged by summation: the result names each position
/// at most once, and gives every position the wrapping sum of the
/// objective's value and the weighted constraint values there.
pub fn combine_h(hphi: &CooMat, h: &Vec<CooMat>, nu: &Vec<i64>) -> (r: CooMat)
    requires
        h@.len() == nu@.len(),
    ensures
        r.m == hphi.m && r.n == hphi.n,
        coo_distinct(r.triplets@),
        forall|rr: int, cc: int| #[trigger] coo_at(r.triplets@, rr, cc) == wadd(
            coo_at(hphi.triplets@, rr, cc),
            nu_sum(h@, nu@, rr, cc),
        ),
{
    let mut acc: Vec<(usize, usize, i64)> = Vec::new();
    let ghost ts0 = hphi.triplets@;
    proof {
        assert(ts0.skip(0) =~= ts0);
        assert forall|rr: int, cc: int| #[trigger] wadd(
            coo_at(acc@, rr, cc),
            coo_at(ts0.skip(0), rr, cc),
        ) == coo_at(ts0, rr, cc) by {
            assert(coo_at(acc@, rr, cc) == 0);
            lemma_wadd_zero(coo_at(ts0, rr, cc));
        }
    }
    let mut i: usize = 0;
    while i < hphi.triplets.len()
        invariant
            i <= ts0.len(),
            ts0 == hphi.triplets@,
            coo_distinct(acc@),
            forall|rr: int, cc: int| #[trigger] wadd(
                coo_at(acc@, rr, cc),
                coo_at(ts0.skip(i as int), rr, cc),
            ) == coo_at(ts0, rr, cc),
        decreases ts0.len() - i,
    {
        let (er, ec, ev) = hphi.triplets[i];
        let ghost pre = acc@;
        coo_add_entry(&mut acc, er, ec, ev);
        proof {
            assert(ts0.skip(i as int)[0] == (er, ec, ev));
            assert(ts0.skip(i as int).drop_first() =~= ts0.skip(i as int + 1));
            assert(ts0.skip(i as int).len() > 0);
            assert forall|rr: int, cc: int| #[trigger] wadd(
                coo_at(acc@, rr, cc),
                coo_at(ts0.skip(i as int + 1), rr, cc),
            ) == coo_at(ts0, rr, cc) by {
                let e = if er == rr && ec == cc {
                    ev
                } else {
                    0
                };
                assert(coo_at(acc@, rr, cc) == wadd(coo_at(pre, rr, cc), e));
                assert(coo_at(ts0.skip(i as int), rr, cc) == wadd(
                    e,
                    coo_at(ts0.skip(i as int + 1), rr, cc),
                ));
                lemma_wadd_assoc(coo_at(pre, rr, cc), e, coo_at(ts0.skip(i as int + 1), rr, cc));
            }
        }
        i += 1;
    }
    proof {
        assert(ts0.skip(ts0.len() as int) =~= Seq::<(usize, usize, i64)>::empty());
        assert forall|rr: int, cc: int| #[trigger] coo_at(acc@, rr, cc) == coo_at(ts0, rr, cc) by {
            assert(wadd(coo_at(acc@, rr, cc), coo_at(ts0.skip(ts0.len() as int), rr, cc))
                == coo_at(ts0, rr, cc));
            assert(coo_at(Seq::<(usize, usize, i64)>::empty(), rr, cc) == 0);
            lemma_wadd_zero(coo_at(acc@, rr, cc));
        }
        assert(h@.skip(0) =~= h@);
        assert(nu@.skip(0) =~= nu@);
    }
    let mut k: usize = 0;
    while k < h.len()
        invariant
            k <= h@.len(),
            h@.len() == nu@.len(),
            coo_distinct(acc@),
            forall|rr: int, cc: int| #[trigger] wadd(
                coo_at(acc@, rr, cc),
                nu_sum(h@.skip(k as int), nu@.skip(k as int), rr, cc),
            ) == wadd(coo_at(hphi.triplets@, rr, cc), nu_sum(h@, nu@, rr, cc)),
        decreases h@.len() - k,
    {
        let ghost hs = h@;
        let ghost nus = nu@;
        let nuk = nu[k];
        let ghost tsk = h@[k as int].triplets@;
        proof {
            assert(hs.skip(k as int)[0] == hs[k as int]);
            assert(hs.skip(k as int).drop_first() =~= hs.skip(k as int + 1));
            assert(nus.skip(k as int)[0] == nus[k as int]);
            assert(nus.skip(k as int).drop_first() =~= nus.skip(k as int + 1));
            assert(hs.skip(k as int).len() > 0);
            assert(tsk.skip(0) =~= tsk);
            assert forall|rr: int, cc: int| #[trigger] wadd(
                coo_at(acc@, rr, cc),
                wadd(
                    wmul(nuk, coo_at(tsk.skip(0), rr, cc)),
                    nu_sum(hs.skip(k as int + 1), nus.skip(k as int + 1), rr, cc),
                ),
            ) == wadd(coo_at(hphi.triplets@, rr, cc), nu_sum(hs, nus, rr, cc)) by {
                assert(nu_sum(hs.skip(k as int), nus.skip(k as int), rr, cc) == wadd(
                    wmul(nuk, coo_at(tsk, rr, cc)),
                    nu_sum(hs.skip(k as int + 1), nus.skip(k as int + 1), rr, cc),
                ));
            }
        }
        let hk = &h[k];
        let mut j: usize = 0;
        while j < hk.triplets.len()
            invariant
                j <= tsk.len(),
                tsk == hk.triplets@,
                hk == h@[k as int],
                k < h@.len(),
                h@.len() == nu@.len(),
                nuk == nu@[k as int],
                coo_distinct(acc@),
                forall|rr: int, cc: int| #[trigger] wadd(
                    coo_at(acc@, rr, cc),
                    wadd(
                        wmul(nuk, coo_at(tsk.skip(j as int), rr, cc)),
                        nu_sum(h@.skip(k as int + 1), nu@.skip(k as int + 1), rr, cc),
                    ),
                ) == wadd(coo_at(hphi.triplets@, rr, cc), nu_sum(h@, nu@, rr, cc)),
            decreases tsk.len() - j,
        {
            let (er, ec, ev) = hk.triplets[j];
            let ghost pre = acc@;
            coo_add_entry(&mut acc, er, ec, nuk.wrapping_mul(ev));
            proof {
                assert(tsk.skip(j as int)[0] == (er, ec, ev));
                assert(tsk.skip(j as int).drop_first() =~= tsk.skip(j as int + 1));
                assert(tsk.skip(j as int).len() > 0);
                assert forall|rr: int, cc: int| #[trigger] wadd(
                    coo_at(acc@, rr, cc),
                    wadd(
                        wmul(nuk, coo_at(tsk.skip(j as int + 1), rr, cc)),
                        nu_sum(h@.skip(k as int + 1), nu@.skip(k as int + 1), rr, cc),
                    ),
                ) == wadd(coo_at(hphi.triplets@, rr, cc), nu_sum(h@, nu@, rr, cc)) by {
                    let e = if er == rr && ec == cc {
                        ev
                    } else {
                        0
                    };
                    let se = if er == rr && ec == cc {
                        wmul(nuk, ev)
                    } else {
                        0
                    };
                    assert(coo_at(acc@, rr, cc) == wadd(coo_at(pre, rr, cc), se));
                    assert(coo_at(tsk.skip(j as int), rr, cc) == wadd(
                        e,
                        coo_at(tsk.skip(j as int + 1), rr, cc),
                    ));
                    lemma_wmul_distrib(nuk, e, coo_at(tsk.skip(j as int + 1), rr, cc));
                    if !(er == rr && ec == cc) {
                        lemma_wmul_unit(nuk);
                    }
                    let rest = nu_sum(h@.skip(k as int + 1), nu@.skip(k as int + 1), rr, cc);
                    let tail = wmul(nuk, coo_at(tsk.skip(j as int + 1), rr, cc));
                    lemma_wadd_assoc(se, tail, rest);
                    lemma_wadd_assoc(coo_at(pre, rr, cc), se, wadd(tail, rest));
                }
            }
            j += 1;
        }
        proof {
            assert(tsk.skip(tsk.len() as int) =~= Seq::<(usize, usize, i64)>::empty());
            assert forall|rr: int, cc: int| #[trigger] wadd(
                coo_at(acc@, rr, cc),
                nu_sum(h@.skip(k as int + 1), nu@.skip(k as int + 1), rr, cc),
            ) == wadd(coo_at(hphi.triplets@, rr, cc), nu_sum(h@, nu@, rr, cc)) by {
                assert(coo_at(Seq::<(usize, usize, i64)>::empty(), rr, cc) == 0);
                lemma_wmul_unit(nuk);
                let rest = nu_sum(h@.skip(k as int + 1), nu@.skip(k as int + 1), rr, cc);
                assert(wadd(coo_at(acc@, rr, cc), wadd(wmul(nuk, 0), rest)) == wadd(
                    coo_at(hphi.triplets@, rr, cc),
                    nu_sum(h@, nu@, rr, cc),
                ));
                lemma_wadd_zero(rest);
            }
        }
        k += 1;
    }
    proof {
        assert(h@.skip(h@.len() as int) =~= Seq::<CooMat>::empty());
        assert(nu@.skip(nu@.len() as int) =~= Seq::<i64>::empty());
        assert forall|rr: int, cc: int| #[trigger] coo_at(acc@, rr, cc) == wadd(
            coo_at(hphi.triplets@, rr, cc),
            nu_sum(h@, nu@, rr, cc),
        ) by {
            assert(wadd(
                coo_at(acc@, rr, cc),
                nu_sum(h@.skip(h@.len() as int), nu@.skip(nu@.len() as int), rr, cc),
            ) == wadd(coo_at(hphi.triplets@, rr, cc), nu_sum(h@, nu@, rr, cc)));
            lemma_wadd_zero(coo_at(acc@, rr, cc));
        }
    }
    CooMat { m: hphi.m, n: hphi.n, triplets: acc }
}

/// The position of `v` in the caller's variable ordering: its first
/// occurrence. Referencing a variable the ordering does not contain is
/// reported as an error; assembly never silently drops a coefficient.
pub fn variable_index(order: &Vec<u64>, v: u64) -> (r: Result<usize, AssembleError>)
    ensures
        match r {
            Ok(i) => i < order@.len() && order@[i as int] == v && forall|j: int|
                0 <= j < i ==> order@[j] != v,
            Err(e) => !order@.contains(v) && e == AssembleError::UnknownVariable(v),
        },
        order@.contains(v) <==> r is Ok,
{
    let mut i: usize = 0;
    while i < order.len()
        invariant
            i <= order@.len(),
            forall|j: int| 0 <= j < i ==> order@[j] != v,
        decreases order@.len() - i,
    {
        if order[i] == v {
            return Ok(i);
        }
        i += 1;
    }
    Err(AssembleError::UnknownVariable(v))
}

/// The coefficient a list gives to the key `k`: its first entry for `k`,
/// or zero where there is none.
pub open spec fn lookup(a: Seq<(u64, i64)>, k: u64) -> i64
    decreases a,
{
    if a.len() == 0 {
        0
    } else if a[0].0 == k {
        a[0].1
    } else {
        lookup(a.drop_first(), k)
    }
}

/// Looks up the coefficient of `k`.
fn lookup_coeff(a: &Vec<(u64, i64)>, k: u64) -> (r: i64)
    ensures
        r == lookup(a@, k),
{
    proof {
        assert(a@.skip(0) =~= a@);
    }
    let mut i: usize = 0;
    while i < a.len()
        invariant
            i <= a@.len(),
            lookup(a@.skip(i as int), k) == lookup(a@, k),
        decreases a@.len() - i,
    {
        proof {
            assert(a@.skip(i as int)[0] == a@[i as int]);
            assert(a@.skip(i as int).drop_first() =~= a@.skip(i as int + 1));
            assert(a@.skip(i as int).len() > 0);
        }
        if a[i].0 == k {
            return a[i].1;
        }
        i += 1;
    }
    proof {
        assert(a@.skip(a@.len() as int) =~= Seq::<(u64, i64)>::empty());
    }
    0
}

/// The dense gradient vector of an affine coefficient mapping under the
/// caller's variable ordering: entry `i` is the coefficient of the `i`-th
/// variable of the ordering, zero where it has none. A coefficient whose
/// variable the ordering omits is an error, never silently dropped.
pub fn dense_gradient(prop: &NodeStdProp, order: &Vec<u64>) -> (r: Result<
    Vec<i64>,
    AssembleError,
>)
    ensures
        match r {
            Ok(g) => {
                &&& g@.len() == order@.len()
                &&& forall|i: int| 0 <= i < order@.len() ==> g@[i] == lookup(
                    prop.a@,
                    order@[i],
                )
                &&& forall|j: int|
                    0 <= j < prop.a@.len() ==> order@.contains((#[trigger] prop.a@[j]).0)
            },
            Err(e) => exists|j: int|
                0 <= j < prop.a@.len() && !order@.contains((#[trigger] prop.a@[j]).0) && e
                    == AssembleError::UnknownVariable(prop.a@[j].0),
        },
{
    let mut j: usize = 0;
    while j < prop.a.len()
        invariant
            j <= prop.a@.len(),
            forall|m: int| 0 <= m < j ==> order@.contains((#[trigger] prop.a@[m]).0),
        decreases prop.a@.len() - j,
    {
        match variable_index(order, prop.a[j].0) {
            Ok(_) => {},
            Err(e) => {
                return Err(e);
            },
        }
        j += 1;
    }
    let mut g: Vec<i64> = Vec::new();
    let mut i: usize = 0;
    while i < order.len()
        invariant
            i <= order@.len(),
            g@.len() == i,
            forall|m: int| 0 <= m < i ==> g@[m] == lookup(prop.a@, order@[m]),
            forall|m: int| 0 <= m < prop.a@.len() ==> order@.contains((#[trigger] prop.a@[m]).0),
        decreases order@.len() - i,
    {
        g.push(lookup_coeff(&prop.a, order[i]));
        i += 1;
    }
    Ok(g)
}

/// The wrapping dot product of two vectors of equal length.
pub open spec fn vdot(c: Seq<i64>, x: Seq<i64>) -> i64
    decreases c,
{
    if c.len() == 0 {
        0
    } else {
        wadd(wmul(c[0], x[0]), vdot(c.drop_first(), x.drop_first()))
    }
}

/// The value a sparse matrix gives to row `i` of its product with `x`.
pub open spec fn coo_mv(ts: Seq<(usize, usize, i64)>, x: Seq<i64>, i: int) -> i64
    decreases ts,
{
    if ts.len() == 0 {
        0
    } else {
        wadd(
            if ts[0].0 == i {
                wmul(ts[0].2, x[ts[0].1 as int])
            } else {
                0
            },
            coo_mv(ts.drop_first(), x, i),
        )
    }
}

/// A linear optimization problem: minimize `c^T x` subject to `a x = b`
/// and `l <= x <= u`, with an optional initial point. Evaluating it at a
/// point stores the objective value and the constraint values.
pub struct ProblemLp {
    /// Objective gradient.
    pub c: Vec<i64>,
    /// Constraint matrix.
    pub a: CooMat,
    /// Constraint right-hand sides.
    pub b: Vec<i64>,
    /// Variable lower limits.
    pub l: Vec<i64>,
    /// Variable upper limits.
    pub u: Vec<i64>,
    /// Optional initial point.
    pub x0: Option<Vec<i64>>,
    /// Objective value at the last evaluated point.
    pub phi: i64,
    /// Constraint values at the last evaluated point.
    pub f: Vec<i64>,
}

impl ProblemLp {
    /// Creates a new linear optimization problem.
    pub fn new(c: Vec<i64>, a: CooMat, b: Vec<i64>, l: Vec<i64>, u: Vec<i64>, x0: Option<
        Vec<i64>,
    >) -> (r: ProblemLp)
        ensures
            r.c@ == c@ && r.a.triplets@ == a.triplets@ && r.a.m == a.m && r.a.n == a.n,
            r.b@ == b@ && r.l@ == l@ && r.u@ == u@ && r.x0 == x0,
            r.phi == 0 && r.f@.len() == 0,
    {
        ProblemLp { c, a, b, l, u, x0, phi: 0, f: Vec::new() }
    }

    /// Initial point.
    pub fn x0(&self) -> (r: &Option<Vec<i64>>)
        ensures
            r == &self.x0,
    {
        &self.x0
    }

    /// Objective function gradient.
    pub fn c(&self) -> (r: &Vec<i64>)
        ensures
            r@ == self.c@,
    {
        &self.c
    }

    /// Jacobian matrix of the linear equality constraints.
    pub fn a(&self) -> (r: &CooMat)
        ensures
            r == &self.a,
    {
        &self.a
    }

    /// Right-hand-side vector of the linear equality constraints.
    pub fn b(&self) -> (r: &Vec<i64>)
        ensures
            r@ == self.b@,
    {
        &self.b
    }

    /// Vector of optimization variable lower limits.
    pub fn l(&self) -> (r: &Vec<i64>)
        ensures
            r@ == self.l@,
    {
        &self.l
    }

    /// Vector of optimization variable upper limits.
    pub fn u(&self) -> (r: &Vec<i64>)
        ensures
            r@ == self.u@,
    {
        &self.u
    }

    /// Number of optimization variables.
    pub fn nx(&self) -> (r: usize)
        ensures
            r == self.c@.len(),
    {
        self.c.len()
    }

    /// Number of linear equality constraints.
    pub fn na(&self) -> (r: usize)
        ensures
            r == self.b@.len(),
    {
        self.b.len()
    }

    /// The objective gradient, which for a linear objective is `c` at
    /// every point.
    pub fn gphi(&self) -> (r: &Vec<i64>)
        ensures
            r@ == self.c@,
    {
        &self.c
    }

    /// Evaluates the problem at the point `x`: stores the objective value
    /// `c^T x` and the constraint values `a x`.
    #[verifier::rlimit(100)]
    pub fn evaluate(&mut self, x: &Vec<i64>)
        requires
            x@.len() == old(self).c@.len(),
            coo_valid(old(self).a.triplets@, old(self).b@.len() as int, x@.len() as int),
        ensures
            final(self).phi == vdot(old(self).c@, x@),
            final(self).f@.len() == old(self).b@.len(),
            forall|i: int|
                0 <= i < final(self).f@.len() ==> final(self).f@[i] == coo_mv(
                    old(self).a.triplets@,
                    x@,
                    i,
                ),
            final(self).c@ == old(self).c@ && final(self).a.triplets@ == old(self).a.triplets@,
            final(self).a.m == old(self).a.m && final(self).a.n == old(self).a.n,
            final(self).b@ == old(self).b@ && final(self).l@ == old(self).l@,
            final(self).u@ == old(self).u@ && final(self).x0 == old(self).x0,
    {
        let ghost cs = self.c@;
        let mut phi: i64 = 0;
        proof {
            assert(cs.skip(0) =~= cs);
            assert(x@.skip(0) =~= x@);
            lemma_wadd_zero(vdot(cs, x@));
        }
        let mut i: usize = 0;
        while i < self.c.len()
            invariant
                i <= cs.len(),
                cs == self.c@,
                x@.len() == cs.len(),
                wadd(phi, vdot(cs.skip(i as int), x@.skip(i as int))) == vdot(cs, x@),
            decreases cs.len() - i,
        {
            let ghost prephi = phi;
            phi = phi.wrapping_add(self.c[i].wrapping_mul(x[i]));
            proof {
                assert(cs.skip(i as int)[0] == cs[i as int]);
                assert(x@.skip(i as int)[0] == x@[i as int]);
                assert(cs.skip(i as int).drop_first() =~= cs.skip(i as int + 1));
                assert(x@.skip(i as int).drop_first() =~= x@.skip(i as int + 1));
                assert(cs.skip(i as int).len() > 0);
                assert(vdot(cs.skip(i as int), x@.skip(i as int)) == wadd(
                    wmul(cs[i as int], x@[i as int]),
                    vdot(cs.skip(i as int + 1), x@.skip(i as int + 1)),
                ));
                lemma_wadd_assoc(
                    prephi,
                    wmul(cs[i as int], x@[i as int]),
                    vdot(cs.skip(i as int + 1), x@.skip(i as int + 1)),
                );
            }
            i += 1;
        }
        proof {
            assert(cs.skip(cs.len() as int) =~= Seq::<i64>::empty());
            assert(x@.skip(x@.len() as int) =~= Seq::<i64>::empty());
            assert(vdot(Seq::<i64>::empty(), Seq::<i64>::empty()) == 0);
            lemma_wadd_zero(phi);
        }
        self.phi = phi;
        let ghost ts = self.a.triplets@;
        let mut f: Vec<i64> = Vec::new();
        let mut r: usize = 0;
        while r < self.b.len()
            invariant
                r <= self.b@.len(),
                f@.len() == r,
                forall|m: int| 0 <= m < r ==> f@[m] == 0,
            decreases self.b@.len() - r,
        {
            f.push(0);
            r += 1;
        }
        proof {
            assert(ts.skip(0) =~= ts);
            assert forall|m: int| 0 <= m < f@.len() implies #[trigger] wadd(
                f@[m],
                coo_mv(ts.skip(0), x@, m),
            ) == coo_mv(ts, x@, m) by {
                lemma_wadd_zero(coo_mv(ts, x@, m));
            }
        }
        let mut j: usize = 0;
        while j < self.a.triplets.len()
            invariant
                j <= ts.len(),
                ts == self.a.triplets@,
                x@.len() == cs.len(),
                f@.len() == self.b@.len(),
                coo_valid(ts, self.b@.len() as int, x@.len() as int),
                forall|m: int| 0 <= m < f@.len() ==> #[trigger] wadd(
                    f@[m],
                    coo_mv(ts.skip(j as int), x@, m),
                ) == coo_mv(ts, x@, m),
            decreases ts.len() - j,
        {
            let (er, ec, ev) = self.a.triplets[j];
            let ghost pref = f@;
            let cur = f[er];
            f[er] = cur.wrapping_add(ev.wrapping_mul(x[ec]));
            proof {
                assert(ts.skip(j as int)[0] == (er, ec, ev));
                assert(ts.skip(j as int).drop_first() =~= ts.skip(j as int + 1));
                assert(ts.skip(j as int).len() > 0);
                assert(f@ == pref.update(
                    er as int,
                    wadd(pref[er as int], wmul(ev, x@[ec as int])),
                ));
                assert forall|m: int| 0 <= m < f@.len() implies #[trigger] wadd(
                    f@[m],
                    coo_mv(ts.skip(j as int + 1), x@, m),
                ) == coo_mv(ts, x@, m) by {
                    let addend = if er == m {
                        wmul(ev, x@[ec as int])
                    } else {
                        0
                    };
                    assert(coo_mv(ts.skip(j as int), x@, m) == wadd(
                        addend,
                        coo_mv(ts.skip(j as int + 1), x@, m),
                    ));
                    if er == m {
                        assert(f@[m] == wadd(pref[m], addend));
                        lemma_wadd_assoc(pref[m], addend, coo_mv(ts.skip(j as int + 1), x@, m));
                    } else {
                        assert(f@[m] == pref[m]);
                        lemma_wadd_zero(coo_mv(ts.skip(j as int + 1), x@, m));
                    }
                }
            }
            j += 1;
        }
        proof {
            assert(ts.skip(ts.len() as int) =~= Seq::<(usize, usize, i64)>::empty());
            assert forall|m: int| 0 <= m < f@.len() implies #[trigger] f@[m] == coo_mv(
                ts,
                x@,
                m,
            ) by {
                assert(wadd(f@[m], coo_mv(ts.skip(ts.len() as int), x@, m)) == coo_mv(ts, x@, m));
                assert(coo_mv(Seq::<(usize, usize, i64)>::empty(), x@, m) == 0);
                lemma_wadd_zero(f@[m]);
            }
        }
        self.f = f;
    }

    /// Combining constraint Hessians is a no-op for a linear problem: a
    /// constant-coefficient form has no curvature.
    pub fn combine_h(&mut self, _nu: &Vec<i64>)
        ensures
            *final(self) == *old(self),
    {
    }
}

} // verus!
