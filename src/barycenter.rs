use vstd::prelude::*;

verus! {

/// The average position of a node's neighbours, kept as an exact fraction
/// `sum / count` with `count > 0`.
#[derive(Clone, Copy, Debug, PartialEq, Eq, Structural)]
pub struct Barycenter {
    pub sum: u64,
    pub count: u64,
}

/// `a` has a strictly smaller average than `b`.
pub open spec fn precedes(a: Barycenter, b: Barycenter) -> bool {
    a.sum * b.count < b.sum * a.count
}

/// `a` and `b` have the same average.
pub open spec fn same_average(a: Barycenter, b: Barycenter) -> bool {
    a.sum * b.count == b.sum * a.count
}

/// Inserts index `x` into `sorted` behind every entry whose average is not
/// larger than its own, so that equal averages keep their order of arrival.
pub open spec fn insert_stable(sorted: Seq<int>, x: int, keys: Seq<Barycenter>) -> Seq<int>
    decreases sorted.len(),
{
    if sorted.len() == 0 {
        seq![x]
    } else if precedes(keys[x], keys[sorted.last()]) {
        insert_stable(sorted.drop_last(), x, keys).push(sorted.last())
    } else {
        sorted.push(x)
    }
}

/// The indices `0..len` in the order of a stable sort by average.
pub open spec fn stable_order(keys: Seq<Barycenter>, len: nat) -> Seq<int>
    decreases len,
{
    if len == 0 {
        Seq::empty()
    } else {
        insert_stable(stable_order(keys, (len - 1) as nat), len - 1, keys)
    }
}

/// `s` lists each of `0..n` exactly once.
pub open spec fn is_permutation(s: Seq<int>, n: int) -> bool {
    &&& s.len() == n
    &&& forall|j: int| 0 <= j < s.len() ==> 0 <= #[trigger] s[j] < n
    &&& forall|p: int, q: int| 0 <= p < q < s.len() ==> s[p] != s[q]
    &&& forall|v: int| 0 <= v < n ==> #[trigger] s.contains(v)
}

/// Along `s` the averages never decrease, and indices with the same average
/// appear in increasing order.
pub open spec fn in_barycenter_order(keys: Seq<Barycenter>, s: Seq<int>) -> bool {
    forall|p: int, q: int|
        0 <= p < q < s.len() ==> !precedes(#[trigger] keys[s[q]], #[trigger] keys[s[p]]) && (
        same_average(keys[s[p]], keys[s[q]]) ==> s[p] < s[q])
}

proof fn lemma_average_le_trans(a: Barycenter, b: Barycenter, c: Barycenter)
    requires
        a.count > 0,
        b.count > 0,
        c.count > 0,
        !precedes(b, a),
        !precedes(c, b),
    ensures
        !precedes(c, a),
        same_average(a, c) ==> same_average(a, b) && same_average(b, c),
{
    let (a0, a1, b0, b1, c0, c1) = (
        a.sum as int,
        a.count as int,
        b.sum as int,
        b.count as int,
        c.sum as int,
        c.count as int,
    );
    assert(a0 * b1 <= b0 * a1);
    assert(b0 * c1 <= c0 * b1);
    assert(a0 * c1 <= c0 * a1) by (nonlinear_arith)
        requires
            a0 * b1 <= b0 * a1,
            b0 * c1 <= c0 * b1,
            a1 > 0,
            b1 > 0,
            c1 > 0,
    ;
    if a0 * c1 == c0 * a1 {
        assert(a0 * b1 == b0 * a1 && b0 * c1 == c0 * b1) by (nonlinear_arith)
            requires
                a0 * b1 <= b0 * a1,
                b0 * c1 <= c0 * b1,
                a0 * c1 == c0 * a1,
                a1 > 0,
                b1 > 0,
                c1 > 0,
        ;
    }
}

proof fn lemma_insert_stable(sorted: Seq<int>, x: int, keys: Seq<Barycenter>) -> (p: int)
    requires
        0 <= x < keys.len(),
        forall|i: int| 0 <= i < keys.len() ==> #[trigger] keys[i].count > 0,
        forall|j: int| 0 <= j < sorted.len() ==> 0 <= #[trigger] sorted[j] < x,
        in_barycenter_order(keys, sorted),
    ensures
        0 <= p <= sorted.len(),
        insert_stable(sorted, x, keys) == sorted.take(p).push(x) + sorted.skip(p),
        in_barycenter_order(keys, insert_stable(sorted, x, keys)),
    decreases sorted.len(),
{
    let res = insert_stable(sorted, x, keys);
    if sorted.len() == 0 {
        assert(res =~= sorted.take(0).push(x) + sorted.skip(0));
        0
    } else if precedes(keys[x], keys[sorted.last()]) {
        let init = sorted.drop_last();
        let last = sorted.last();
        assert forall|p: int, q: int| 0 <= p < q < init.len() implies !precedes(
            #[trigger] keys[init[q]],
            #[trigger] keys[init[p]],
        ) && (same_average(keys[init[p]], keys[init[q]]) ==> init[p] < init[q]) by {
            assert(init[p] == sorted[p] && init[q] == sorted[q]);
        }
        let p0 = lemma_insert_stable(init, x, keys);
        let r0 = insert_stable(init, x, keys);
        assert(res == r0.push(last));
        assert(res =~= sorted.take(p0).push(x) + sorted.skip(p0));
        assert forall|p: int, q: int| 0 <= p < q < res.len() implies !precedes(
            #[trigger] keys[res[q]],
            #[trigger] keys[res[p]],
        ) && (same_average(keys[res[p]], keys[res[q]]) ==> res[p] < res[q]) by {
            if q < res.len() - 1 {
                assert(res[p] == r0[p] && res[q] == r0[q]);
            } else {
                assert(res[q] == last);
                if p == p0 {
                    assert(res[p] == x);
                } else if p < p0 {
                    assert(res[p] == sorted[p]);
                    assert(sorted[p] < x);
                } else {
                    assert(res[p] == sorted[p - 1]);
                }
            }
        }
        p0
    } else {
        let last = sorted.last();
        assert(res == sorted.push(x));
        assert(res =~= sorted.take(sorted.len() as int).push(x) + sorted.skip(
            sorted.len() as int,
        ));
        assert forall|p: int, q: int| 0 <= p < q < res.len() implies !precedes(
            #[trigger] keys[res[q]],
            #[trigger] keys[res[p]],
        ) && (same_average(keys[res[p]], keys[res[q]]) ==> res[p] < res[q]) by {
            if q == res.len() - 1 {
                assert(res[q] == x);
                assert(res[p] == sorted[p]);
                if p < sorted.len() - 1 {
                    assert(!precedes(keys[sorted[sorted.len() - 1]], keys[sorted[p]]));
                    lemma_average_le_trans(keys[sorted[p]], keys[last], keys[x]);
                }
            } else {
                assert(res[p] == sorted[p] && res[q] == sorted[q]);
            }
        }
        sorted.len() as int
    }
}

/// `stable_order` lists each index once, sorted by average, ties in index
/// order.
pub proof fn lemma_stable_order(keys: Seq<Barycenter>, len: nat)
    requires
        len <= keys.len(),
        forall|i: int| 0 <= i < keys.len() ==> #[trigger] keys[i].count > 0,
    ensures
        is_permutation(stable_order(keys, len), len as int),
        in_barycenter_order(keys, stable_order(keys, len)),
    decreases len,
{
    if len > 0 {
        let prev = stable_order(keys, (len - 1) as nat);
        lemma_stable_order(keys, (len - 1) as nat);
        let x = len - 1;
        let p = lemma_insert_stable(prev, x, keys);
        let s = stable_order(keys, len);
        assert(s == prev.take(p).push(x) + prev.skip(p));
        assert forall|j: int| 0 <= j < s.len() implies 0 <= #[trigger] s[j] < len by {
            if j < p {
                assert(s[j] == prev[j]);
            } else if j > p {
                assert(s[j] == prev[j - 1]);
            }
        }
        assert forall|a: int, b: int| 0 <= a < b < s.len() implies s[a] != s[b] by {
            if a < p {
                assert(s[a] == prev[a]);
            }
            if a > p {
                assert(s[a] == prev[a - 1]);
            }
            if b < p {
                assert(s[b] == prev[b]);
            }
            if b > p {
                assert(s[b] == prev[b - 1]);
            }
        }
        assert forall|v: int| 0 <= v < len implies #[trigger] s.contains(v) by {
            if v == x {
                assert(s[p] == x);
            } else {
                assert(prev.contains(v));
                let j = choose|j: int| 0 <= j < prev.len() && prev[j] == v;
                if j < p {
                    assert(s[j] == v);
                } else {
                    assert(s[j + 1] == v);
                }
            }
        }
    }
}

/// `a` has a strictly smaller average than `b`.
pub fn precedes_exec(a: Barycenter, b: Barycenter) -> (r: bool)
    ensures
        r == precedes(a, b),
{
    let (x, y, z, w) = (a.sum as u128, b.count as u128, b.sum as u128, a.count as u128);
    assert(x * y <= 0xffff_ffff_ffff_ffffu128 * 0xffff_ffff_ffff_ffffu128) by (nonlinear_arith)
        requires
            x <= 0xffff_ffff_ffff_ffffu128,
            y <= 0xffff_ffff_ffff_ffffu128,
    ;
    assert(z * w <= 0xffff_ffff_ffff_ffffu128 * 0xffff_ffff_ffff_ffffu128) by (nonlinear_arith)
        requires
            z <= 0xffff_ffff_ffff_ffffu128,
            w <= 0xffff_ffff_ffff_ffffu128,
    ;
    x * y < z * w
}

/// The indices of `keys` in the order of a stable sort by average: an
/// insertion sort that moves an entry left only past strictly larger
/// averages.
pub fn sort_by_barycenter(keys: &Vec<Barycenter>) -> (perm: Vec<usize>)
    requires
        forall|i: int| 0 <= i < keys@.len() ==> #[trigger] keys@[i].count > 0,
    ensures
        perm@.map_values(|i: usize| i as int) == stable_order(keys@, keys@.len()),
        is_permutation(perm@.map_values(|i: usize| i as int), keys@.len() as int),
        in_barycenter_order(keys@, perm@.map_values(|i: usize| i as int)),
{
    let n = keys.len();
    let mut perm: Vec<usize> = Vec::new();
    let mut i: usize = 0;
    while i < n
        invariant
            i <= n,
            n == keys@.len(),
            forall|t: int| 0 <= t < keys@.len() ==> #[trigger] keys@[t].count > 0,
            perm@.map_values(|t: usize| t as int) == stable_order(keys@, i as nat),
        decreases n - i,
    {
        let ghost prev = stable_order(keys@, i as nat);
        proof {
            lemma_stable_order(keys@, i as nat);
        }
        perm.push(i);
        let mut j: usize = i;
        proof {
            assert(prev.take(i as int) =~= prev);
            assert(prev.skip(i as int) =~= Seq::<int>::empty());
            assert(perm@.map_values(|t: usize| t as int) =~= prev.take(j as int).push(i as int)
                + prev.skip(j as int));
            assert forall|t: int| 0 <= t < perm@.len() implies #[trigger] perm@[t] < n by {
                assert(perm@.map_values(|t: usize| t as int)[t] == perm@[t] as int);
                if t < i {
                    assert(perm@[t] as int == prev[t]);
                }
            }
        }
        while j > 0 && precedes_exec(keys[perm[j]], keys[perm[j - 1]])
            invariant
                i < n,
                n == keys@.len(),
                j <= i,
                forall|t: int| 0 <= t < keys@.len() ==> #[trigger] keys@[t].count > 0,
                is_permutation(prev, i as int),
                perm@.len() == i + 1,
                forall|t: int| 0 <= t < perm@.len() ==> #[trigger] perm@[t] < n,
                perm@.map_values(|t: usize| t as int) == prev.take(j as int).push(i as int)
                    + prev.skip(j as int),
                insert_stable(prev, i as int, keys@) == insert_stable(
                    prev.take(j as int),
                    i as int,
                    keys@,
                ) + prev.skip(j as int),
            decreases j,
        {
            let ghost before = perm@.map_values(|t: usize| t as int);
            let ghost before_perm = perm@;
            assert(before[j as int] == i as int);
            assert(before[j - 1] == prev[j - 1]);
            let a = perm[j];
            let b = perm[j - 1];
            perm.set(j, b);
            perm.set(j - 1, a);
            proof {
                assert forall|t: int| 0 <= t < perm@.len() implies #[trigger] perm@[t] < n by {
                    if t != j && t != j - 1 {
                        assert(perm@[t] == before_perm[t]);
                    }
                }
                let pj = prev.take(j as int);
                assert(pj.last() == prev[j - 1]);
                assert(pj.drop_last() =~= prev.take(j - 1));
                assert(insert_stable(pj, i as int, keys@) == insert_stable(
                    prev.take(j - 1),
                    i as int,
                    keys@,
                ).push(prev[j - 1]));
                assert(prev.skip(j - 1) =~= seq![prev[j - 1]] + prev.skip(j as int));
                assert(insert_stable(prev.take(j - 1), i as int, keys@).push(prev[j - 1])
                    + prev.skip(j as int) =~= insert_stable(prev.take(j - 1), i as int, keys@)
                    + prev.skip(j - 1));
                let after = perm@.map_values(|t: usize| t as int);
                let target = prev.take(j - 1).push(i as int) + prev.skip(j - 1);
                assert forall|t: int| 0 <= t < after.len() implies after[t] == target[t] by {
                    assert(after[t] == perm@[t] as int);
                    if t < j - 1 {
                        assert(perm@[t] == before_perm[t]);
                        assert(before[t] == before_perm[t] as int);
                        assert(before[t] == prev[t]);
                    } else if t == j - 1 {
                        assert(before[j as int] == before_perm[j as int] as int);
                    } else if t == j {
                        assert(before[j - 1] == before_perm[j - 1] as int);
                    } else {
                        assert(perm@[t] == before_perm[t]);
                        assert(before[t] == before_perm[t] as int);
                        assert(before[t] == prev.skip(j as int)[t - j - 1]);
                    }
                }
                assert(after =~= target);
            }
            j = j - 1;
        }
        proof {
            let pj = prev.take(j as int);
            if j == 0 {
                assert(pj =~= Seq::<int>::empty());
                assert(insert_stable(pj, i as int, keys@) == seq![i as int]);
            } else {
                let m = perm@.map_values(|t: usize| t as int);
                assert(m[j as int] == i as int);
                assert(m[j - 1] == prev[j - 1]);
                assert(perm@[j as int] == i);
                assert(perm@[j - 1] as int == prev[j - 1]);
                assert(pj.last() == prev[j - 1]);
                assert(!precedes(keys@[i as int], keys@[pj.last()]));
                assert(insert_stable(pj, i as int, keys@) == pj.push(i as int));
            }
            assert(stable_order(keys@, (i + 1) as nat) == insert_stable(prev, i as int, keys@));
            assert(perm@.map_values(|t: usize| t as int) =~= stable_order(keys@, (i + 1) as nat));
        }
        i = i + 1;
    }
    proof {
        lemma_stable_order(keys@, n as nat);
    }
    perm
}

} // verus!
