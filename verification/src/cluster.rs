use vstd::prelude::*;
use crate::dataset::{
    Centroid, CentroidModel, Dataset, cents_view, cents_wf, cm_wf, data_wf, dist_lt, ints,
    lemma_mul_le, part_view, scaled_distance, scaled_sq_dist, MAX_COORD, MAX_DIM, COUNT_SQ_BOUND,
    SCALED_DIST_BOUND,
};
use crate::errors::ClusterError;
use crate::init::{span_clusters, spec_span};

verus! {

/// The index of the centroid among the first `n` that is nearest to `p`,
/// ties broken towards the lowest index.
pub open spec fn nearest_to(p: Seq<int>, cs: Seq<CentroidModel>, n: int) -> int
    decreases n,
{
    if n <= 1 {
        0
    } else {
        let b = nearest_to(p, cs, n - 1);
        if dist_lt(p, cs[n - 1], cs[b]) {
            n - 1
        } else {
            b
        }
    }
}

/// The index of the centroid nearest to `p`, ties broken towards the lowest
/// index.
pub open spec fn nearest(p: Seq<int>, cs: Seq<CentroidModel>) -> int {
    nearest_to(p, cs, cs.len() as int)
}

pub proof fn lemma_nearest_to_range(p: Seq<int>, cs: Seq<CentroidModel>, n: int)
    requires
        1 <= n,
    ensures
        0 <= nearest_to(p, cs, n) < n,
    decreases n,
{
    if n > 1 {
        lemma_nearest_to_range(p, cs, n - 1);
    }
}

/// `k` empty clusters.
pub open spec fn empty_parts(k: int) -> Seq<Seq<int>> {
    Seq::new(k as nat, |j: int| Seq::<int>::empty())
}

/// The partition that assigns each of the first `n` dataset indices to its
/// nearest centroid, in dataset order.
pub open spec fn assign_to(d: Seq<Seq<int>>, cs: Seq<CentroidModel>, n: int) -> Seq<Seq<int>>
    decreases n,
{
    if n <= 0 {
        empty_parts(cs.len() as int)
    } else {
        let p = assign_to(d, cs, n - 1);
        let j = nearest(d[n - 1], cs);
        p.update(j, p[j].push(n - 1))
    }
}

/// The partition that assigns every dataset vector to its nearest centroid.
pub open spec fn spec_assign_all(d: Seq<Seq<int>>, cs: Seq<CentroidModel>) -> Seq<Seq<int>> {
    assign_to(d, cs, d.len() as int)
}

/// Dataset index `v` appears somewhere in the partition.
pub open spec fn appears(p: Seq<Seq<int>>, v: int) -> bool {
    exists|j: int, t: int|
        #![trigger p[j][t]]
        0 <= j < p.len() && 0 <= t < p[j].len() && p[j][t] == v
}

/// Every entry of the partition is a dataset index below `n`.
pub open spec fn entries_in(p: Seq<Seq<int>>, n: int) -> bool {
    forall|j: int, t: int|
        0 <= j < p.len() && 0 <= t < p[j].len() ==> 0 <= #[trigger] p[j][t] < n
}

/// No dataset index appears twice in the partition.
pub open spec fn no_dups(p: Seq<Seq<int>>) -> bool {
    forall|j1: int, t1: int, j2: int, t2: int|
        #![trigger p[j1][t1], p[j2][t2]]
        0 <= j1 < p.len() && 0 <= t1 < p[j1].len() && 0 <= j2 < p.len() && 0 <= t2 < p[j2].len()
            && p[j1][t1] == p[j2][t2] ==> j1 == j2 && t1 == t2
}

/// The total number of entries over all clusters.
pub open spec fn total_len(p: Seq<Seq<int>>) -> int
    decreases p.len(),
{
    if p.len() == 0 {
        0
    } else {
        total_len(p.drop_last()) + p.last().len()
    }
}

/// A true partition of the dataset indices `0..n` into exactly `k` clusters:
/// every index appears exactly once, and the cluster sizes sum to `n`.
pub open spec fn is_partition(p: Seq<Seq<int>>, n: int, k: int) -> bool {
    &&& p.len() == k
    &&& entries_in(p, n)
    &&& forall|v: int| 0 <= v < n ==> #[trigger] appears(p, v)
    &&& no_dups(p)
    &&& total_len(p) == n
}

pub proof fn lemma_total_len_nonneg(p: Seq<Seq<int>>)
    ensures
        total_len(p) >= 0,
    decreases p.len(),
{
    if p.len() > 0 {
        lemma_total_len_nonneg(p.drop_last());
    }
}

/// Each cluster is no larger than the whole partition's total.
pub proof fn lemma_total_len_parts(p: Seq<Seq<int>>, j: int)
    requires
        0 <= j < p.len(),
    ensures
        p[j].len() <= total_len(p),
    decreases p.len(),
{
    lemma_total_len_nonneg(p.drop_last());
    if j < p.len() - 1 {
        lemma_total_len_parts(p.drop_last(), j);
        assert(p.drop_last()[j] == p[j]);
    }
}

pub proof fn lemma_total_len_update_push(p: Seq<Seq<int>>, j: int, x: int)
    requires
        0 <= j < p.len(),
    ensures
        total_len(p.update(j, p[j].push(x))) == total_len(p) + 1,
    decreases p.len(),
{
    let q = p.update(j, p[j].push(x));
    if j == p.len() - 1 {
        assert(q.drop_last() =~= p.drop_last());
        assert(q.last() == p[j].push(x));
    } else {
        assert(q.drop_last() =~= p.drop_last().update(j, p.drop_last()[j].push(x)));
        lemma_total_len_update_push(p.drop_last(), j, x);
        assert(q.last() == p.last());
    }
}

pub proof fn lemma_empty_parts_total(k: int)
    requires
        k >= 0,
    ensures
        total_len(empty_parts(k)) == 0,
    decreases k,
{
    if k > 0 {
        assert(empty_parts(k).drop_last() =~= empty_parts(k - 1));
        lemma_empty_parts_total(k - 1);
    }
}

/// Assigning the first `n` dataset indices to their nearest centroids yields
/// a true partition of `0..n`.
pub proof fn lemma_assign_to_partition(d: Seq<Seq<int>>, cs: Seq<CentroidModel>, n: int)
    requires
        cs.len() >= 1,
        0 <= n,
    ensures
        is_partition(assign_to(d, cs, n), n, cs.len() as int),
    decreases n,
{
    if n == 0 {
        let p = assign_to(d, cs, 0);
        assert(p == empty_parts(cs.len() as int));
        lemma_empty_parts_total(cs.len() as int);
        assert forall|v: int| 0 <= v < 0 implies #[trigger] appears(p, v) by {}
    } else {
        lemma_assign_to_partition(d, cs, n - 1);
        let p0 = assign_to(d, cs, n - 1);
        let j = nearest(d[n - 1], cs);
        lemma_nearest_to_range(d[n - 1], cs, cs.len() as int);
        let p = p0.update(j, p0[j].push(n - 1));
        assert(p == assign_to(d, cs, n));
        lemma_total_len_update_push(p0, j, n - 1);

        assert forall|a: int, b: int|
            0 <= a < p.len() && 0 <= b < p[a].len() implies 0 <= #[trigger] p[a][b] < n by {
            if a == j {
                if b < p0[j].len() {
                    assert(p[a][b] == p0[a][b]);
                } else {
                    assert(p[a][b] == n - 1);
                }
            } else {
                assert(p[a][b] == p0[a][b]);
            }
        }

        assert forall|v: int| 0 <= v < n implies #[trigger] appears(p, v) by {
            if v < n - 1 {
                assert(appears(p0, v));
                let (j0, t0) = choose|j0: int, t0: int|
                    #![trigger p0[j0][t0]]
                    0 <= j0 < p0.len() && 0 <= t0 < p0[j0].len() && p0[j0][t0] == v;
                if j0 == j {
                    assert(p[j0][t0] == p0[j0][t0]);
                } else {
                    assert(p[j0][t0] == p0[j0][t0]);
                }
            } else {
                assert(p[j][p0[j].len() as int] == n - 1);
            }
        }

        assert forall|j1: int, t1: int, j2: int, t2: int|
            #![trigger p[j1][t1], p[j2][t2]]
            0 <= j1 < p.len() && 0 <= t1 < p[j1].len() && 0 <= j2 < p.len() && 0 <= t2
                < p[j2].len() && p[j1][t1] == p[j2][t2] implies j1 == j2 && t1 == t2 by {
            let new1 = j1 == j && t1 == p0[j].len();
            let new2 = j2 == j && t2 == p0[j].len();
            if new1 && new2 {
            } else if new1 {
                assert(p[j2][t2] == p0[j2][t2]);
                assert(p[j1][t1] == n - 1);
            } else if new2 {
                assert(p[j1][t1] == p0[j1][t1]);
                assert(p[j2][t2] == n - 1);
            } else {
                assert(p[j1][t1] == p0[j1][t1]);
                assert(p[j2][t2] == p0[j2][t2]);
            }
        }
    }
}

/// The index of the centroid nearest to `p`, computed with exact
/// cross-multiplied rational comparisons; ties go to the lowest index.
pub(crate) fn nearest_idx(p: &Vec<i64>, cs: &Vec<Centroid>) -> (j: usize)
    requires
        cs@.len() >= 1,
        cents_wf(cents_view(cs@), p@.len() as int),
        p@.len() <= MAX_DIM as int,
        forall|i: int|
            0 <= i < p@.len()
                ==> -(MAX_COORD as int) <= #[trigger] p@[i] as int <= MAX_COORD as int,
    ensures
        j as int == nearest(ints(p@), cents_view(cs@)),
        j < cs@.len(),
{
    let ghost ip = ints(p@);
    let ghost cv = cents_view(cs@);
    proof {
        assert(cv[0] == cs@[0]@);
        assert(cm_wf(cv[0], p@.len() as int));
        assert(0 < cv[0].count * cv[0].count <= 4_294_967_296) by (nonlinear_arith)
            requires
                1 <= cv[0].count <= 65_536,
        ;
    }
    let mut best: usize = 0;
    let mut best_num: u128 = scaled_distance(p, &cs[0]);
    let mut best_den: u128 = (cs[0].count as u128) * (cs[0].count as u128);
    let k = cs.len();
    for t in 1..k
        invariant
            k == cs@.len() >= 1,
            ip == ints(p@),
            cv == cents_view(cs@),
            cents_wf(cv, p@.len() as int),
            p@.len() <= MAX_DIM as int,
            forall|i: int|
                0 <= i < p@.len()
                    ==> -(MAX_COORD as int) <= #[trigger] p@[i] as int <= MAX_COORD as int,
            best < t,
            best as int == nearest_to(ip, cv, t as int),
            best_num == scaled_sq_dist(ip, cv[best as int]),
            best_num <= SCALED_DIST_BOUND,
            best_den == cv[best as int].count * cv[best as int].count,
            0 < best_den <= COUNT_SQ_BOUND,
    {
        proof {
            assert(cv[t as int] == cs@[t as int]@);
            assert(cm_wf(cv[t as int], p@.len() as int));
            assert(0 < cv[t as int].count * cv[t as int].count <= 4_294_967_296)
                by (nonlinear_arith)
                requires
                    1 <= cv[t as int].count <= 65_536,
            ;
        }
        let num = scaled_distance(p, &cs[t]);
        let den: u128 = (cs[t].count as u128) * (cs[t].count as u128);
        proof {
            lemma_mul_le(num as int, best_den as int, 77_371_252_455_336_267_181_195_264,
                4_294_967_296);
            lemma_mul_le(best_num as int, den as int, 77_371_252_455_336_267_181_195_264,
                4_294_967_296);
        }
        if num * best_den < best_num * den {
            assert(dist_lt(ip, cv[t as int], cv[best as int]));
            best = t;
            best_num = num;
            best_den = den;
        } else {
            assert(!dist_lt(ip, cv[t as int], cv[best as int]));
        }
    }
    best
}

/// Builds the partition that assigns every dataset vector to its nearest
/// centroid: a fresh list of `k` clusters, each holding the indices of its
/// members in dataset order, ties broken towards the lowest centroid index.
pub fn assign_all(d: &Dataset, cs: &Vec<Centroid>) -> (p: Vec<Vec<usize>>)
    requires
        data_wf(d@),
        cs@.len() >= 1,
        cents_wf(cents_view(cs@), d@[0].len() as int),
    ensures
        part_view(p@) == spec_assign_all(d@, cents_view(cs@)),
        is_partition(part_view(p@), d@.len() as int, cs@.len() as int),
{
    let ghost dv = d@;
    let ghost cv = cents_view(cs@);
    let k = cs.len();
    let n = d.vecs.len();
    let mut parts: Vec<Vec<usize>> = Vec::new();
    for j in 0..k
        invariant
            parts@.len() == j,
            forall|t: int| 0 <= t < j ==> #[trigger] parts@[t]@.len() == 0,
    {
        parts.push(Vec::new());
    }
    assert(part_view(parts@) =~~= empty_parts(k as int));
    for i in 0..n
        invariant
            n == dv.len(),
            k == cs@.len() >= 1,
            dv == d@,
            cv == cents_view(cs@),
            data_wf(dv),
            cents_wf(cv, dv[0].len() as int),
            parts@.len() == k,
            part_view(parts@) == assign_to(dv, cv, i as int),
    {
        let row = &d.vecs[i];
        assert(dv[i as int] == ints(row@));
        assert(dv[i as int].len() == dv[0].len());
        assert forall|c: int| 0 <= c < row@.len() implies -(MAX_COORD as int) <= #[trigger] row@[c]
            as int <= MAX_COORD as int by {
            assert(dv[i as int][c] == row@[c] as int);
        }
        let j = nearest_idx(row, cs);
        proof {
            lemma_nearest_to_range(dv[i as int], cv, cv.len() as int);
        }
        let ghost old_parts = parts@;
        parts[j].push(i);
        proof {
            let jj = j as int;
            let p0 = part_view(old_parts);
            assert(parts@ == old_parts.update(jj, parts@[jj]));
            assert(parts@[jj]@ == old_parts[jj]@.push(i));
            assert(part_view(parts@) =~~= p0.update(jj, p0[jj].push(i as int)));
            assert(part_view(parts@) == assign_to(dv, cv, i + 1));
        }
    }
    proof {
        lemma_assign_to_partition(dv, cv, n as int);
    }
    parts
}

/// A vector of `dim` zero components.
pub open spec fn zero_seq(dim: int) -> Seq<int> {
    Seq::new(dim as nat, |i: int| 0)
}

/// Componentwise sum of two equal-length vectors.
pub open spec fn add_row(a: Seq<int>, b: Seq<int>) -> Seq<int> {
    Seq::new(a.len(), |i: int| a[i] + b[i])
}

/// The componentwise sum of the first `m` members of a cluster of dataset
/// indices.
pub open spec fn member_sums_to(d: Seq<Seq<int>>, cl: Seq<int>, m: int, dim: int) -> Seq<int>
    decreases m,
{
    if m <= 0 {
        zero_seq(dim)
    } else {
        add_row(member_sums_to(d, cl, m - 1, dim), d[cl[m - 1]])
    }
}

/// The exact centroid of one cluster: the member sums with the member count.
/// An empty cluster keeps count 1 and all-zero sums: the zero vector.
pub open spec fn cluster_centroid(d: Seq<Seq<int>>, cl: Seq<int>, dim: int) -> CentroidModel {
    CentroidModel {
        sums: member_sums_to(d, cl, cl.len() as int, dim),
        count: if cl.len() == 0 {
            1
        } else {
            cl.len() as int
        },
    }
}

/// The exact centroids of every cluster of a partition.
pub open spec fn spec_recompute(d: Seq<Seq<int>>, p: Seq<Seq<int>>) -> Seq<CentroidModel> {
    Seq::new(p.len(), |j: int| cluster_centroid(d, p[j], d[0].len() as int))
}

pub proof fn lemma_member_sums_len(d: Seq<Seq<int>>, cl: Seq<int>, m: int, dim: int)
    requires
        0 <= dim,
    ensures
        member_sums_to(d, cl, m, dim).len() == dim,
    decreases m,
{
    if m > 0 {
        lemma_member_sums_len(d, cl, m - 1, dim);
    }
}

/// Adds one dataset row into a running componentwise sum, exactly.
pub(crate) fn add_row_exec(acc: &mut Vec<i64>, row: &Vec<i64>, b: Ghost<int>)
    requires
        old(acc)@.len() == row@.len() <= MAX_DIM as int,
        0 <= b@ <= 65_535,
        forall|i: int|
            0 <= i < old(acc)@.len()
                ==> -b@ * 1_048_576 <= #[trigger] old(acc)@[i] as int <= b@ * 1_048_576,
        forall|i: int|
            0 <= i < row@.len()
                ==> -(MAX_COORD as int) <= #[trigger] row@[i] as int <= MAX_COORD as int,
    ensures
        final(acc)@.len() == old(acc)@.len(),
        ints(final(acc)@) == add_row(ints(old(acc)@), ints(row@)),
        forall|i: int|
            0 <= i < final(acc)@.len()
                ==> -(b@ + 1) * 1_048_576 <= #[trigger] final(acc)@[i] as int <= (b@ + 1)
                    * 1_048_576,
{
    let ghost prev = ints(old(acc)@);
    let ghost irow = ints(row@);
    let dim = acc.len();
    for t in 0..dim
        invariant
            dim == acc@.len() == row@.len(),
            prev.len() == dim,
            irow.len() == dim,
            prev == ints(old(acc)@),
            irow == ints(row@),
            0 <= b@ <= 65_535,
            forall|i: int| 0 <= i < dim ==> -b@ * 1_048_576 <= #[trigger] prev[i] <= b@ * 1_048_576,
            forall|i: int| 0 <= i < dim ==> -1_048_576 <= #[trigger] irow[i] <= 1_048_576,
            forall|i: int| t <= i < dim ==> #[trigger] acc@[i] as int == prev[i],
            forall|i: int| 0 <= i < t ==> #[trigger] acc@[i] as int == prev[i] + irow[i],
    {
        assert(acc@[t as int] as int == prev[t as int]);
        assert(irow[t as int] == row@[t as int] as int);
        let v: i64 = acc[t] + row[t];
        acc[t] = v;
    }
    assert(ints(acc@) =~= add_row(prev, irow));
}

/// Recomputes each cluster's centroid as the exact componentwise mean of its
/// members: the member sums with the member count; an empty cluster yields
/// the zero vector.
pub fn recompute_centroids(d: &Dataset, p: &Vec<Vec<usize>>) -> (cs: Vec<Centroid>)
    requires
        data_wf(d@),
        is_partition(part_view(p@), d@.len() as int, p@.len() as int),
    ensures
        cents_view(cs@) == spec_recompute(d@, part_view(p@)),
        cents_wf(cents_view(cs@), d@[0].len() as int),
        cs@.len() == p@.len(),
{
    let ghost dv = d@;
    let ghost pv = part_view(p@);
    let dim = d.dim();
    let n = d.vecs.len();
    let mut cs: Vec<Centroid> = Vec::new();
    let kk = p.len();
    for j in 0..kk
        invariant
            kk == p@.len(),
            dv == d@,
            pv == part_view(p@),
            data_wf(dv),
            is_partition(pv, dv.len() as int, pv.len() as int),
            pv.len() == p@.len(),
            dim == dv[0].len(),
            n == dv.len(),
            cs@.len() == j,
            forall|t: int|
                0 <= t < j ==> #[trigger] cents_view(cs@)[t] == cluster_centroid(dv, pv[t],
                dim as int),
            forall|t: int| 0 <= t < j ==> cm_wf(#[trigger] cents_view(cs@)[t], dim as int),
    {
        let bucket = &p[j];
        let ghost clv = pv[j as int];
        assert(clv == p@[j as int]@.map_values(|x: usize| x as int));
        let m = bucket.len();
        proof {
            lemma_total_len_parts(pv, j as int);
            assert forall|i: int| 0 <= i < m implies 0 <= #[trigger] clv[i] < n by {
                assert(pv[j as int][i] == clv[i]);
            }
        }
        let mut sums: Vec<i64> = Vec::new();
        for t in 0..dim
            invariant
                sums@.len() == t,
                forall|i: int| 0 <= i < t ==> #[trigger] sums@[i] == 0i64,
        {
            sums.push(0i64);
        }
        assert(ints(sums@) =~= zero_seq(dim as int));
        for u in 0..m
            invariant
                m == bucket@.len() <= 65_536,
                dv == d@,
                data_wf(dv),
                dim == dv[0].len() <= MAX_DIM as int,
                n == dv.len(),
                clv == bucket@.map_values(|x: usize| x as int),
                forall|i: int| 0 <= i < m ==> 0 <= #[trigger] clv[i] < n,
                sums@.len() == dim,
                ints(sums@) == member_sums_to(dv, clv, u as int, dim as int),
                forall|i: int|
                    0 <= i < dim
                        ==> -(u as int) * 1_048_576 <= #[trigger] sums@[i] as int <= (u as int)
                            * 1_048_576,
        {
            assert(clv[u as int] == bucket@[u as int] as int);
            let mi = bucket[u];
            let row = &d.vecs[mi];
            assert(dv[mi as int] == ints(row@));
            assert(dv[mi as int].len() == dv[0].len());
            assert forall|c: int| 0 <= c < row@.len() implies -(MAX_COORD as int)
                <= #[trigger] row@[c] as int <= MAX_COORD as int by {
                assert(dv[mi as int][c] == row@[c] as int);
            }
            add_row_exec(&mut sums, row, Ghost(u as int));
        }
        let count: usize = if m == 0 {
            1
        } else {
            m
        };
        let cent = Centroid { sums, count };
        proof {
            assert(cent@.sums == member_sums_to(dv, clv, clv.len() as int, dim as int));
            assert(cent@ == cluster_centroid(dv, clv, dim as int));
            assert(forall|i: int|
                0 <= i < dim ==> -(count as int) * 1_048_576 <= #[trigger] cent@.sums[i] <= (
                count as int) * 1_048_576);
            assert(cm_wf(cent@, dim as int));
        }
        let ghost old_cs = cs@;
        cs.push(cent);
        proof {
            assert(cents_view(cs@)[j as int] == cent@);
            assert forall|t: int| 0 <= t < j implies #[trigger] cents_view(cs@)[t] == cents_view(
                old_cs)[t] by {
                assert(cs@[t] == old_cs[t]);
            }
        }
    }
    assert(cents_view(cs@) =~~= spec_recompute(dv, pv));
    cs
}

/// Reports whether two partitions are identical: the same clusters, each
/// holding the same dataset indices in the same order.
pub fn partitions_equal(a: &Vec<Vec<usize>>, b: &Vec<Vec<usize>>) -> (r: bool)
    ensures
        r == (part_view(a@) == part_view(b@)),
{
    let ghost pa = part_view(a@);
    let ghost pb = part_view(b@);
    if a.len() != b.len() {
        assert(pa.len() != pb.len());
        return false;
    }
    let k = a.len();
    for j in 0..k
        invariant
            k == a@.len() == b@.len(),
            pa == part_view(a@),
            pb == part_view(b@),
            pa.len() == pb.len() == k,
            forall|t: int| 0 <= t < j ==> #[trigger] pa[t] == pb[t],
    {
        let ca = &a[j];
        let cb = &b[j];
        assert(pa[j as int] == ca@.map_values(|x: usize| x as int));
        assert(pb[j as int] == cb@.map_values(|x: usize| x as int));
        if ca.len() != cb.len() {
            assert(pa[j as int].len() != pb[j as int].len());
            return false;
        }
        let m = ca.len();
        for t in 0..m
            invariant
                m == ca@.len() == cb@.len(),
                0 <= j < pa.len(),
                pa == part_view(a@),
                pb == part_view(b@),
                pa[j as int] == ca@.map_values(|x: usize| x as int),
                pb[j as int] == cb@.map_values(|x: usize| x as int),
                forall|u: int| 0 <= u < t ==> #[trigger] ca@[u] == cb@[u],
        {
            if ca[t] != cb[t] {
                assert(pa[j as int][t as int] != pb[j as int][t as int]);
                return false;
            }
        }
        assert(pa[j as int] =~= pb[j as int]);
    }
    assert(pa =~~= pb);
    true
}


/// The safety cap on assign/update iterations.
pub const MAX_ITERS: usize = 1_000;

/// The fixed-point iteration from a current partition: recompute the
/// centroids, reassign every vector, stop at the first partition equal to
/// its predecessor. `None` when `left` iterations were not enough.
pub open spec fn kmeans_iter(d: Seq<Seq<int>>, part: Seq<Seq<int>>, left: nat) -> Option<
    Seq<Seq<int>>,
>
    decreases left,
{
    if left == 0 {
        Option::None
    } else {
        let next = spec_assign_all(d, spec_recompute(d, part));
        if next == part {
            Option::Some(next)
        } else {
            kmeans_iter(d, next, (left - 1) as nat)
        }
    }
}

/// The whole deterministic run: seed, assign, then iterate to the fixed
/// point, with each failure mapped to its error.
pub open spec fn spec_kmeans(d: Seq<Seq<int>>, k: int) -> Result<Seq<Seq<int>>, ClusterError> {
    match spec_span(d, k) {
        Option::None => Result::Err(ClusterError::Initialization),
        Option::Some(seeds) => match kmeans_iter(d, spec_assign_all(d, seeds),
            MAX_ITERS as nat) {
            Option::None => Result::Err(ClusterError::NonConvergence),
            Option::Some(p) => Result::Ok(p),
        },
    }
}

/// Deterministic k-means: farthest-point seeding, then the assign/update
/// iteration until two successive partitions are identical. The result is
/// pinned to `spec_kmeans`, so two runs on the same input return the same
/// partition. A returned partition is a true partition of the dataset
/// indices into `k` clusters, and is a fixed point: recomputing centroids
/// and reassigning reproduces it unchanged.
pub fn deterministic_kmeans(d: &Dataset, k: usize) -> (r: Result<Vec<Vec<usize>>, ClusterError>)
    requires
        data_wf(d@),
        1 <= k <= d@.len(),
    ensures
        match r {
            Ok(p) => {
                &&& spec_kmeans(d@, k as int) == Result::<Seq<Seq<int>>, ClusterError>::Ok(
                    part_view(p@))
                &&& is_partition(part_view(p@), d@.len() as int, k as int)
                &&& spec_assign_all(d@, spec_recompute(d@, part_view(p@))) == part_view(p@)
            },
            Err(e) => spec_kmeans(d@, k as int) == Result::<Seq<Seq<int>>, ClusterError>::Err(e),
        },
{
    let ghost dv = d@;
    let seeds = match span_clusters(d, k) {
        Ok(s) => s,
        Err(e) => {
            return Err(e);
        },
    };
    let mut part = assign_all(d, &seeds);
    let ghost part0 = part_view(part@);
    let mut iters: usize = 0;
    while iters < MAX_ITERS
        invariant
            dv == d@,
            data_wf(dv),
            1 <= k <= dv.len(),
            0 <= iters <= MAX_ITERS,
            part@.len() == k,
            is_partition(part_view(part@), dv.len() as int, k as int),
            kmeans_iter(dv, part_view(part@), (MAX_ITERS - iters) as nat) == kmeans_iter(dv,
                part0, MAX_ITERS as nat),
            spec_kmeans(dv, k as int) == match kmeans_iter(dv, part0, MAX_ITERS as nat) {
                Option::None => Result::<Seq<Seq<int>>, ClusterError>::Err(
                    ClusterError::NonConvergence),
                Option::Some(q) => Result::<Seq<Seq<int>>, ClusterError>::Ok(q),
            },
        decreases MAX_ITERS - iters,
    {
        let cents = recompute_centroids(d, &part);
        let next = assign_all(d, &cents);
        assert(part_view(next@) == spec_assign_all(dv, spec_recompute(dv, part_view(part@))));
        if partitions_equal(&part, &next) {
            assert(kmeans_iter(dv, part_view(part@), (MAX_ITERS - iters) as nat)
                == Option::Some(part_view(next@)));
            assert(spec_assign_all(dv, spec_recompute(dv, part_view(next@)))
                == part_view(next@));
            return Ok(next);
        }
        part = next;
        iters = iters + 1;
    }
    assert(kmeans_iter(dv, part_view(part@), 0) is None);
    Err(ClusterError::NonConvergence)
}

} // verus!
