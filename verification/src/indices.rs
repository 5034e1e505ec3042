use vstd::prelude::*;
use crate::dataset::{Dataset, Centroid, CentroidModel, cents_view, cents_wf, cm_wf, data_wf,
    distance, ints, part_view, scaled_distance, scaled_sq_dist, sq_dist, sq_dist_to, MAX_COORD,
    DIST_BOUND};
use crate::cluster::{is_partition, lemma_total_len_parts, recompute_centroids, spec_recompute};
use crate::errors::ClusterError;

verus! {

/// An exact non-negative rational value, as a numerator over a denominator.
#[derive(Clone, Copy, Debug, PartialEq, Eq, Structural)]
pub struct Ratio {
    pub num: u128,
    pub den: u128,
}

pub open spec fn imax(a: int, b: int) -> int {
    if a > b {
        a
    } else {
        b
    }
}

pub open spec fn imin(a: int, b: int) -> int {
    if a < b {
        a
    } else {
        b
    }
}

/// The largest distance from cluster member `j` to the members before it,
/// over the first `m` of them.
pub open spec fn pair_max_to(d: Seq<Seq<int>>, cl: Seq<int>, j: int, m: int) -> int
    decreases m,
{
    if m <= 0 {
        0
    } else {
        imax(pair_max_to(d, cl, j, m - 1), sq_dist(d[cl[m - 1]], d[cl[j]]))
    }
}

/// The diameter over the first `m` members of a cluster: the largest
/// pairwise distance, and 0 when no pair exists.
pub open spec fn diam_to(d: Seq<Seq<int>>, cl: Seq<int>, m: int) -> int
    decreases m,
{
    if m <= 0 {
        0
    } else {
        imax(diam_to(d, cl, m - 1), pair_max_to(d, cl, m - 1, m - 1))
    }
}

/// The diameter of a cluster: the largest pairwise distance between two of
/// its members; 0 for an empty or one-member cluster, where no pair exists.
pub open spec fn cluster_diameter(d: Seq<Seq<int>>, cl: Seq<int>) -> int {
    diam_to(d, cl, cl.len() as int)
}

/// The largest diameter over the first `m` clusters.
pub open spec fn max_diam_to(d: Seq<Seq<int>>, p: Seq<Seq<int>>, m: int) -> int
    decreases m,
{
    if m <= 0 {
        0
    } else {
        imax(max_diam_to(d, p, m - 1), cluster_diameter(d, p[m - 1]))
    }
}

/// The largest cluster diameter of the partition.
pub open spec fn spec_max_diameter(d: Seq<Seq<int>>, p: Seq<Seq<int>>) -> int {
    max_diam_to(d, p, p.len() as int)
}

/// The smallest distance from `v` to the first `m` members of `c2`.
pub open spec fn row_min_to(d: Seq<Seq<int>>, v: Seq<int>, c2: Seq<int>, m: int) -> int
    decreases m,
{
    if m <= 1 {
        sq_dist(v, d[c2[0]])
    } else {
        imin(row_min_to(d, v, c2, m - 1), sq_dist(v, d[c2[m - 1]]))
    }
}

/// The single linkage over the first `m` members of `c1`: the smallest
/// distance from one of them to any member of `c2`.
pub open spec fn link_to(d: Seq<Seq<int>>, c1: Seq<int>, c2: Seq<int>, m: int) -> int
    decreases m,
{
    if m <= 1 {
        row_min_to(d, d[c1[0]], c2, c2.len() as int)
    } else {
        imin(link_to(d, c1, c2, m - 1), row_min_to(d, d[c1[m - 1]], c2, c2.len() as int))
    }
}

/// The single linkage of two non-empty clusters: the smallest pairwise
/// distance between a member of one and a member of the other.
pub open spec fn single_linkage(d: Seq<Seq<int>>, c1: Seq<int>, c2: Seq<int>) -> int {
    link_to(d, c1, c2, c1.len() as int)
}

/// Folds one more linkage value into a running optional minimum.
pub open spec fn omin(a: Option<int>, b: int) -> Option<int> {
    match a {
        Option::None => Option::Some(b),
        Option::Some(x) => Option::Some(imin(x, b)),
    }
}

/// The smallest linkage between cluster `j` and the clusters after it up to
/// `m`, skipping empty clusters; `None` when no such pair exists.
pub open spec fn link_row_to(d: Seq<Seq<int>>, p: Seq<Seq<int>>, j: int, m: int) -> Option<int>
    decreases m - j,
{
    if m <= j + 1 {
        Option::None
    } else {
        let prev = link_row_to(d, p, j, m - 1);
        if p[j].len() > 0 && p[m - 1].len() > 0 {
            omin(prev, single_linkage(d, p[j], p[m - 1]))
        } else {
            prev
        }
    }
}

/// Combines two optional minimums.
pub open spec fn omin2(a: Option<int>, b: Option<int>) -> Option<int> {
    match b {
        Option::None => a,
        Option::Some(v) => omin(a, v),
    }
}

/// The smallest linkage over every pair of non-empty clusters among the
/// first `m`; `None` when no such pair exists.
pub open spec fn min_link_to(d: Seq<Seq<int>>, p: Seq<Seq<int>>, m: int) -> Option<int>
    decreases m,
{
    if m <= 0 {
        Option::None
    } else {
        omin2(min_link_to(d, p, m - 1), link_row_to(d, p, m - 1, p.len() as int))
    }
}

/// The smallest single linkage over every pair of non-empty clusters.
pub open spec fn spec_min_linkage(d: Seq<Seq<int>>, p: Seq<Seq<int>>) -> Option<int> {
    min_link_to(d, p, p.len() as int)
}

/// The Dunn index of a partition, as the exact pair (smallest single
/// linkage, largest diameter). Fewer than two clusters is
/// `InsufficientClusters`; no pair of non-empty clusters, or every diameter
/// zero, is `DegenerateCluster`.
pub open spec fn spec_dunn(d: Seq<Seq<int>>, p: Seq<Seq<int>>) -> Result<(int, int),
    ClusterError> {
    if p.len() < 2 {
        Result::Err(ClusterError::InsufficientClusters)
    } else {
        match spec_min_linkage(d, p) {
            Option::None => Result::Err(ClusterError::DegenerateCluster),
            Option::Some(l) => {
                let diam = spec_max_diameter(d, p);
                if diam == 0 {
                    Result::Err(ClusterError::DegenerateCluster)
                } else {
                    Result::Ok((l, diam))
                }
            },
        }
    }
}

pub proof fn lemma_pair_max_nonneg(d: Seq<Seq<int>>, cl: Seq<int>, j: int, m: int)
    ensures
        pair_max_to(d, cl, j, m) >= 0,
    decreases m,
{
    if m > 0 {
        lemma_pair_max_nonneg(d, cl, j, m - 1);
    }
}

pub proof fn lemma_diam_nonneg(d: Seq<Seq<int>>, cl: Seq<int>, m: int)
    ensures
        diam_to(d, cl, m) >= 0,
    decreases m,
{
    if m > 0 {
        lemma_diam_nonneg(d, cl, m - 1);
        lemma_pair_max_nonneg(d, cl, m - 1, m - 1);
    }
}

pub proof fn lemma_max_diam_nonneg(d: Seq<Seq<int>>, p: Seq<Seq<int>>, m: int)
    ensures
        max_diam_to(d, p, m) >= 0,
    decreases m,
{
    if m > 0 {
        lemma_max_diam_nonneg(d, p, m - 1);
        lemma_diam_nonneg(d, p[m - 1], p[m - 1].len() as int);
    }
}

/// The distance between two dataset vectors, by index.
fn row_dist(d: &Dataset, a: usize, b: usize) -> (r: u64)
    requires
        data_wf(d@),
        a < d@.len(),
        b < d@.len(),
    ensures
        r == sq_dist(d@[a as int], d@[b as int]),
        r <= DIST_BOUND,
{
    let va = &d.vecs[a];
    let vb = &d.vecs[b];
    assert(d@[a as int] == ints(va@));
    assert(d@[b as int] == ints(vb@));
    assert(d@[a as int].len() == d@[0].len());
    assert(d@[b as int].len() == d@[0].len());
    assert forall|c: int| 0 <= c < va@.len() implies -(MAX_COORD as int) <= #[trigger] va@[c]
        as int <= MAX_COORD as int by {
        assert(d@[a as int][c] == va@[c] as int);
    }
    assert forall|c: int| 0 <= c < vb@.len() implies -(MAX_COORD as int) <= #[trigger] vb@[c]
        as int <= MAX_COORD as int by {
        assert(d@[b as int][c] == vb@[c] as int);
    }
    distance(va, vb)
}

/// The diameter of one cluster of dataset indices.
fn cluster_diam_exec(d: &Dataset, cl: &Vec<usize>) -> (r: u64)
    requires
        data_wf(d@),
        forall|i: int| 0 <= i < cl@.len() ==> (#[trigger] cl@[i]) < d@.len(),
    ensures
        r == cluster_diameter(d@, cl@.map_values(|x: usize| x as int)),
{
    let ghost dv = d@;
    let ghost clv = cl@.map_values(|x: usize| x as int);
    let mut best: u64 = 0;
    let n = cl.len();
    for m in 0..n
        invariant
            n == cl@.len(),
            dv == d@,
            data_wf(dv),
            clv == cl@.map_values(|x: usize| x as int),
            forall|i: int| 0 <= i < cl@.len() ==> (#[trigger] cl@[i]) < dv.len(),
            best == diam_to(dv, clv, m as int),
    {
        proof {
            lemma_diam_nonneg(dv, clv, m as int);
        }
        for i in 0..m
            invariant
                0 <= m < n == cl@.len(),
                dv == d@,
                data_wf(dv),
                clv == cl@.map_values(|x: usize| x as int),
                forall|t: int| 0 <= t < cl@.len() ==> (#[trigger] cl@[t]) < dv.len(),
                best == imax(diam_to(dv, clv, m as int), pair_max_to(dv, clv, m as int, i as int)),
        {
            assert(clv[i as int] == cl@[i as int] as int);
            assert(clv[m as int] == cl@[m as int] as int);
            let dd = row_dist(d, cl[i], cl[m]);
            if dd > best {
                best = dd;
            }
        }
    }
    best
}

/// The single linkage of two non-empty clusters of dataset indices.
fn linkage_exec(d: &Dataset, c1: &Vec<usize>, c2: &Vec<usize>) -> (r: u64)
    requires
        data_wf(d@),
        c1@.len() >= 1,
        c2@.len() >= 1,
        forall|i: int| 0 <= i < c1@.len() ==> (#[trigger] c1@[i]) < d@.len(),
        forall|i: int| 0 <= i < c2@.len() ==> (#[trigger] c2@[i]) < d@.len(),
    ensures
        r == single_linkage(d@, c1@.map_values(|x: usize| x as int), c2@.map_values(
            |x: usize| x as int)),
{
    let ghost dv = d@;
    let ghost v1 = c1@.map_values(|x: usize| x as int);
    let ghost v2 = c2@.map_values(|x: usize| x as int);
    assert(v1[0] == c1@[0] as int);
    assert(v2[0] == c2@[0] as int);
    let mut best: u64 = row_dist(d, c1[0], c2[0]);
    let m2 = c2.len();
    for b in 1..m2
        invariant
            m2 == c2@.len(),
            dv == d@,
            data_wf(dv),
            c1@.len() >= 1,
            v1 == c1@.map_values(|x: usize| x as int),
            v2 == c2@.map_values(|x: usize| x as int),
            forall|i: int| 0 <= i < c1@.len() ==> (#[trigger] c1@[i]) < dv.len(),
            forall|i: int| 0 <= i < c2@.len() ==> (#[trigger] c2@[i]) < dv.len(),
            best == row_min_to(dv, dv[v1[0]], v2, b as int),
    {
        assert(v2[b as int] == c2@[b as int] as int);
        let dd = row_dist(d, c1[0], c2[b]);
        if dd < best {
            best = dd;
        }
    }
    assert(best == link_to(dv, v1, v2, 1));
    let m1 = c1.len();
    for a in 1..m1
        invariant
            m1 == c1@.len(),
            m2 == c2@.len() >= 1,
            dv == d@,
            data_wf(dv),
            v1 == c1@.map_values(|x: usize| x as int),
            v2 == c2@.map_values(|x: usize| x as int),
            forall|i: int| 0 <= i < c1@.len() ==> (#[trigger] c1@[i]) < dv.len(),
            forall|i: int| 0 <= i < c2@.len() ==> (#[trigger] c2@[i]) < dv.len(),
            best == link_to(dv, v1, v2, a as int),
    {
        assert(v1[a as int] == c1@[a as int] as int);
        let mut row_best: u64 = row_dist(d, c1[a], c2[0]);
        for b in 1..m2
            invariant
                0 <= a < m1 == c1@.len(),
                m2 == c2@.len() >= 1,
                dv == d@,
                data_wf(dv),
                v1 == c1@.map_values(|x: usize| x as int),
                v2 == c2@.map_values(|x: usize| x as int),
                forall|i: int| 0 <= i < c1@.len() ==> (#[trigger] c1@[i]) < dv.len(),
                forall|i: int| 0 <= i < c2@.len() ==> (#[trigger] c2@[i]) < dv.len(),
                row_best == row_min_to(dv, dv[v1[a as int]], v2, b as int),
        {
            assert(v2[b as int] == c2@[b as int] as int);
            let dd = row_dist(d, c1[a], c2[b]);
            if dd < row_best {
                row_best = dd;
            }
        }
        if row_best < best {
            best = row_best;
        }
    }
    best
}

/// The Dunn index of a finished partition: the smallest single linkage over
/// all pairs of non-empty clusters, divided by the largest cluster diameter,
/// returned as the exact ratio. An empty or one-member cluster has diameter
/// 0; a pair with an empty side yields no linkage. Fails with
/// `InsufficientClusters` when the partition has fewer than two clusters,
/// and with `DegenerateCluster` when no linkage pair exists or every
/// diameter is zero.
pub fn dunn_index(d: &Dataset, p: &Vec<Vec<usize>>) -> (r: Result<Ratio, ClusterError>)
    requires
        data_wf(d@),
        is_partition(part_view(p@), d@.len() as int, p@.len() as int),
    ensures
        match r {
            Ok(q) => spec_dunn(d@, part_view(p@)) == Result::<(int, int), ClusterError>::Ok(
                ((q.num as int, q.den as int))),
            Err(e) => spec_dunn(d@, part_view(p@)) == Result::<(int, int), ClusterError>::Err(e),
        },
{
    let ghost dv = d@;
    let ghost pv = part_view(p@);
    let k = p.len();
    if k < 2 {
        return Err(ClusterError::InsufficientClusters);
    }
    let mut md: u64 = 0;
    for j in 0..k
        invariant
            k == p@.len(),
            dv == d@,
            pv == part_view(p@),
            data_wf(dv),
            is_partition(pv, dv.len() as int, pv.len() as int),
            md == max_diam_to(dv, pv, j as int),
    {
        let cl = &p[j];
        assert(pv[j as int] == cl@.map_values(|x: usize| x as int));
        assert forall|i: int| 0 <= i < cl@.len() implies (#[trigger] cl@[i]) < dv.len() by {
            assert(pv[j as int][i] == cl@[i] as int);
        }
        let dd = cluster_diam_exec(d, cl);
        proof {
            lemma_max_diam_nonneg(dv, pv, j as int);
            lemma_diam_nonneg(dv, pv[j as int], pv[j as int].len() as int);
        }
        if dd > md {
            md = dd;
        }
    }
    let mut have = false;
    let mut best: u64 = 0;
    for j in 0..k
        invariant
            k == p@.len(),
            dv == d@,
            pv == part_view(p@),
            data_wf(dv),
            is_partition(pv, dv.len() as int, pv.len() as int),
            have == (min_link_to(dv, pv, j as int) is Some),
            have ==> min_link_to(dv, pv, j as int) == Option::Some(best as int),
    {
        let cl1 = &p[j];
        assert(pv[j as int] == cl1@.map_values(|x: usize| x as int));
        let start = j + 1;
        for l in start..k
            invariant
                k == p@.len(),
                0 <= j < k,
                start == j + 1,
                dv == d@,
                pv == part_view(p@),
                data_wf(dv),
                is_partition(pv, dv.len() as int, pv.len() as int),
                pv[j as int] == cl1@.map_values(|x: usize| x as int),
                have == (omin2(min_link_to(dv, pv, j as int), link_row_to(dv, pv, j as int,
                    l as int)) is Some),
                have ==> omin2(min_link_to(dv, pv, j as int), link_row_to(dv, pv, j as int,
                    l as int)) == Option::Some(best as int),
        {
            let cl2 = &p[l];
            assert(pv[l as int] == cl2@.map_values(|x: usize| x as int));
            if cl1.len() > 0 && cl2.len() > 0 {
                assert forall|i: int| 0 <= i < cl1@.len() implies (#[trigger] cl1@[i]) < dv.len()
                    by {
                    assert(pv[j as int][i] == cl1@[i] as int);
                }
                assert forall|i: int| 0 <= i < cl2@.len() implies (#[trigger] cl2@[i]) < dv.len()
                    by {
                    assert(pv[l as int][i] == cl2@[i] as int);
                }
                let lk = linkage_exec(d, cl1, cl2);
                if !have {
                    have = true;
                    best = lk;
                } else if lk < best {
                    best = lk;
                }
            }
        }
    }
    if !have {
        return Err(ClusterError::DegenerateCluster);
    }
    if md == 0 {
        return Err(ClusterError::DegenerateCluster);
    }
    Ok(Ratio { num: best as u128, den: md as u128 })
}


/// The scaled squared distance between two centroids over the first `n`
/// components: `(a.count * b.count)^2` times the distance of the rational
/// means.
pub open spec fn cm_sq_dist_to(a: CentroidModel, b: CentroidModel, n: int) -> int
    decreases n,
{
    if n <= 0 {
        0
    } else {
        cm_sq_dist_to(a, b, n - 1) + (a.sums[n - 1] * b.count - b.sums[n - 1] * a.count) * (a.sums[
            n - 1] * b.count - b.sums[n - 1] * a.count)
    }
}

/// The exact rational squared distance between two centroids, as a
/// (numerator, denominator) pair.
pub open spec fn cm_dist(a: CentroidModel, b: CentroidModel) -> (int, int) {
    (cm_sq_dist_to(a, b, a.sums.len() as int), (a.count * a.count) * (b.count * b.count))
}

/// Two distinct clusters have coincident centroids.
pub open spec fn has_coincident(ms: Seq<CentroidModel>) -> bool {
    exists|i: int, j: int|
        0 <= i < ms.len() && 0 <= j < ms.len() && i != j && #[trigger] cm_sq_dist_to(ms[i], ms[j],
            ms[i].sums.len() as int) == 0
}

pub proof fn lemma_cm_dist_nonneg(a: CentroidModel, b: CentroidModel, n: int)
    ensures
        cm_sq_dist_to(a, b, n) >= 0,
    decreases n,
{
    if n > 0 {
        lemma_cm_dist_nonneg(a, b, n - 1);
        let t = a.sums[n - 1] * b.count - b.sums[n - 1] * a.count;
        assert(t * t >= 0) by (nonlinear_arith);
    }
}

pub proof fn lemma_cm_dist_symm(a: CentroidModel, b: CentroidModel, n: int)
    ensures
        cm_sq_dist_to(a, b, n) == cm_sq_dist_to(b, a, n),
    decreases n,
{
    if n > 0 {
        lemma_cm_dist_symm(a, b, n - 1);
        let t = a.sums[n - 1] * b.count - b.sums[n - 1] * a.count;
        let u = b.sums[n - 1] * a.count - a.sums[n - 1] * b.count;
        assert(t * t == u * u) by (nonlinear_arith)
            requires
                t == -u,
        ;
    }
}

/// The summed scaled distances from the first `m` members of a cluster to
/// its centroid.
pub open spec fn scatter_num_to(d: Seq<Seq<int>>, cl: Seq<int>, cm: CentroidModel, m: int) -> int
    decreases m,
{
    if m <= 0 {
        0
    } else {
        scatter_num_to(d, cl, cm, m - 1) + scaled_sq_dist(d[cl[m - 1]], cm)
    }
}

/// The scatter of one cluster: the exact mean distance from its members to
/// its centroid, as a rational pair; 0 for an empty cluster.
pub open spec fn spec_scatter(d: Seq<Seq<int>>, cl: Seq<int>, cm: CentroidModel) -> (int, int) {
    if cl.len() == 0 {
        (0, 1)
    } else {
        (scatter_num_to(d, cl, cm, cl.len() as int), cl.len() * (cm.count * cm.count))
    }
}

/// Exact rational addition, unnormalized.
pub open spec fn rat_add(a: (int, int), b: (int, int)) -> (int, int) {
    (a.0 * b.1 + b.0 * a.1, a.1 * b.1)
}

/// Exact rational division, unnormalized.
pub open spec fn rat_div(a: (int, int), b: (int, int)) -> (int, int) {
    (a.0 * b.1, a.1 * b.0)
}

/// The pair fits the machine word: numerator and positive denominator both
/// at most `u128::MAX`.
pub open spec fn rfits(x: (int, int)) -> bool {
    0 <= x.0 <= u128::MAX as int && 0 < x.1 <= u128::MAX as int
}

/// The cross products of an exact rational comparison fit the machine word.
pub open spec fn cmp_fits(a: (int, int), b: (int, int)) -> bool {
    a.0 * b.1 <= u128::MAX as int && b.0 * a.1 <= u128::MAX as int
}

/// Exact rational strictly-greater, by cross multiplication.
pub open spec fn rat_gt(a: (int, int), b: (int, int)) -> bool {
    a.0 * b.1 > b.0 * a.1
}

/// One similarity ratio `(d_i + d_j) / dist(m_i, m_j)`, or `None` where an
/// intermediate no longer fits the machine word.
pub open spec fn r_cand(ds: Seq<(int, int)>, ms: Seq<CentroidModel>, i: int, j: int) -> Option<
    (int, int),
> {
    let s = rat_add(ds[i], ds[j]);
    if !rfits(s) {
        Option::None
    } else {
        let q = rat_div(s, cm_dist(ms[i], ms[j]));
        if !rfits(q) {
            Option::None
        } else {
            Option::Some(q)
        }
    }
}

/// The running state of one `R_i` maximum: `None` when an intermediate
/// overflowed, `Some(None)` while no other cluster was seen yet.
pub open spec fn r_i_to(ds: Seq<(int, int)>, ms: Seq<CentroidModel>, i: int, m: int) -> Option<
    Option<(int, int)>,
>
    decreases m,
{
    if m <= 0 {
        Option::Some(Option::None)
    } else {
        let prev = r_i_to(ds, ms, i, m - 1);
        match prev {
            Option::None => Option::None,
            Option::Some(pb) => {
                if m - 1 == i {
                    Option::Some(pb)
                } else {
                    match r_cand(ds, ms, i, m - 1) {
                        Option::None => Option::None,
                        Option::Some(c) => match pb {
                            Option::None => Option::Some(Option::Some(c)),
                            Option::Some(bv) => {
                                if !cmp_fits(c, bv) {
                                    Option::None
                                } else if rat_gt(c, bv) {
                                    Option::Some(Option::Some(c))
                                } else {
                                    Option::Some(Option::Some(bv))
                                }
                            },
                        },
                    }
                }
            },
        }
    }
}

/// Packages the executable `R_i` search state as the specification sees it.
pub open spec fn rstate(have: bool, rn: int, rd: int) -> Option<Option<(int, int)>> {
    if have {
        Option::Some(Option::Some((rn, rd)))
    } else {
        Option::Some(Option::None)
    }
}

/// The machine ratio holds exactly the specification pair, whose
/// denominator is positive.
pub open spec fn ratio_matches(r: Ratio, x: (int, int)) -> bool {
    r.num as int == x.0 && r.den as int == x.1 && 0 < x.1
}

/// The exact running sum of the `R_i`, or `None` where an intermediate no
/// longer fits the machine word.
pub open spec fn sum_r_to(ds: Seq<(int, int)>, ms: Seq<CentroidModel>, m: int) -> Option<
    (int, int),
>
    decreases m,
{
    if m <= 0 {
        Option::Some((0, 1))
    } else {
        match sum_r_to(ds, ms, m - 1) {
            Option::None => Option::None,
            Option::Some(acc) => match r_i_to(ds, ms, m - 1, ms.len() as int) {
                Option::None => Option::None,
                Option::Some(Option::None) => Option::None,
                Option::Some(Option::Some(ri)) => {
                    let s = rat_add(acc, ri);
                    if rfits(s) {
                        Option::Some(s)
                    } else {
                        Option::None
                    }
                },
            },
        }
    }
}

/// The Davis-Bouldin index of a partition, computed with exact rational
/// arithmetic: the mean over all clusters of
/// `R_i = max over j != i of (d_i + d_j) / dist(m_i, m_j)`, where `m_i` is
/// the recomputed centroid and `d_i` the cluster scatter. Fewer than two
/// clusters is `InsufficientClusters`; two coincident centroids is
/// `DegenerateCluster`; an exact intermediate beyond the machine word is
/// `NumericOverflow`.
pub open spec fn spec_db(d: Seq<Seq<int>>, p: Seq<Seq<int>>) -> Result<(int, int), ClusterError> {
    if p.len() < 2 {
        Result::Err(ClusterError::InsufficientClusters)
    } else {
        let ms = spec_recompute(d, p);
        if has_coincident(ms) {
            Result::Err(ClusterError::DegenerateCluster)
        } else {
            let ds = Seq::new(p.len(), |i: int| spec_scatter(d, p[i], ms[i]));
            match sum_r_to(ds, ms, p.len() as int) {
                Option::None => Result::Err(ClusterError::NumericOverflow),
                Option::Some(sm) => {
                    let q = rat_div(sm, (p.len() as int, 1));
                    if rfits(q) {
                        Result::Ok(q)
                    } else {
                        Result::Err(ClusterError::NumericOverflow)
                    }
                },
            }
        }
    }
}

pub proof fn lemma_mul_nonneg(a: int, b: int)
    by (nonlinear_arith)
    requires
        0 <= a,
        0 <= b,
    ensures
        0 <= a * b,
{
}

pub proof fn lemma_mul_pos(a: int, b: int)
    by (nonlinear_arith)
    requires
        0 < a,
        0 < b,
    ensures
        0 < a * b,
{
}

/// Once some other cluster was seen, the `R_i` state is never `Some(None)`.
pub proof fn lemma_r_i_has_cand(ds: Seq<(int, int)>, ms: Seq<CentroidModel>, i: int, m: int,
    j0: int)
    requires
        0 <= j0 < m,
        j0 != i,
    ensures
        r_i_to(ds, ms, i, m) != rstate(false, 0, 1),
    decreases m,
{
    if m - 1 == i || j0 < m - 1 {
        lemma_r_i_has_cand(ds, ms, i, m - 1, j0);
    }
}

pub proof fn lemma_r_i_none_mono(ds: Seq<(int, int)>, ms: Seq<CentroidModel>, i: int, m1: int,
    m2: int)
    requires
        0 <= m1 <= m2,
        r_i_to(ds, ms, i, m1) is None,
    ensures
        r_i_to(ds, ms, i, m2) is None,
    decreases m2 - m1,
{
    if m2 > m1 {
        lemma_r_i_none_mono(ds, ms, i, m1, m2 - 1);
    }
}

pub proof fn lemma_sum_none_mono(ds: Seq<(int, int)>, ms: Seq<CentroidModel>, m1: int, m2: int)
    requires
        0 <= m1 <= m2,
        sum_r_to(ds, ms, m1) is None,
    ensures
        sum_r_to(ds, ms, m2) is None,
    decreases m2 - m1,
{
    if m2 > m1 {
        lemma_sum_none_mono(ds, ms, m1, m2 - 1);
    }
}

/// The exact scaled squared distance between two centroids, with its
/// denominator.
fn cm_dist_exec(a: &Centroid, b: &Centroid, dim: Ghost<int>) -> (r: (u128, u128))
    requires
        cm_wf(a@, dim@),
        cm_wf(b@, dim@),
        dim@ <= 4_096,
    ensures
        r.0 as int == cm_sq_dist_to(a@, b@, dim@),
        r.1 as int == (a@.count * a@.count) * (b@.count * b@.count),
        0 < r.1,
{
    let ghost am = a@;
    let ghost bm = b@;
    let mut acc: i128 = 0;
    let n = a.sums.len();
    assert(n as int == dim@);
    for t in 0..n
        invariant
            n == a.sums@.len(),
            n as int == dim@,
            am == a@,
            bm == b@,
            cm_wf(am, dim@),
            cm_wf(bm, dim@),
            dim@ <= 4_096,
            acc == cm_sq_dist_to(am, bm, t as int),
            0 <= acc <= (t as int) * 81_129_638_414_606_681_695_789_005_144_064,
    {
        assert(am.sums[t as int] == a.sums@[t as int] as int);
        assert(bm.sums[t as int] == b.sums@[t as int] as int);
        let ghost ti = am.sums[t as int] * bm.count - bm.sums[t as int] * am.count;
        assert(-4_503_599_627_370_496 <= am.sums[t as int] * bm.count <= 4_503_599_627_370_496
            && -4_503_599_627_370_496 <= bm.sums[t as int] * am.count <= 4_503_599_627_370_496
            && 0 <= ti * ti <= 81_129_638_414_606_681_695_789_005_144_064) by (nonlinear_arith)
            requires
                1 <= am.count <= 65_536,
                1 <= bm.count <= 65_536,
                -am.count * 1_048_576 <= am.sums[t as int] <= am.count * 1_048_576,
                -bm.count * 1_048_576 <= bm.sums[t as int] <= bm.count * 1_048_576,
                ti == am.sums[t as int] * bm.count - bm.sums[t as int] * am.count,
        ;
        let x: i128 = (a.sums[t] as i128) * (b.count as i128) - (b.sums[t] as i128) * (a.count
            as i128);
        assert(x == ti);
        assert((t as int) * 81_129_638_414_606_681_695_789_005_144_064 + ti * ti <= 4_096
            * 81_129_638_414_606_681_695_789_005_144_064) by (nonlinear_arith)
            requires
                0 <= t < 4_096,
                0 <= ti * ti <= 81_129_638_414_606_681_695_789_005_144_064,
        ;
        acc = acc + x * x;
    }
    let num: u128 = acc as u128;
    let ghost ca2 = am.count * am.count;
    let ghost cb2 = bm.count * bm.count;
    assert(0 < ca2 <= 4_294_967_296 && 0 < cb2 <= 4_294_967_296 && 0 < ca2 * cb2
        <= 18_446_744_073_709_551_616) by (nonlinear_arith)
        requires
            1 <= am.count <= 65_536,
            1 <= bm.count <= 65_536,
            ca2 == am.count * am.count,
            cb2 == bm.count * bm.count,
    ;
    let da: u128 = (a.count as u128) * (a.count as u128);
    let db: u128 = (b.count as u128) * (b.count as u128);
    let den: u128 = da * db;
    (num, den)
}

/// The Davis-Bouldin index of a finished partition, as the exact ratio the
/// mean of the `R_i` works out to. Centroids come from
/// `recompute_centroids`; a cluster's scatter is the exact mean distance
/// from its members to its centroid, 0 for an empty cluster. Fails with
/// `InsufficientClusters` for fewer than two clusters, with
/// `DegenerateCluster` when two cluster centroids coincide, and with
/// `NumericOverflow` when an exact intermediate exceeds the machine word.
pub fn davis_bouldin_index(d: &Dataset, p: &Vec<Vec<usize>>) -> (r: Result<Ratio, ClusterError>)
    requires
        data_wf(d@),
        is_partition(part_view(p@), d@.len() as int, p@.len() as int),
    ensures
        match r {
            Ok(q) => spec_db(d@, part_view(p@)) == Result::<(int, int), ClusterError>::Ok(
                ((q.num as int, q.den as int))),
            Err(e) => spec_db(d@, part_view(p@)) == Result::<(int, int), ClusterError>::Err(e),
        },
{
    let ghost dv = d@;
    let ghost pv = part_view(p@);
    let k = p.len();
    if k < 2 {
        return Err(ClusterError::InsufficientClusters);
    }
    let ms = recompute_centroids(d, p);
    let ghost msv = cents_view(ms@);
    let ghost dim = dv[0].len() as int;
    assert(msv == spec_recompute(dv, pv));

    assert(0 <= dim <= 4_096);
    for i in 0..k
        invariant
            k == p@.len() == ms@.len() >= 2,
            dv == d@,
            pv == part_view(p@),
            msv == cents_view(ms@),
            msv == spec_recompute(dv, pv),
            cents_wf(msv, dim),
            dim == dv[0].len() as int,
            0 <= dim <= 4_096,
            forall|a: int, b: int|
                0 <= a < b < k && a < i ==> #[trigger] cm_sq_dist_to(msv[a], msv[b], msv[
                a].sums.len() as int) != 0,
    {
        let start = i + 1;
        for j in start..k
            invariant
                k == p@.len() == ms@.len() >= 2,
                0 <= i < k,
                start == i + 1,
                dv == d@,
                pv == part_view(p@),
                msv == cents_view(ms@),
                msv == spec_recompute(dv, pv),
                cents_wf(msv, dim),
                dim == dv[0].len() as int,
                0 <= dim <= 4_096,
                forall|a: int, b: int|
                    0 <= a < b < k && a < i ==> #[trigger] cm_sq_dist_to(msv[a], msv[b], msv[
                    a].sums.len() as int) != 0,
                forall|b: int|
                    i < b < j ==> #[trigger] cm_sq_dist_to(msv[i as int], msv[b], msv[
                    i as int].sums.len() as int) != 0,
        {
            assert(msv[i as int] == ms@[i as int]@ && msv[j as int] == ms@[j as int]@);
            let (cn, _cd) = cm_dist_exec(&ms[i], &ms[j], Ghost(dim));
            assert(msv[i as int].sums.len() == dim);
            if cn == 0 {
                assert(has_coincident(msv));
                return Err(ClusterError::DegenerateCluster);
            }
        }
    }
    proof {
        assert forall|a: int, b: int|
            0 <= a < msv.len() && 0 <= b < msv.len() && a != b implies cm_sq_dist_to(msv[a],
            msv[b], msv[a].sums.len() as int) != 0 by {
            if a < b {
            } else {
                lemma_cm_dist_symm(msv[a], msv[b], msv[a].sums.len() as int);
                assert(msv[b].sums.len() == dim && msv[a].sums.len() == dim);
            }
        }
        assert(!has_coincident(msv));
    }

    let ghost dsv = Seq::new(pv.len(), |t: int| spec_scatter(dv, pv[t], msv[t]));
    let mut ds: Vec<Ratio> = Vec::new();
    for i in 0..k
        invariant
            k == p@.len() == ms@.len() >= 2,
            dv == d@,
            pv == part_view(p@),
            data_wf(dv),
            is_partition(pv, dv.len() as int, pv.len() as int),
            pv.len() == k,
            msv == cents_view(ms@),
            cents_wf(msv, dim),
            dim == dv[0].len() as int,
            dsv == Seq::new(pv.len(), |t: int| spec_scatter(dv, pv[t], msv[t])),
            ds@.len() == i,
            forall|t: int| 0 <= t < i ==> ratio_matches(#[trigger] ds@[t], dsv[t]),
    {
        let bucket = &p[i];
        let ghost clv = pv[i as int];
        assert(clv == p@[i as int]@.map_values(|x: usize| x as int));
        let m = bucket.len();
        proof {
            lemma_total_len_parts(pv, i as int);
            assert forall|u: int| 0 <= u < m implies 0 <= #[trigger] clv[u] < dv.len() by {
                assert(pv[i as int][u] == clv[u]);
            }
        }
        let ghost old_ds = ds@;
        if m == 0 {
            ds.push(Ratio { num: 0, den: 1 });
            proof {
                assert(dsv[i as int] == spec_scatter(dv, clv, msv[i as int]));
                assert(ratio_matches(ds@[i as int], dsv[i as int]));
                assert forall|t: int| 0 <= t < i + 1 implies ratio_matches(#[trigger] ds@[t],
                    dsv[t]) by {
                    if t < i {
                        assert(ds@[t] == old_ds[t]);
                    }
                }
            }
        } else {
            let cent = &ms[i];
            assert(msv[i as int] == ms@[i as int]@);
            let mut num: u128 = 0;
            for u in 0..m
                invariant
                    m == bucket@.len() <= 65_536,
                    dv == d@,
                    data_wf(dv),
                    dim == dv[0].len() as int,
                    clv == bucket@.map_values(|x: usize| x as int),
                    forall|t: int| 0 <= t < m ==> 0 <= #[trigger] clv[t] < dv.len(),
                    msv == cents_view(ms@),
                    0 <= (i as int) < ms@.len(),
                    cent == &ms@[i as int],
                    msv[i as int] == ms@[i as int]@,
                    cm_wf(msv[i as int], dim),
                    num as int == scatter_num_to(dv, clv, msv[i as int], u as int),
                    num <= (u as int) * 77_371_252_455_336_267_181_195_264,
            {
                assert(clv[u as int] == bucket@[u as int] as int);
                let mi = bucket[u];
                let row = &d.vecs[mi];
                assert(dv[mi as int] == ints(row@));
                assert(dv[mi as int].len() == dv[0].len());
                assert forall|c: int| 0 <= c < row@.len() implies -(MAX_COORD as int)
                    <= #[trigger] row@[c] as int <= MAX_COORD as int by {
                    assert(dv[mi as int][c] == row@[c] as int);
                }
                let dd = scaled_distance(row, cent);
                assert((u as int) * 77_371_252_455_336_267_181_195_264
                    + 77_371_252_455_336_267_181_195_264 <= 65_536
                    * 77_371_252_455_336_267_181_195_264) by (nonlinear_arith)
                    requires
                        0 <= u < 65_536,
                ;
                num = num + dd;
            }
            let cnt = cent.count;
            let ghost c2 = msv[i as int].count * msv[i as int].count;
            assert(0 < c2 <= 4_294_967_296 && 0 < (m as int) * c2 <= 281_474_976_710_656)
                by (nonlinear_arith)
                requires
                    1 <= msv[i as int].count <= 65_536,
                    1 <= m <= 65_536,
                    c2 == msv[i as int].count * msv[i as int].count,
            ;
            let den: u128 = (m as u128) * ((cnt as u128) * (cnt as u128));
            ds.push(Ratio { num, den });
            proof {
                assert(dsv[i as int] == spec_scatter(dv, clv, msv[i as int]));
                assert(clv.len() == m as int);
                assert(den as int == (m as int) * (msv[i as int].count * msv[i as int].count));
                assert(ratio_matches(ds@[i as int], dsv[i as int]));
                assert forall|t: int| 0 <= t < i + 1 implies ratio_matches(#[trigger] ds@[t],
                    dsv[t]) by {
                    if t < i {
                        assert(ds@[t] == old_ds[t]);
                    }
                }
            }
        }
    }

    let mut acc = Ratio { num: 0, den: 1 };
    for i in 0..k
        invariant
            k == p@.len() == ms@.len() >= 2,
            dv == d@,
            pv == part_view(p@),
            msv == cents_view(ms@),
            msv == spec_recompute(dv, pv),
            !has_coincident(msv),
            cents_wf(msv, dim),
            dim == dv[0].len() as int,
            0 <= dim <= 4_096,
            pv.len() == k,
            dsv == Seq::new(pv.len(), |t: int| spec_scatter(dv, pv[t], msv[t])),
            ds@.len() == k,
            forall|t: int| 0 <= t < k ==> ratio_matches(#[trigger] ds@[t], dsv[t]),
            forall|a: int, b: int|
                0 <= a < msv.len() && 0 <= b < msv.len() && a != b ==> #[trigger] cm_sq_dist_to(
                msv[a], msv[b], msv[a].sums.len() as int) != 0,
            sum_r_to(dsv, msv, i as int) == Option::Some(((acc.num as int, acc.den as int))),
            0 < acc.den,
    {
        let mut have = false;
        let mut rn: u128 = 0;
        let mut rd: u128 = 1;
        let ai = ds[i];
        for j in 0..k
            invariant
                k == p@.len() == ms@.len() >= 2,
                0 <= i < k,
                dv == d@,
                pv == part_view(p@),
                msv == cents_view(ms@),
                msv == spec_recompute(dv, pv),
                !has_coincident(msv),
                cents_wf(msv, dim),
                dim == dv[0].len() as int,
                0 <= dim <= 4_096,
                pv.len() == k,
                dsv == Seq::new(pv.len(), |t: int| spec_scatter(dv, pv[t], msv[t])),
                sum_r_to(dsv, msv, i as int) == Option::Some(((acc.num as int, acc.den as int))),
                0 < acc.den,
                ds@.len() == k,
                ai == ds@[i as int],
                forall|t: int| 0 <= t < k ==> ratio_matches(#[trigger] ds@[t], dsv[t]),
                forall|a: int, b: int|
                    0 <= a < msv.len() && 0 <= b < msv.len() && a != b
                        ==> #[trigger] cm_sq_dist_to(msv[a], msv[b], msv[a].sums.len() as int)
                            != 0,
                r_i_to(dsv, msv, i as int, j as int) == rstate(have, rn as int, rd as int),
                have ==> 0 < rd,
        {
            if j != i {
                let bj = ds[j];
                assert(bj == ds@[j as int]);
                assert(ratio_matches(ai, dsv[i as int]));
                assert(ratio_matches(bj, dsv[j as int]));
                let ghost sadd = rat_add(dsv[i as int], dsv[j as int]);
                proof {
                    lemma_mul_nonneg(ai.num as int, bj.den as int);
                    lemma_mul_nonneg(bj.num as int, ai.den as int);
                    lemma_mul_pos(ai.den as int, bj.den as int);
                }
                let t1 = match ai.num.checked_mul(bj.den) {
                    Some(v) => v,
                    None => {
                        proof {
                            assert(!rfits(sadd));
                            assert(r_i_to(dsv, msv, i as int, j + 1) is None);
                            lemma_r_i_none_mono(dsv, msv, i as int, j + 1, k as int);
                            lemma_sum_none_mono(dsv, msv, i + 1, k as int);
                        }
                        return Err(ClusterError::NumericOverflow);
                    },
                };
                let t2 = match bj.num.checked_mul(ai.den) {
                    Some(v) => v,
                    None => {
                        proof {
                            assert(!rfits(sadd));
                            assert(r_i_to(dsv, msv, i as int, j + 1) is None);
                            lemma_r_i_none_mono(dsv, msv, i as int, j + 1, k as int);
                            lemma_sum_none_mono(dsv, msv, i + 1, k as int);
                        }
                        return Err(ClusterError::NumericOverflow);
                    },
                };
                let t3 = match t1.checked_add(t2) {
                    Some(v) => v,
                    None => {
                        proof {
                            assert(!rfits(sadd));
                            assert(r_i_to(dsv, msv, i as int, j + 1) is None);
                            lemma_r_i_none_mono(dsv, msv, i as int, j + 1, k as int);
                            lemma_sum_none_mono(dsv, msv, i + 1, k as int);
                        }
                        return Err(ClusterError::NumericOverflow);
                    },
                };
                let sden = match ai.den.checked_mul(bj.den) {
                    Some(v) => v,
                    None => {
                        proof {
                            assert(!rfits(sadd));
                            assert(r_i_to(dsv, msv, i as int, j + 1) is None);
                            lemma_r_i_none_mono(dsv, msv, i as int, j + 1, k as int);
                            lemma_sum_none_mono(dsv, msv, i + 1, k as int);
                        }
                        return Err(ClusterError::NumericOverflow);
                    },
                };
                assert(rfits(sadd) && sadd == (t3 as int, sden as int));
                assert(msv[i as int] == ms@[i as int]@ && msv[j as int] == ms@[j as int]@);
                let (cn, cd) = cm_dist_exec(&ms[i], &ms[j], Ghost(dim));
                proof {
                    assert(msv[i as int].sums.len() == dim);
                    assert(cn as int == cm_dist(msv[i as int], msv[j as int]).0);
                    assert(cd as int == cm_dist(msv[i as int], msv[j as int]).1);
                    lemma_cm_dist_nonneg(msv[i as int], msv[j as int], dim);
                    assert(cn > 0);
                    lemma_mul_pos(sden as int, cn as int);
                    lemma_mul_nonneg(t3 as int, cd as int);
                }
                let ghost qq = rat_div(sadd, cm_dist(msv[i as int], msv[j as int]));
                let qn = match t3.checked_mul(cd) {
                    Some(v) => v,
                    None => {
                        proof {
                            assert(!rfits(qq));
                            assert(r_i_to(dsv, msv, i as int, j + 1) is None);
                            lemma_r_i_none_mono(dsv, msv, i as int, j + 1, k as int);
                            lemma_sum_none_mono(dsv, msv, i + 1, k as int);
                        }
                        return Err(ClusterError::NumericOverflow);
                    },
                };
                let qd = match sden.checked_mul(cn) {
                    Some(v) => v,
                    None => {
                        proof {
                            assert(!rfits(qq));
                            assert(r_i_to(dsv, msv, i as int, j + 1) is None);
                            lemma_r_i_none_mono(dsv, msv, i as int, j + 1, k as int);
                            lemma_sum_none_mono(dsv, msv, i + 1, k as int);
                        }
                        return Err(ClusterError::NumericOverflow);
                    },
                };
                assert(rfits(qq) && qq == (qn as int, qd as int));
                assert(r_cand(dsv, msv, i as int, j as int) == Option::Some(qq));
                if !have {
                    have = true;
                    rn = qn;
                    rd = qd;
                } else {
                    proof {
                        lemma_mul_nonneg(qn as int, rd as int);
                        lemma_mul_nonneg(rn as int, qd as int);
                    }
                    let x1 = match qn.checked_mul(rd) {
                        Some(v) => v,
                        None => {
                            proof {
                                assert(!cmp_fits(qq, (rn as int, rd as int)));
                                assert(r_i_to(dsv, msv, i as int, j + 1) is None);
                                lemma_r_i_none_mono(dsv, msv, i as int, j + 1, k as int);
                                lemma_sum_none_mono(dsv, msv, i + 1, k as int);
                            }
                            return Err(ClusterError::NumericOverflow);
                        },
                    };
                    let x2 = match rn.checked_mul(qd) {
                        Some(v) => v,
                        None => {
                            proof {
                                assert(!cmp_fits(qq, (rn as int, rd as int)));
                                assert(r_i_to(dsv, msv, i as int, j + 1) is None);
                                lemma_r_i_none_mono(dsv, msv, i as int, j + 1, k as int);
                                lemma_sum_none_mono(dsv, msv, i + 1, k as int);
                            }
                            return Err(ClusterError::NumericOverflow);
                        },
                    };
                    if x1 > x2 {
                        rn = qn;
                        rd = qd;
                    }
                }
            }
        }
        proof {
            let j0: int = if i == 0 {
                1
            } else {
                0
            };
            lemma_r_i_has_cand(dsv, msv, i as int, k as int, j0);
            assert(have);
        }
        proof {
            lemma_mul_nonneg(acc.num as int, rd as int);
            lemma_mul_nonneg(rn as int, acc.den as int);
            lemma_mul_pos(acc.den as int, rd as int);
        }
        let ghost snext = rat_add((acc.num as int, acc.den as int), (rn as int, rd as int));
        let s1 = match acc.num.checked_mul(rd) {
            Some(v) => v,
            None => {
                proof {
                    assert(!rfits(snext));
                    assert(sum_r_to(dsv, msv, i + 1) is None);
                    lemma_sum_none_mono(dsv, msv, i + 1, k as int);
                }
                return Err(ClusterError::NumericOverflow);
            },
        };
        let s2 = match rn.checked_mul(acc.den) {
            Some(v) => v,
            None => {
                proof {
                    assert(!rfits(snext));
                    assert(sum_r_to(dsv, msv, i + 1) is None);
                    lemma_sum_none_mono(dsv, msv, i + 1, k as int);
                }
                return Err(ClusterError::NumericOverflow);
            },
        };
        let s3 = match s1.checked_add(s2) {
            Some(v) => v,
            None => {
                proof {
                    assert(!rfits(snext));
                    assert(sum_r_to(dsv, msv, i + 1) is None);
                    lemma_sum_none_mono(dsv, msv, i + 1, k as int);
                }
                return Err(ClusterError::NumericOverflow);
            },
        };
        let s4 = match acc.den.checked_mul(rd) {
            Some(v) => v,
            None => {
                proof {
                    assert(!rfits(snext));
                    assert(sum_r_to(dsv, msv, i + 1) is None);
                    lemma_sum_none_mono(dsv, msv, i + 1, k as int);
                }
                return Err(ClusterError::NumericOverflow);
            },
        };
        assert(rfits(snext) && snext == (s3 as int, s4 as int));
        acc = Ratio { num: s3, den: s4 };
        assert(sum_r_to(dsv, msv, i + 1) == Option::Some(((acc.num as int, acc.den as int))));
    }
    proof {
        lemma_mul_pos(acc.den as int, k as int);
    }
    let nd = match acc.den.checked_mul(k as u128) {
        Some(v) => v,
        None => {
            proof {
                let ghost qf = rat_div((acc.num as int, acc.den as int), (k as int, 1));
                assert(!rfits(qf));
            }
            return Err(ClusterError::NumericOverflow);
        },
    };
    proof {
        let qf = rat_div((acc.num as int, acc.den as int), (k as int, 1));
        assert(qf == (acc.num as int * 1, acc.den as int * (k as int)));
        assert(acc.num as int * 1 == acc.num as int) by (nonlinear_arith);
        assert(rfits(qf));
    }
    Ok(Ratio { num: acc.num, den: nd })
}

} // verus!
