use vstd::prelude::*;
use crate::dataset::{
    Centroid, CentroidModel, Dataset, cents_view, cents_wf, cm_wf, data_wf, ints, lemma_mul_le,
    scaled_distance, scaled_sq_dist, MAX_COORD, COUNT_SQ_BOUND, SCALED_DIST_BOUND,
};
use crate::cluster::{add_row, add_row_exec, zero_seq};
use crate::errors::ClusterError;

verus! {

/// The componentwise sum of the first `m` dataset vectors.
pub open spec fn all_sums_to(d: Seq<Seq<int>>, m: int, dim: int) -> Seq<int>
    decreases m,
{
    if m <= 0 {
        zero_seq(dim)
    } else {
        add_row(all_sums_to(d, m - 1, dim), d[m - 1])
    }
}

/// The exact mean of the whole dataset: the sum of every vector over the
/// dataset size.
pub open spec fn mean_centroid(d: Seq<Seq<int>>) -> CentroidModel {
    CentroidModel { sums: all_sums_to(d, d.len() as int, d[0].len() as int), count: d.len() as int }
}

/// Point `p` has exactly the rational value the centroid stands for:
/// `p * count == sums` componentwise.
pub open spec fn vec_matches_cm(p: Seq<int>, c: CentroidModel) -> bool {
    &&& p.len() == c.sums.len()
    &&& forall|i: int| 0 <= i < p.len() ==> #[trigger] (p[i] * c.count) == c.sums[i]
}

/// Point `p` equals the value of one of the seeds already chosen.
pub open spec fn is_selected(p: Seq<int>, seeds: Seq<CentroidModel>) -> bool {
    exists|j: int| 0 <= j < seeds.len() && vec_matches_cm(p, #[trigger] seeds[j])
}

/// The smallest rational distance from `p` to any of the first `m` seeds,
/// as a scaled pair (numerator, squared count); ties keep the earliest seed.
pub open spec fn min_dist_to(p: Seq<int>, seeds: Seq<CentroidModel>, m: int) -> (int, int)
    decreases m,
{
    if m <= 1 {
        (scaled_sq_dist(p, seeds[0]), seeds[0].count * seeds[0].count)
    } else {
        let prev = min_dist_to(p, seeds, m - 1);
        let cn = scaled_sq_dist(p, seeds[m - 1]);
        let cd = seeds[m - 1].count * seeds[m - 1].count;
        if cn * prev.1 < prev.0 * cd {
            (cn, cd)
        } else {
            prev
        }
    }
}

/// The smallest rational distance from `p` to any seed.
pub open spec fn seed_min_dist(p: Seq<int>, seeds: Seq<CentroidModel>) -> (int, int) {
    min_dist_to(p, seeds, seeds.len() as int)
}

/// The farthest-point candidate among the first `n` dataset vectors: the
/// first unselected vector that maximizes its minimum distance to the seeds
/// (strictly later vectors replace it only when strictly farther). `None`
/// when every one of the first `n` vectors is already selected.
pub open spec fn best_cand_to(d: Seq<Seq<int>>, seeds: Seq<CentroidModel>, n: int) -> Option<int>
    decreases n,
{
    if n <= 0 {
        None
    } else {
        let prev = best_cand_to(d, seeds, n - 1);
        if is_selected(d[n - 1], seeds) {
            prev
        } else {
            match prev {
                Option::None => Option::Some(n - 1),
                Option::Some(b) => {
                    let db = seed_min_dist(d[b], seeds);
                    let dc = seed_min_dist(d[n - 1], seeds);
                    if dc.0 * db.1 > db.0 * dc.1 {
                        Option::Some(n - 1)
                    } else {
                        Option::Some(b)
                    }
                },
            }
        }
    }
}

/// The farthest-point candidate over the whole dataset.
pub open spec fn spec_best_cand(d: Seq<Seq<int>>, seeds: Seq<CentroidModel>) -> Option<int> {
    best_cand_to(d, seeds, d.len() as int)
}

/// The first `t` seeds of the deterministic farthest-point seeding: the
/// dataset mean, then one farthest unselected dataset vector at a time.
/// `None` when the candidates ran out.
pub open spec fn span_to(d: Seq<Seq<int>>, t: int) -> Option<Seq<CentroidModel>>
    decreases t,
{
    if t <= 1 {
        Option::Some(seq![mean_centroid(d)])
    } else {
        match span_to(d, t - 1) {
            Option::None => Option::None,
            Option::Some(s) => match spec_best_cand(d, s) {
                Option::None => Option::None,
                Option::Some(i) => Option::Some(
                    s.push(CentroidModel { sums: d[i], count: 1 }),
                ),
            },
        }
    }
}

/// The `k` seeds of the deterministic farthest-point seeding, or `None`
/// when `k` exceeds the number of available distinct values.
pub open spec fn spec_span(d: Seq<Seq<int>>, k: int) -> Option<Seq<CentroidModel>> {
    span_to(d, k)
}

/// Once the candidates ran out, they stay out for every larger seed count.
pub proof fn lemma_span_none_mono(d: Seq<Seq<int>>, t: int, k: int)
    requires
        2 <= t <= k,
        span_to(d, t) is None,
    ensures
        span_to(d, k) is None,
    decreases k - t,
{
    if k > t {
        lemma_span_none_mono(d, t, k - 1);
    }
}

/// Reports whether `p` has exactly the rational value of centroid `c`.
fn matches_cm(p: &Vec<i64>, c: &Centroid) -> (r: bool)
    requires
        cm_wf(c@, c@.sums.len() as int),
        forall|i: int|
            0 <= i < p@.len()
                ==> -(MAX_COORD as int) <= #[trigger] p@[i] as int <= MAX_COORD as int,
    ensures
        r == vec_matches_cm(ints(p@), c@),
{
    let ghost ip = ints(p@);
    let ghost cm = c@;
    if p.len() != c.sums.len() {
        return false;
    }
    let n = p.len();
    for i in 0..n
        invariant
            n == p@.len() == c.sums@.len(),
            ip == ints(p@),
            cm == c@,
            cm_wf(cm, cm.sums.len() as int),
            forall|t: int|
                0 <= t < p@.len() ==> -(MAX_COORD as int) <= #[trigger] ip[t] <= MAX_COORD as int,
            forall|t: int| 0 <= t < i ==> #[trigger] (ip[t] * cm.count) == cm.sums[t],
    {
        assert(ip[i as int] == p@[i as int] as int);
        assert(cm.sums[i as int] == c.sums@[i as int] as int);
        assert(-68_719_476_736 <= ip[i as int] * cm.count <= 68_719_476_736) by (nonlinear_arith)
            requires
                -1_048_576 <= ip[i as int] <= 1_048_576,
                1 <= cm.count <= 65_536,
        ;
        let lhs: i128 = (p[i] as i128) * (c.count as i128);
        if lhs != (c.sums[i] as i128) {
            assert(!vec_matches_cm(ip, cm));
            return false;
        }
    }
    true
}

/// Reports whether `p` equals the value of one of the chosen seeds.
fn is_selected_exec(p: &Vec<i64>, seeds: &Vec<Centroid>) -> (r: bool)
    requires
        cents_wf(cents_view(seeds@), p@.len() as int),
        forall|i: int|
            0 <= i < p@.len()
                ==> -(MAX_COORD as int) <= #[trigger] p@[i] as int <= MAX_COORD as int,
    ensures
        r == is_selected(ints(p@), cents_view(seeds@)),
{
    let ghost ip = ints(p@);
    let ghost sv = cents_view(seeds@);
    let k = seeds.len();
    for j in 0..k
        invariant
            k == seeds@.len(),
            ip == ints(p@),
            sv == cents_view(seeds@),
            cents_wf(sv, p@.len() as int),
            forall|i: int|
                0 <= i < p@.len()
                    ==> -(MAX_COORD as int) <= #[trigger] p@[i] as int <= MAX_COORD as int,
            forall|t: int| 0 <= t < j ==> !vec_matches_cm(ip, #[trigger] sv[t]),
    {
        assert(sv[j as int] == seeds@[j as int]@);
        assert(cm_wf(sv[j as int], p@.len() as int));
        if matches_cm(p, &seeds[j]) {
            assert(sv[j as int].sums.len() == p@.len());
            assert(is_selected(ip, sv));
            return true;
        }
    }
    false
}

/// The smallest scaled rational distance from `p` to any seed, as an exact
/// (numerator, squared count) pair.
fn min_dist(p: &Vec<i64>, seeds: &Vec<Centroid>) -> (r: (u128, u128))
    requires
        seeds@.len() >= 1,
        cents_wf(cents_view(seeds@), p@.len() as int),
        p@.len() <= crate::dataset::MAX_DIM as int,
        forall|i: int|
            0 <= i < p@.len()
                ==> -(MAX_COORD as int) <= #[trigger] p@[i] as int <= MAX_COORD as int,
    ensures
        r.0 as int == seed_min_dist(ints(p@), cents_view(seeds@)).0,
        r.1 as int == seed_min_dist(ints(p@), cents_view(seeds@)).1,
        r.0 <= SCALED_DIST_BOUND,
        0 < r.1 <= COUNT_SQ_BOUND,
{
    let ghost ip = ints(p@);
    let ghost sv = cents_view(seeds@);
    proof {
        assert(sv[0] == seeds@[0]@);
        assert(cm_wf(sv[0], p@.len() as int));
        assert(0 < sv[0].count * sv[0].count <= 4_294_967_296) by (nonlinear_arith)
            requires
                1 <= sv[0].count <= 65_536,
        ;
    }
    let mut num: u128 = scaled_distance(p, &seeds[0]);
    let mut den: u128 = (seeds[0].count as u128) * (seeds[0].count as u128);
    let k = seeds.len();
    for m in 1..k
        invariant
            k == seeds@.len(),
            ip == ints(p@),
            sv == cents_view(seeds@),
            cents_wf(sv, p@.len() as int),
            p@.len() <= crate::dataset::MAX_DIM as int,
            forall|i: int|
                0 <= i < p@.len()
                    ==> -(MAX_COORD as int) <= #[trigger] p@[i] as int <= MAX_COORD as int,
            num as int == min_dist_to(ip, sv, m as int).0,
            den as int == min_dist_to(ip, sv, m as int).1,
            num <= SCALED_DIST_BOUND,
            0 < den <= COUNT_SQ_BOUND,
    {
        proof {
            assert(sv[m as int] == seeds@[m as int]@);
            assert(cm_wf(sv[m as int], p@.len() as int));
            assert(0 < sv[m as int].count * sv[m as int].count <= 4_294_967_296)
                by (nonlinear_arith)
                requires
                    1 <= sv[m as int].count <= 65_536,
            ;
        }
        let cn = scaled_distance(p, &seeds[m]);
        let cd: u128 = (seeds[m].count as u128) * (seeds[m].count as u128);
        proof {
            lemma_mul_le(cn as int, den as int, 77_371_252_455_336_267_181_195_264,
                4_294_967_296);
            lemma_mul_le(num as int, cd as int, 77_371_252_455_336_267_181_195_264,
                4_294_967_296);
        }
        if cn * den < num * cd {
            num = cn;
            den = cd;
        }
    }
    (num, den)
}

/// Deterministic farthest-point seeding. The first seed is the exact mean of
/// the whole dataset; each further seed is the first dataset vector, in
/// dataset order, that maximizes its minimum exact distance to the seeds
/// already chosen, skipping vectors whose value is already a seed. Fails
/// with `Initialization` exactly when the unselected vectors run out, which
/// happens precisely when `k` exceeds the number of distinct values
/// available.
pub fn span_clusters(d: &Dataset, k: usize) -> (r: Result<Vec<Centroid>, ClusterError>)
    requires
        data_wf(d@),
        1 <= k <= d@.len(),
    ensures
        match r {
            Ok(s) => {
                &&& spec_span(d@, k as int) == Some(cents_view(s@))
                &&& s@.len() == k
                &&& cents_wf(cents_view(s@), d@[0].len() as int)
            },
            Err(e) => e == ClusterError::Initialization && spec_span(d@, k as int) is None,
        },
{
    let ghost dv = d@;
    let dim = d.dim();
    let n = d.vecs.len();

    let mut sums: Vec<i64> = Vec::new();
    for t in 0..dim
        invariant
            sums@.len() == t,
            forall|i: int| 0 <= i < t ==> #[trigger] sums@[i] == 0i64,
    {
        sums.push(0i64);
    }
    assert(ints(sums@) =~= zero_seq(dim as int));
    for i in 0..n
        invariant
            n == dv.len() <= 65_536,
            dv == d@,
            data_wf(dv),
            dim == dv[0].len(),
            sums@.len() == dim,
            ints(sums@) == all_sums_to(dv, i as int, dim as int),
            forall|t: int|
                0 <= t < dim
                    ==> -(i as int) * 1_048_576 <= #[trigger] sums@[t] as int <= (i as int)
                        * 1_048_576,
    {
        let row = &d.vecs[i];
        assert(dv[i as int] == ints(row@));
        assert(dv[i as int].len() == dv[0].len());
        assert forall|c: int| 0 <= c < row@.len() implies -(MAX_COORD as int) <= #[trigger] row@[c]
            as int <= MAX_COORD as int by {
            assert(dv[i as int][c] == row@[c] as int);
        }
        add_row_exec(&mut sums, row, Ghost(i as int));
    }
    let mean = Centroid { sums, count: n };
    proof {
        assert(mean@.sums == all_sums_to(dv, n as int, dim as int));
        assert(mean@ == mean_centroid(dv));
        assert(cm_wf(mean@, dim as int));
    }
    let mut seeds: Vec<Centroid> = Vec::new();
    seeds.push(mean);
    assert(cents_view(seeds@) =~= seq![mean_centroid(dv)]);
    assert(span_to(dv, 1) == Some(cents_view(seeds@)));

    let mut t: usize = 1;
    while t < k
        invariant
            1 <= t <= k,
            k <= n,
            n == dv.len() <= 65_536,
            dv == d@,
            data_wf(dv),
            dim == dv[0].len(),
            seeds@.len() == t,
            span_to(dv, t as int) == Some(cents_view(seeds@)),
            cents_wf(cents_view(seeds@), dim as int),
        decreases k - t,
    {
        let ghost sv = cents_view(seeds@);
        let mut best_found = false;
        let mut best_i: usize = 0;
        let mut best_num: u128 = 0;
        let mut best_den: u128 = 1;
        for i in 0..n
            invariant
                n == dv.len() <= 65_536,
                dv == d@,
                data_wf(dv),
                dim == dv[0].len(),
                sv == cents_view(seeds@),
                seeds@.len() >= 1,
                cents_wf(sv, dim as int),
                best_found == (best_cand_to(dv, sv, i as int) is Some),
                best_found ==> best_cand_to(dv, sv, i as int) == Some(best_i as int),
                best_found ==> best_i < n,
                best_found ==> best_num as int == seed_min_dist(dv[best_i as int], sv).0
                    && best_den as int == seed_min_dist(dv[best_i as int], sv).1,
                best_found ==> best_num <= SCALED_DIST_BOUND && 0 < best_den <= COUNT_SQ_BOUND,
        {
            let row = &d.vecs[i];
            assert(dv[i as int] == ints(row@));
            assert(dv[i as int].len() == dv[0].len());
            assert forall|c: int| 0 <= c < row@.len() implies -(MAX_COORD as int)
                <= #[trigger] row@[c] as int <= MAX_COORD as int by {
                assert(dv[i as int][c] == row@[c] as int);
            }
            if !is_selected_exec(row, &seeds) {
                let (cn, cd) = min_dist(row, &seeds);
                if !best_found {
                    best_found = true;
                    best_i = i;
                    best_num = cn;
                    best_den = cd;
                } else {
                    proof {
                        lemma_mul_le(cn as int, best_den as int,
                            77_371_252_455_336_267_181_195_264, 4_294_967_296);
                        lemma_mul_le(best_num as int, cd as int,
                            77_371_252_455_336_267_181_195_264, 4_294_967_296);
                    }
                    if cn * best_den > best_num * cd {
                        best_i = i;
                        best_num = cn;
                        best_den = cd;
                    }
                }
            }
        }
        if !best_found {
            proof {
                assert(spec_best_cand(dv, sv) is None);
                assert(span_to(dv, (t + 1) as int) is None);
                if (t + 1) as int <= k as int {
                    lemma_span_none_mono(dv, (t + 1) as int, k as int);
                }
            }
            return Err(ClusterError::Initialization);
        }
        let brow = &d.vecs[best_i];
        assert(dv[best_i as int] == ints(brow@));
        assert(dv[best_i as int].len() == dv[0].len());
        let mut srow: Vec<i64> = Vec::new();
        let bl = brow.len();
        for c in 0..bl
            invariant
                bl == brow@.len(),
                srow@.len() == c,
                forall|u: int| 0 <= u < c ==> #[trigger] srow@[u] == brow@[u],
        {
            srow.push(brow[c]);
        }
        assert(ints(srow@) =~= ints(brow@));
        let seed = Centroid { sums: srow, count: 1 };
        proof {
            assert(seed@ == CentroidModel { sums: dv[best_i as int], count: 1 });
            assert forall|u: int| 0 <= u < dim implies -1 * (MAX_COORD as int)
                <= #[trigger] seed@.sums[u] <= 1 * (MAX_COORD as int) by {
                assert(dv[best_i as int][u] == seed@.sums[u]);
            }
            assert(cm_wf(seed@, dim as int));
        }
        let ghost old_seeds = seeds@;
        seeds.push(seed);
        proof {
            assert forall|u: int| 0 <= u < old_seeds.len() implies #[trigger] cents_view(seeds@)[u]
                == sv[u] by {
                assert(seeds@[u] == old_seeds[u]);
            }
            assert(cents_view(seeds@) =~= sv.push(seed@));
            assert(span_to(dv, (t + 1) as int) == Some(cents_view(seeds@)));
        }
        t = t + 1;
    }
    assert(t == k);
    Ok(seeds)
}

} // verus!
