use vstd::prelude::*;
use crate::dataset::{
    CentroidModel, data_wf, dist_lt, ragged, scaled_sq_dist, scaled_sq_dist_to,
};
use crate::cluster::{
    add_row, assign_to, empty_parts, entries_in, is_partition, kmeans_iter,
    lemma_assign_to_partition, lemma_member_sums_len, lemma_nearest_to_range, member_sums_to,
    nearest_to, spec_assign_all, spec_kmeans, spec_recompute, zero_seq, MAX_ITERS,
};
use crate::init::{
    all_sums_to, best_cand_to, is_selected, mean_centroid, min_dist_to, span_to, spec_best_cand,
    spec_span, vec_matches_cm,
};
use crate::indices::{cluster_diameter, diam_to, max_diam_to, pair_max_to, spec_dunn, spec_min_linkage};
use crate::errors::ClusterError;

verus! {

/// Seeding with a single seed returns exactly the dataset's componentwise
/// mean: the whole-dataset centroid, not one of its members.
pub proof fn lemma_seed_of_one_is_mean(d: Seq<Seq<int>>)
    ensures
        spec_span(d, 1) == Option::Some(seq![mean_centroid(d)]),
{
}

/// Every vector scaled by `c`.
pub open spec fn scale_vec(v: Seq<int>, c: int) -> Seq<int> {
    Seq::new(v.len(), |i: int| c * v[i])
}

/// Every dataset vector scaled by `c`: the scaling that moves the implicit
/// origin along with the data.
pub open spec fn scale_data(d: Seq<Seq<int>>, c: int) -> Seq<Seq<int>> {
    Seq::new(d.len(), |i: int| scale_vec(d[i], c))
}

/// A centroid scaled by `c`: the sums scale, the count does not.
pub open spec fn scale_cm(m: CentroidModel, c: int) -> CentroidModel {
    CentroidModel { sums: scale_vec(m.sums, c), count: m.count }
}

/// Every centroid scaled by `c`.
pub open spec fn scale_cents(cs: Seq<CentroidModel>, c: int) -> Seq<CentroidModel> {
    Seq::new(cs.len(), |j: int| scale_cm(cs[j], c))
}

/// Every centroid in the list has sums of dimension `dim`.
pub open spec fn cents_dims(cs: Seq<CentroidModel>, dim: int) -> bool {
    forall|j: int| 0 <= j < cs.len() ==> (#[trigger] cs[j]).sums.len() == dim
}

/// In a rectangular dataset every row has the first row's length.
pub proof fn lemma_rows_dims(d: Seq<Seq<int>>)
    requires
        !ragged(d),
    ensures
        forall|i: int| 0 <= i < d.len() ==> #[trigger] d[i].len() == d[0].len(),
{
    assert forall|i: int| 0 <= i < d.len() implies #[trigger] d[i].len() == d[0].len() by {
        if d[i].len() != d[0].len() {
            assert(ragged(d));
        }
    }
}

pub proof fn lemma_scale_vec_add(a: Seq<int>, b: Seq<int>, c: int)
    requires
        a.len() <= b.len(),
    ensures
        scale_vec(add_row(a, b), c) == add_row(scale_vec(a, c), scale_vec(b, c)),
{
    assert forall|i: int| 0 <= i < a.len() implies scale_vec(add_row(a, b), c)[i] == add_row(
        scale_vec(a, c), scale_vec(b, c))[i] by {
        assert(c * (a[i] + b[i]) == c * a[i] + c * b[i]) by (nonlinear_arith);
    }
    assert(scale_vec(add_row(a, b), c) =~= add_row(scale_vec(a, c), scale_vec(b, c)));
}

pub proof fn lemma_scale_zero(dim: int, c: int)
    ensures
        scale_vec(zero_seq(dim), c) == zero_seq(dim),
{
    assert(scale_vec(zero_seq(dim), c) =~= zero_seq(dim));
}

pub proof fn lemma_member_sums_scale(d: Seq<Seq<int>>, cl: Seq<int>, m: int, dim: int, c: int)
    requires
        0 <= dim,
        forall|t: int| 0 <= t < m ==> 0 <= #[trigger] cl[t] < d.len(),
        forall|i: int| 0 <= i < d.len() ==> #[trigger] d[i].len() == dim,
    ensures
        member_sums_to(scale_data(d, c), cl, m, dim) == scale_vec(member_sums_to(d, cl, m, dim),
            c),
    decreases m,
{
    if m <= 0 {
        lemma_scale_zero(dim, c);
    } else {
        lemma_member_sums_scale(d, cl, m - 1, dim, c);
        lemma_member_sums_len(d, cl, m - 1, dim);
        assert(scale_data(d, c)[cl[m - 1]] == scale_vec(d[cl[m - 1]], c));
        lemma_scale_vec_add(member_sums_to(d, cl, m - 1, dim), d[cl[m - 1]], c);
    }
}

pub proof fn lemma_recompute_scale(d: Seq<Seq<int>>, p: Seq<Seq<int>>, c: int)
    requires
        d.len() >= 1,
        !ragged(d),
        entries_in(p, d.len() as int),
    ensures
        spec_recompute(scale_data(d, c), p) == scale_cents(spec_recompute(d, p), c),
{
    lemma_rows_dims(d);
    let dim = d[0].len() as int;
    assert(scale_data(d, c)[0].len() == dim);
    assert forall|j: int| 0 <= j < p.len() implies spec_recompute(scale_data(d, c), p)[j]
        == scale_cents(spec_recompute(d, p), c)[j] by {
        assert forall|t: int| 0 <= t < p[j].len() implies 0 <= #[trigger] p[j][t] < d.len() by {}
        lemma_member_sums_scale(d, p[j], p[j].len() as int, dim, c);
    }
    assert(spec_recompute(scale_data(d, c), p) =~= scale_cents(spec_recompute(d, p), c));
}

pub proof fn lemma_scaled_dist_scale(p: Seq<int>, cm: CentroidModel, c: int, n: int)
    requires
        n <= p.len(),
        n <= cm.sums.len(),
    ensures
        scaled_sq_dist_to(scale_vec(p, c), scale_cm(cm, c), n) == c * c * scaled_sq_dist_to(p, cm,
            n),
    decreases n,
{
    if n <= 0 {
        assert(c * c * 0 == 0) by (nonlinear_arith);
    } else {
        lemma_scaled_dist_scale(p, cm, c, n - 1);
        let t = p[n - 1] * cm.count - cm.sums[n - 1];
        let a = scaled_sq_dist_to(p, cm, n - 1);
        assert(scale_vec(p, c)[n - 1] == c * p[n - 1]);
        assert(scale_cm(cm, c).sums[n - 1] == c * cm.sums[n - 1]);
        let ts = (c * p[n - 1]) * cm.count - c * cm.sums[n - 1];
        assert(ts * ts == c * c * (t * t) && c * c * a + c * c * (t * t) == c * c * (a + t * t))
            by (nonlinear_arith)
            requires
                ts == c * p[n - 1] * cm.count - c * cm.sums[n - 1],
                t == p[n - 1] * cm.count - cm.sums[n - 1],
        ;
    }
}

pub proof fn lemma_dist_lt_scale(p: Seq<int>, a: CentroidModel, b: CentroidModel, c: int)
    requires
        c > 0,
        p.len() <= a.sums.len(),
        p.len() <= b.sums.len(),
    ensures
        dist_lt(scale_vec(p, c), scale_cm(a, c), scale_cm(b, c)) == dist_lt(p, a, b),
{
    lemma_scaled_dist_scale(p, a, c, p.len() as int);
    lemma_scaled_dist_scale(p, b, c, p.len() as int);
    assert(scale_vec(p, c).len() == p.len());
    let da = scaled_sq_dist(p, a);
    let db = scaled_sq_dist(p, b);
    let na = a.count * a.count;
    let nb = b.count * b.count;
    assert(((c * c * da) * nb < (c * c * db) * na) == (da * nb < db * na)) by (nonlinear_arith)
        requires
            c > 0,
    ;
}

pub proof fn lemma_nearest_scale(p: Seq<int>, cs: Seq<CentroidModel>, c: int, n: int)
    requires
        c > 0,
        n <= cs.len(),
        forall|j: int| 0 <= j < cs.len() ==> (#[trigger] cs[j]).sums.len() >= p.len(),
    ensures
        nearest_to(scale_vec(p, c), scale_cents(cs, c), n) == nearest_to(p, cs, n),
    decreases n,
{
    if n > 1 {
        lemma_nearest_scale(p, cs, c, n - 1);
        lemma_nearest_to_range(p, cs, n - 1);
        let b = nearest_to(p, cs, n - 1);
        assert(scale_cents(cs, c)[n - 1] == scale_cm(cs[n - 1], c));
        assert(scale_cents(cs, c)[b] == scale_cm(cs[b], c));
        lemma_dist_lt_scale(p, cs[n - 1], cs[b], c);
    }
}

pub proof fn lemma_assign_scale(d: Seq<Seq<int>>, cs: Seq<CentroidModel>, c: int, n: int)
    requires
        c > 0,
        d.len() >= 1,
        cs.len() >= 1,
        0 <= n <= d.len(),
        forall|i: int| 0 <= i < d.len() ==> #[trigger] d[i].len() == d[0].len(),
        cents_dims(cs, d[0].len() as int),
    ensures
        assign_to(scale_data(d, c), scale_cents(cs, c), n) == assign_to(d, cs, n),
    decreases n,
{
    if n <= 0 {
        assert(scale_cents(cs, c).len() == cs.len());
    } else {
        lemma_assign_scale(d, cs, c, n - 1);
        assert(scale_data(d, c)[n - 1] == scale_vec(d[n - 1], c));
        assert forall|j: int| 0 <= j < cs.len() implies (#[trigger] cs[j]).sums.len() >= d[n
            - 1].len() by {}
        lemma_nearest_scale(d[n - 1], cs, c, cs.len() as int);
        assert(scale_cents(cs, c).len() == cs.len());
    }
}

/// Scale invariance of assignment: scaling every vector and every centroid
/// by the same positive constant does not change which cluster any vector
/// lands in, although the absolute distances change.
pub proof fn lemma_assign_all_scale_invariant(d: Seq<Seq<int>>, cs: Seq<CentroidModel>, c: int)
    requires
        c > 0,
        d.len() >= 1,
        cs.len() >= 1,
        !ragged(d),
        cents_dims(cs, d[0].len() as int),
    ensures
        spec_assign_all(scale_data(d, c), scale_cents(cs, c)) == spec_assign_all(d, cs),
{
    lemma_rows_dims(d);
    lemma_assign_scale(d, cs, c, d.len() as int);
}

pub proof fn lemma_all_sums_scale(d: Seq<Seq<int>>, m: int, dim: int, c: int)
    requires
        0 <= dim,
        m <= d.len(),
        forall|i: int| 0 <= i < d.len() ==> #[trigger] d[i].len() == dim,
    ensures
        all_sums_to(scale_data(d, c), m, dim) == scale_vec(all_sums_to(d, m, dim), c),
    decreases m,
{
    if m <= 0 {
        lemma_scale_zero(dim, c);
    } else {
        lemma_all_sums_scale(d, m - 1, dim, c);
        lemma_all_sums_len(d, m - 1, dim);
        assert(scale_data(d, c)[m - 1] == scale_vec(d[m - 1], c));
        lemma_scale_vec_add(all_sums_to(d, m - 1, dim), d[m - 1], c);
    }
}

pub proof fn lemma_all_sums_len(d: Seq<Seq<int>>, m: int, dim: int)
    requires
        0 <= dim,
    ensures
        all_sums_to(d, m, dim).len() == dim,
    decreases m,
{
    if m > 0 {
        lemma_all_sums_len(d, m - 1, dim);
    }
}

pub proof fn lemma_mean_scale(d: Seq<Seq<int>>, c: int)
    requires
        d.len() >= 1,
        forall|i: int| 0 <= i < d.len() ==> #[trigger] d[i].len() == d[0].len(),
    ensures
        mean_centroid(scale_data(d, c)) == scale_cm(mean_centroid(d), c),
{
    assert(scale_data(d, c)[0].len() == d[0].len());
    lemma_all_sums_scale(d, d.len() as int, d[0].len() as int, c);
}

pub proof fn lemma_matches_scale(p: Seq<int>, cm: CentroidModel, c: int)
    requires
        c > 0,
    ensures
        vec_matches_cm(scale_vec(p, c), scale_cm(cm, c)) == vec_matches_cm(p, cm),
{
    let sp = scale_vec(p, c);
    let sm = scale_cm(cm, c);
    assert(sp.len() == p.len() && sm.sums.len() == cm.sums.len());
    if vec_matches_cm(p, cm) {
        assert forall|i: int| 0 <= i < sp.len() implies #[trigger] (sp[i] * sm.count)
            == sm.sums[i] by {
            assert(p[i] * cm.count == cm.sums[i]);
            assert((c * p[i]) * cm.count == c * (p[i] * cm.count)) by (nonlinear_arith);
        }
        assert(vec_matches_cm(sp, sm));
    }
    if vec_matches_cm(sp, sm) {
        assert forall|i: int| 0 <= i < p.len() implies #[trigger] (p[i] * cm.count)
            == cm.sums[i] by {
            assert(sp[i] * sm.count == sm.sums[i]);
            assert(sp[i] == c * p[i] && sm.sums[i] == c * cm.sums[i]);
            assert((c * p[i]) * cm.count == c * cm.sums[i] && c > 0 ==> p[i] * cm.count
                == cm.sums[i]) by (nonlinear_arith);
        }
        assert(vec_matches_cm(p, cm));
    }
}

pub proof fn lemma_selected_scale(p: Seq<int>, seeds: Seq<CentroidModel>, c: int)
    requires
        c > 0,
    ensures
        is_selected(scale_vec(p, c), scale_cents(seeds, c)) == is_selected(p, seeds),
{
    let sp = scale_vec(p, c);
    let ss = scale_cents(seeds, c);
    if is_selected(p, seeds) {
        let j = choose|j: int| 0 <= j < seeds.len() && vec_matches_cm(p, #[trigger] seeds[j]);
        lemma_matches_scale(p, seeds[j], c);
        assert(ss[j] == scale_cm(seeds[j], c));
        assert(vec_matches_cm(sp, ss[j]));
        assert(is_selected(sp, ss));
    }
    if is_selected(sp, ss) {
        let j = choose|j: int| 0 <= j < ss.len() && vec_matches_cm(sp, #[trigger] ss[j]);
        assert(ss[j] == scale_cm(seeds[j], c));
        lemma_matches_scale(p, seeds[j], c);
        assert(vec_matches_cm(p, seeds[j]));
        assert(is_selected(p, seeds));
    }
}

pub proof fn lemma_min_dist_scale(p: Seq<int>, seeds: Seq<CentroidModel>, c: int, m: int)
    requires
        c > 0,
        1 <= m <= seeds.len(),
        forall|j: int| 0 <= j < seeds.len() ==> (#[trigger] seeds[j]).sums.len() >= p.len(),
    ensures
        min_dist_to(scale_vec(p, c), scale_cents(seeds, c), m).0 == c * c * min_dist_to(p, seeds,
            m).0,
        min_dist_to(scale_vec(p, c), scale_cents(seeds, c), m).1 == min_dist_to(p, seeds, m).1,
    decreases m,
{
    assert(scale_vec(p, c).len() == p.len());
    if m <= 1 {
        assert(scale_cents(seeds, c)[0] == scale_cm(seeds[0], c));
        lemma_scaled_dist_scale(p, seeds[0], c, p.len() as int);
    } else {
        lemma_min_dist_scale(p, seeds, c, m - 1);
        assert(scale_cents(seeds, c)[m - 1] == scale_cm(seeds[m - 1], c));
        lemma_scaled_dist_scale(p, seeds[m - 1], c, p.len() as int);
        let prev = min_dist_to(p, seeds, m);
        let pr = min_dist_to(p, seeds, m - 1);
        let cn = scaled_sq_dist(p, seeds[m - 1]);
        let cd = seeds[m - 1].count * seeds[m - 1].count;
        assert(((c * c * cn) * pr.1 < (c * c * pr.0) * cd) == (cn * pr.1 < pr.0 * cd))
            by (nonlinear_arith)
            requires
                c > 0,
        ;
    }
}

pub proof fn lemma_best_cand_range(d: Seq<Seq<int>>, seeds: Seq<CentroidModel>, n: int)
    ensures
        best_cand_to(d, seeds, n) is Some ==> 0 <= best_cand_to(d, seeds, n).unwrap() < n,
    decreases n,
{
    if n > 0 {
        lemma_best_cand_range(d, seeds, n - 1);
    }
}

pub proof fn lemma_best_cand_scale(d: Seq<Seq<int>>, seeds: Seq<CentroidModel>, c: int, n: int)
    requires
        c > 0,
        d.len() >= 1,
        seeds.len() >= 1,
        0 <= n <= d.len(),
        forall|i: int| 0 <= i < d.len() ==> #[trigger] d[i].len() == d[0].len(),
        cents_dims(seeds, d[0].len() as int),
    ensures
        best_cand_to(scale_data(d, c), scale_cents(seeds, c), n) == best_cand_to(d, seeds, n),
    decreases n,
{
    if n > 0 {
        lemma_best_cand_scale(d, seeds, c, n - 1);
        assert(scale_data(d, c)[n - 1] == scale_vec(d[n - 1], c));
        lemma_selected_scale(d[n - 1], seeds, c);
        let prev = best_cand_to(d, seeds, n - 1);
        if !is_selected(d[n - 1], seeds) && prev is Some {
            let b = prev.unwrap();
            lemma_best_cand_range(d, seeds, n - 1);
            assert(scale_data(d, c)[b] == scale_vec(d[b], c));
            assert forall|j: int| 0 <= j < seeds.len() implies (#[trigger] seeds[j]).sums.len()
                >= d[b].len() by {}
            lemma_min_dist_scale(d[b], seeds, c, seeds.len() as int);
            lemma_min_dist_scale(d[n - 1], seeds, c, seeds.len() as int);
            let db = min_dist_to(d[b], seeds, seeds.len() as int);
            let dc = min_dist_to(d[n - 1], seeds, seeds.len() as int);
            assert(((c * c * dc.0) * db.1 > (c * c * db.0) * dc.1) == (dc.0 * db.1 > db.0 * dc.1))
                by (nonlinear_arith)
                requires
                    c > 0,
            ;
        }
    }
}

pub proof fn lemma_span_dims(d: Seq<Seq<int>>, t: int)
    requires
        1 <= t,
        d.len() >= 1,
        forall|i: int| 0 <= i < d.len() ==> #[trigger] d[i].len() == d[0].len(),
        span_to(d, t) is Some,
    ensures
        span_to(d, t).unwrap().len() == t,
        cents_dims(span_to(d, t).unwrap(), d[0].len() as int),
    decreases t,
{
    if t <= 1 {
        lemma_all_sums_len(d, d.len() as int, d[0].len() as int);
        assert(span_to(d, t).unwrap() =~= seq![mean_centroid(d)]);
        assert forall|j: int| 0 <= j < 1 implies (#[trigger] span_to(d, t).unwrap()[j]).sums.len()
            == d[0].len() by {}
    } else {
        lemma_span_dims(d, t - 1);
        let s = span_to(d, t - 1).unwrap();
        let i = spec_best_cand(d, s).unwrap();
        lemma_best_cand_range(d, s, d.len() as int);
        assert forall|j: int| 0 <= j < t implies (#[trigger] span_to(d, t).unwrap()[j]).sums.len()
            == d[0].len() by {
            if j < t - 1 {
                assert(span_to(d, t).unwrap()[j] == s[j]);
            } else {
                assert(span_to(d, t).unwrap()[j] == CentroidModel { sums: d[i], count: 1 });
            }
        }
    }
}

pub proof fn lemma_span_scale(d: Seq<Seq<int>>, t: int, c: int)
    requires
        c > 0,
        1 <= t <= d.len(),
        d.len() >= 1,
        forall|i: int| 0 <= i < d.len() ==> #[trigger] d[i].len() == d[0].len(),
    ensures
        span_to(scale_data(d, c), t) == match span_to(d, t) {
            Option::None => Option::<Seq<CentroidModel>>::None,
            Option::Some(s) => Option::<Seq<CentroidModel>>::Some(scale_cents(s, c)),
        },
    decreases t,
{
    let sd = scale_data(d, c);
    if t <= 1 {
        lemma_mean_scale(d, c);
        assert(seq![mean_centroid(sd)] =~= scale_cents(seq![mean_centroid(d)], c));
    } else {
        lemma_span_scale(d, t - 1, c);
        match span_to(d, t - 1) {
            Option::None => {},
            Option::Some(s) => {
                lemma_span_dims(d, t - 1);
                lemma_best_cand_scale(d, s, c, d.len() as int);
                assert(sd.len() == d.len());
                match spec_best_cand(d, s) {
                    Option::None => {},
                    Option::Some(i) => {
                        lemma_best_cand_range(d, s, d.len() as int);
                        assert(sd[i] == scale_vec(d[i], c));
                        assert(s.push(CentroidModel { sums: d[i], count: 1 }).len() == s.len()
                            + 1);
                        assert(scale_cents(s, c).push(CentroidModel { sums: sd[i], count: 1 })
                            =~= scale_cents(s.push(CentroidModel { sums: d[i], count: 1 }), c));
                    },
                }
            },
        }
    }
}

pub proof fn lemma_kmeans_iter_scale(d: Seq<Seq<int>>, part: Seq<Seq<int>>, left: nat, c: int)
    requires
        c > 0,
        d.len() >= 1,
        !ragged(d),
        part.len() >= 1,
        entries_in(part, d.len() as int),
    ensures
        kmeans_iter(scale_data(d, c), part, left) == kmeans_iter(d, part, left),
    decreases left,
{
    if left > 0 {
        lemma_rows_dims(d);
        let cents = spec_recompute(d, part);
        lemma_recompute_scale(d, part, c);
        assert forall|j: int| 0 <= j < cents.len() implies (#[trigger] cents[j]).sums.len() == d[
        0].len() by {
            lemma_member_sums_len(d, part[j], part[j].len() as int, d[0].len() as int);
        }
        lemma_assign_all_scale_invariant(d, cents, c);
        let next = spec_assign_all(d, cents);
        assert(spec_assign_all(scale_data(d, c), spec_recompute(scale_data(d, c), part)) == next);
        if next != part {
            lemma_assign_to_partition(d, cents, d.len() as int);
            lemma_kmeans_iter_scale(d, next, (left - 1) as nat, c);
        }
    }
}

/// Scale invariance of the whole deterministic run: scaling every vector
/// (and with it the implicit origin) by one positive constant changes no
/// seeding choice, no assignment and no convergence test, so the run
/// returns the identical partition of dataset indices, or the identical
/// error.
pub proof fn lemma_kmeans_scale_invariant(d: Seq<Seq<int>>, k: int, c: int)
    requires
        c > 0,
        data_wf(d),
        1 <= k <= d.len(),
    ensures
        spec_kmeans(scale_data(d, c), k) == spec_kmeans(d, k),
{
    lemma_rows_dims(d);
    lemma_span_scale(d, k, c);
    match spec_span(d, k) {
        Option::None => {},
        Option::Some(s) => {
            lemma_span_dims(d, k);
            lemma_assign_all_scale_invariant(d, s, c);
            let part0 = spec_assign_all(d, s);
            lemma_assign_to_partition(d, s, d.len() as int);
            lemma_kmeans_iter_scale(d, part0, MAX_ITERS as nat, c);
        },
    }
}


pub proof fn lemma_max_diam_of_singletons(d: Seq<Seq<int>>, p: Seq<Seq<int>>, m: int)
    requires
        m <= p.len(),
        forall|j: int| 0 <= j < p.len() ==> (#[trigger] p[j]).len() <= 1,
    ensures
        max_diam_to(d, p, m) == 0,
    decreases m,
{
    if m > 0 {
        lemma_max_diam_of_singletons(d, p, m - 1);
        let cl = p[m - 1];
        assert(diam_to(d, cl, 0) == 0);
        if cl.len() == 1 {
            assert(pair_max_to(d, cl, 0, 0) == 0);
            assert(diam_to(d, cl, 1) == 0);
        }
        assert(cluster_diameter(d, cl) == 0);
    }
}

/// When every cluster has at most one member no distance pair exists, every
/// diameter is zero, and the Dunn index reports a degenerate partition
/// rather than dividing by zero. In particular this holds when the cluster
/// count equals the number of distinct dataset vectors.
pub proof fn lemma_singleton_clusters_make_dunn_degenerate(d: Seq<Seq<int>>, p: Seq<Seq<int>>)
    requires
        p.len() >= 2,
        forall|j: int| 0 <= j < p.len() ==> (#[trigger] p[j]).len() <= 1,
    ensures
        spec_dunn(d, p) == Result::<(int, int), ClusterError>::Err(
            ClusterError::DegenerateCluster),
{
    lemma_max_diam_of_singletons(d, p, p.len() as int);
    assert(spec_min_linkage(d, p) is Some ==> spec_dunn(d, p) == Result::<(int, int),
        ClusterError>::Err(ClusterError::DegenerateCluster));
}

} // verus!
