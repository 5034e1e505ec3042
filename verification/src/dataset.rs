use vstd::prelude::*;
use crate::errors::ClusterError;

verus! {

/// Largest magnitude a single coordinate may have (2^20).
pub const MAX_COORD: i64 = 1_048_576;

/// Largest number of vectors a dataset may hold (2^16).
pub const MAX_POINTS: usize = 65_536;

/// Largest dimension a dataset may have (2^12).
pub const MAX_DIM: usize = 4_096;

/// Bound on a squared point-to-point distance:
/// `MAX_DIM * 4 * MAX_COORD^2` (2^54).
pub const DIST_BOUND: u64 = 18_014_398_509_481_984;

/// Bound on a scaled point-to-centroid distance:
/// `MAX_DIM * 4 * MAX_POINTS^2 * MAX_COORD^2` (2^86).
pub const SCALED_DIST_BOUND: u128 = 77_371_252_455_336_267_181_195_264;

/// Bound on a squared centroid count: `MAX_POINTS^2` (2^32).
pub const COUNT_SQ_BOUND: u128 = 4_294_967_296;

/// The exact integer values of a sequence of machine coordinates.
pub open spec fn ints(s: Seq<i64>) -> Seq<int> {
    s.map_values(|x: i64| x as int)
}

/// The exact integer rows of a matrix of machine coordinates.
pub open spec fn data_view(d: Seq<Vec<i64>>) -> Seq<Seq<int>> {
    d.map_values(|r: Vec<i64>| ints(r@))
}

/// The clusters of a partition as sequences of dataset indices.
pub open spec fn part_view(p: Seq<Vec<usize>>) -> Seq<Seq<int>> {
    p.map_values(|c: Vec<usize>| c@.map_values(|x: usize| x as int))
}

/// Some row has a length different from the first row's.
pub open spec fn ragged(d: Seq<Seq<int>>) -> bool {
    exists|i: int| 0 <= i < d.len() && #[trigger] d[i].len() != d[0].len()
}

/// The machine limits: at least one row, row count, dimension and coordinate
/// magnitudes within the fixed bounds.
pub open spec fn limits_ok(d: Seq<Seq<int>>) -> bool {
    &&& 1 <= d.len() <= MAX_POINTS as int
    &&& 1 <= d[0].len() <= MAX_DIM as int
    &&& forall|i: int, j: int|
        0 <= i < d.len() && 0 <= j < d[i].len()
            ==> -(MAX_COORD as int) <= #[trigger] d[i][j] <= MAX_COORD as int
}

/// A well-formed dataset: rectangular and within the machine limits.
pub open spec fn data_wf(d: Seq<Seq<int>>) -> bool {
    &&& !ragged(d)
    &&& limits_ok(d)
}

/// An ordered collection of equal-length integer vectors: the input to a
/// clustering run. `Dataset::new` is the single validation point; every
/// operation then requires `data_wf(self@)`.
pub struct Dataset {
    pub vecs: Vec<Vec<i64>>,
}

impl View for Dataset {
    type V = Seq<Seq<int>>;

    open spec fn view(&self) -> Seq<Seq<int>> {
        data_view(self.vecs@)
    }
}

impl Dataset {
    /// Validates the rows once, as the single point of ingestion: every row
    /// must have the first row's length (else `DimensionMismatch`), and the
    /// shape and coordinates must lie within the machine limits (else
    /// `ValueOutOfRange`).
    pub fn new(rows: Vec<Vec<i64>>) -> (r: Result<Dataset, ClusterError>)
        ensures
            match r {
                Ok(ds) => ds@ == data_view(rows@) && data_wf(ds@),
                Err(e) => {
                    &&& (e == ClusterError::DimensionMismatch <==> ragged(data_view(rows@)))
                    &&& (e == ClusterError::ValueOutOfRange <==> !ragged(data_view(rows@))
                        && !limits_ok(data_view(rows@)))
                    &&& (e == ClusterError::DimensionMismatch || e == ClusterError::ValueOutOfRange)
                },
            },
    {
        let ghost dv = data_view(rows@);
        if rows.len() == 0 {
            assert(!ragged(dv));
            return Err(ClusterError::ValueOutOfRange);
        }
        let dim = rows[0].len();
        assert(dv[0].len() == dim);
        for i in 1..rows.len()
            invariant
                dv == data_view(rows@),
                rows@.len() >= 1,
                dim == dv[0].len(),
                forall|t: int| 0 <= t < i ==> #[trigger] dv[t].len() == dv[0].len(),
        {
            assert(dv[i as int].len() == rows@[i as int]@.len());
            if rows[i].len() != dim {
                assert(ragged(dv));
                return Err(ClusterError::DimensionMismatch);
            }
        }
        assert(!ragged(dv));
        if rows.len() > MAX_POINTS || dim == 0 || dim > MAX_DIM {
            return Err(ClusterError::ValueOutOfRange);
        }
        for i in 0..rows.len()
            invariant
                dv == data_view(rows@),
                1 <= rows@.len() <= MAX_POINTS as int,
                dim == dv[0].len(),
                1 <= dim <= MAX_DIM as int,
                !ragged(dv),
                forall|t: int, u: int|
                    0 <= t < i && 0 <= u < dv[t].len()
                        ==> -(MAX_COORD as int) <= #[trigger] dv[t][u] <= MAX_COORD as int,
        {
            let row = &rows[i];
            assert(dv[i as int] == ints(row@));
            for j in 0..row.len()
                invariant
                    dv == data_view(rows@),
                    !ragged(dv),
                    0 <= i < rows@.len(),
                    dv[i as int] == ints(row@),
                    row@.len() == dv[i as int].len(),
                    forall|u: int|
                        0 <= u < j
                            ==> -(MAX_COORD as int) <= #[trigger] dv[i as int][u]
                                <= MAX_COORD as int,
            {
                assert(dv[i as int][j as int] == row@[j as int] as int);
                if row[j] > MAX_COORD || row[j] < -MAX_COORD {
                    assert(!(-(MAX_COORD as int) <= dv[i as int][j as int] <= MAX_COORD as int));
                    assert(!limits_ok(dv));
                    return Err(ClusterError::ValueOutOfRange);
                }
            }
        }
        assert(limits_ok(dv));
        Ok(Dataset { vecs: rows })
    }

    /// The number of vectors in the dataset.
    pub fn len(&self) -> (n: usize)
        ensures
            n == self@.len(),
    {
        self.vecs.len()
    }

    /// The shared dimension of the dataset's vectors.
    pub fn dim(&self) -> (d: usize)
        requires
            data_wf(self@),
        ensures
            d == self@[0].len(),
    {
        assert(self@[0] == ints(self.vecs@[0]@));
        self.vecs[0].len()
    }
}

/// An exact cluster centroid: the componentwise sum of the members together
/// with the member count, standing for the rational mean `sums / count`.
/// An empty cluster is represented with `sums` all zero and `count == 1`,
/// which is the zero vector.
pub struct Centroid {
    pub sums: Vec<i64>,
    pub count: usize,
}

/// The mathematical value of a centroid: exact component sums and the count.
pub struct CentroidModel {
    pub sums: Seq<int>,
    pub count: int,
}

impl View for Centroid {
    type V = CentroidModel;

    open spec fn view(&self) -> CentroidModel {
        CentroidModel { sums: ints(self.sums@), count: self.count as int }
    }
}

/// A well-formed centroid of dimension `dim`: a positive count within the
/// point limit, and each component sum bounded by `count` extreme members.
pub open spec fn cm_wf(c: CentroidModel, dim: int) -> bool {
    &&& c.sums.len() == dim
    &&& 1 <= c.count <= MAX_POINTS as int
    &&& forall|i: int|
        0 <= i < dim
            ==> -c.count * (MAX_COORD as int) <= #[trigger] c.sums[i]
                <= c.count * (MAX_COORD as int)
}

/// The centroids of a centroid list, as mathematical values.
pub open spec fn cents_view(cs: Seq<Centroid>) -> Seq<CentroidModel> {
    cs.map_values(|c: Centroid| c@)
}

/// Every centroid in the list is well formed for dimension `dim`.
pub open spec fn cents_wf(cs: Seq<CentroidModel>, dim: int) -> bool {
    forall|j: int| 0 <= j < cs.len() ==> cm_wf(#[trigger] cs[j], dim)
}

/// The sum of the first `n` squared component differences of `v` and `w`.
pub open spec fn sq_dist_to(v: Seq<int>, w: Seq<int>, n: int) -> int
    decreases n,
{
    if n <= 0 {
        0
    } else {
        sq_dist_to(v, w, n - 1) + (v[n - 1] - w[n - 1]) * (v[n - 1] - w[n - 1])
    }
}

/// The squared Euclidean distance of two equal-length vectors.
pub open spec fn sq_dist(v: Seq<int>, w: Seq<int>) -> int {
    sq_dist_to(v, w, v.len() as int)
}

/// The sum of the first `n` squared components of `p` scaled by the
/// centroid's count minus the centroid's sums: `count * count` times the
/// squared distance from `p` to the rational mean the centroid stands for.
pub open spec fn scaled_sq_dist_to(p: Seq<int>, c: CentroidModel, n: int) -> int
    decreases n,
{
    if n <= 0 {
        0
    } else {
        scaled_sq_dist_to(p, c, n - 1) + (p[n - 1] * c.count - c.sums[n - 1]) * (p[n - 1] * c.count
            - c.sums[n - 1])
    }
}

/// The squared distance from point `p` to the centroid's rational mean,
/// scaled by `c.count * c.count`.
pub open spec fn scaled_sq_dist(p: Seq<int>, c: CentroidModel) -> int {
    scaled_sq_dist_to(p, c, p.len() as int)
}

/// `p` is nearer to centroid `a` than to centroid `b`, comparing the exact
/// rational distances by cross-multiplication with the squared counts.
pub open spec fn dist_lt(p: Seq<int>, a: CentroidModel, b: CentroidModel) -> bool {
    scaled_sq_dist(p, a) * (b.count * b.count) < scaled_sq_dist(p, b) * (a.count * a.count)
}

/// Products of bounded non-negative factors are bounded.
pub proof fn lemma_mul_le(a: int, b: int, ca: int, cb: int)
    by (nonlinear_arith)
    requires
        0 <= a <= ca,
        0 <= b <= cb,
    ensures
        0 <= a * b <= ca * cb,
{
}

/// The squared Euclidean distance of two vectors of one dimension, summed
/// exactly: the single distance primitive every other component builds on.
pub fn distance(v: &Vec<i64>, w: &Vec<i64>) -> (r: u64)
    requires
        v@.len() == w@.len(),
        v@.len() <= MAX_DIM as int,
        forall|i: int|
            0 <= i < v@.len()
                ==> -(MAX_COORD as int) <= #[trigger] v@[i] as int <= MAX_COORD as int,
        forall|i: int|
            0 <= i < w@.len()
                ==> -(MAX_COORD as int) <= #[trigger] w@[i] as int <= MAX_COORD as int,
    ensures
        r == sq_dist(ints(v@), ints(w@)),
        r <= DIST_BOUND,
{
    let ghost iv = ints(v@);
    let ghost iw = ints(w@);
    let mut acc: u64 = 0;
    let n = v.len();
    for i in 0..n
        invariant
            n == v@.len(),
            v@.len() == w@.len() <= MAX_DIM as int,
            iv == ints(v@),
            iw == ints(w@),
            forall|t: int|
                0 <= t < v@.len() ==> -(MAX_COORD as int) <= #[trigger] iv[t] <= MAX_COORD as int,
            forall|t: int|
                0 <= t < w@.len() ==> -(MAX_COORD as int) <= #[trigger] iw[t] <= MAX_COORD as int,
            acc == sq_dist_to(iv, iw, i as int),
            acc <= (i as int) * 4_398_046_511_104,
    {
        assert(iv[i as int] == v@[i as int] as int && iw[i as int] == w@[i as int] as int);
        let d: i64 = v[i] - w[i];
        assert(0 <= d * d <= 4_398_046_511_104) by (nonlinear_arith)
            requires
                -2_097_152 <= d <= 2_097_152,
        ;
        let sq: u64 = (d * d) as u64;
        acc = acc + sq;
    }
    assert((n as int) * 4_398_046_511_104 <= 18_014_398_509_481_984) by (nonlinear_arith)
        requires
            0 <= n <= 4_096,
    ;
    acc
}

/// The scaled squared distance from a point to a centroid, computed exactly:
/// `count * count` times the distance to the rational mean.
pub fn scaled_distance(p: &Vec<i64>, c: &Centroid) -> (r: u128)
    requires
        cm_wf(c@, p@.len() as int),
        p@.len() <= MAX_DIM as int,
        forall|i: int|
            0 <= i < p@.len()
                ==> -(MAX_COORD as int) <= #[trigger] p@[i] as int <= MAX_COORD as int,
    ensures
        r == scaled_sq_dist(ints(p@), c@),
        r <= SCALED_DIST_BOUND,
{
    let ghost ip = ints(p@);
    let ghost cm = c@;
    let mut acc: i128 = 0;
    let n = p.len();
    for i in 0..n
        invariant
            n == p@.len(),
            p@.len() <= MAX_DIM as int,
            ip == ints(p@),
            cm == c@,
            cm_wf(cm, p@.len() as int),
            forall|t: int|
                0 <= t < p@.len() ==> -(MAX_COORD as int) <= #[trigger] ip[t] <= MAX_COORD as int,
            acc == scaled_sq_dist_to(ip, cm, i as int),
            0 <= acc <= (i as int) * 18_889_465_931_478_580_854_784,
    {
        assert(ip[i as int] == p@[i as int] as int);
        assert(cm.sums[i as int] == c.sums@[i as int] as int);
        assert(-c.count * 1_048_576 <= cm.sums[i as int] <= c.count * 1_048_576);
        let ghost ti = ip[i as int] * cm.count - cm.sums[i as int];
        assert(-68_719_476_736 <= ip[i as int] * cm.count <= 68_719_476_736
            && -68_719_476_736 <= cm.sums[i as int] <= 68_719_476_736 && 0 <= ti * ti
            <= 18_889_465_931_478_580_854_784) by (nonlinear_arith)
            requires
                -1_048_576 <= ip[i as int] <= 1_048_576,
                1 <= cm.count <= 65_536,
                -cm.count * 1_048_576 <= cm.sums[i as int] <= cm.count * 1_048_576,
                ti == ip[i as int] * cm.count - cm.sums[i as int],
        ;
        let scaled: i128 = (p[i] as i128) * (c.count as i128);
        let t: i128 = scaled - (c.sums[i] as i128);
        assert(t == ti);
        acc = acc + t * t;
    }
    assert((n as int) * 18_889_465_931_478_580_854_784
        <= 77_371_252_455_336_267_181_195_264) by (nonlinear_arith)
        requires
            0 <= n <= 4_096,
    ;
    acc as u128
}

} // verus!
