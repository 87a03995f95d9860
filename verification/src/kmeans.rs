use crate::fixed::floor_div;
use crate::sampling::{distinct_indices, sample_indices};
use vstd::prelude::*;

verus! {

/// The most rounds of refinement that follow the first one.
pub const MAX_ROUNDS: usize = 200;

/// The largest squared distance between two points: four times the square of `2^32 - 1`.
pub const MAX_DIST2: u128 = 0x3_FFFF_FFF8_0000_0004;

/// The most points whose squared distances still add up inside a `u128`.
pub const MAX_POINTS: u64 = 0x4000_0000_0000_0000;

/// A point of four fixed-point components.
#[derive(Debug, Copy, Clone, PartialEq, Eq, Structural)]
pub struct Vec4 {
    pub x: i32,
    pub y: i32,
    pub z: i32,
    pub w: i32,
}

/// The squared Euclidean distance between two points, over the integers.
pub open spec fn spec_dist2(a: Vec4, b: Vec4) -> nat {
    ((a.x - b.x) * (a.x - b.x) + (a.y - b.y) * (a.y - b.y) + (a.z - b.z) * (a.z - b.z) + (a.w
        - b.w) * (a.w - b.w)) as nat
}

/// The position of the centroid nearest to `p`; of several equally near, the first.
/// With no centroid at all it is 0.
pub open spec fn nearest(p: Vec4, centroids: Seq<Vec4>) -> nat
    decreases centroids.len(),
{
    if centroids.len() <= 1 {
        0
    } else {
        let before = nearest(p, centroids.drop_last());
        if spec_dist2(p, centroids.last()) < spec_dist2(p, centroids[before as int]) {
            (centroids.len() - 1) as nat
        } else {
            before
        }
    }
}

/// The sum of one component (0 to 3, for `x` to `w`) over all points.
pub open spec fn component_sum(points: Seq<Vec4>, c: int) -> int
    decreases points.len(),
{
    if points.len() == 0 {
        0
    } else {
        component_sum(points.drop_last(), c) + points.last().component(c)
    }
}

/// One component of the mean of a non-empty sequence of points, rounded down.
pub open spec fn mean_component(points: Seq<Vec4>, c: int) -> int {
    component_sum(points, c) / (points.len() as int)
}

/// The componentwise mean of the points, rounded down; the zero point if there are none.
pub open spec fn mean(points: Seq<Vec4>) -> Vec4 {
    if points.len() == 0 {
        Vec4 { x: 0, y: 0, z: 0, w: 0 }
    } else {
        Vec4 {
            x: mean_component(points, 0) as i32,
            y: mean_component(points, 1) as i32,
            z: mean_component(points, 2) as i32,
            w: mean_component(points, 3) as i32,
        }
    }
}

/// The points whose nearest centroid is the one at position `c`, in their given order.
pub open spec fn members(points: Seq<Vec4>, centroids: Seq<Vec4>, c: int) -> Seq<Vec4>
    decreases points.len(),
{
    if points.len() == 0 {
        Seq::empty()
    } else {
        let before = members(points.drop_last(), centroids, c);
        if nearest(points.last(), centroids) == c {
            before.push(points.last())
        } else {
            before
        }
    }
}

/// The sum over all points of the squared distance to the nearest centroid.
pub open spec fn assigned_error(points: Seq<Vec4>, centroids: Seq<Vec4>) -> nat
    decreases points.len(),
{
    if points.len() == 0 {
        0
    } else {
        assigned_error(points.drop_last(), centroids) + spec_dist2(
            points.last(),
            centroids[nearest(points.last(), centroids) as int],
        )
    }
}

/// For each centroid the mean of its members; the zero point where it has none.
pub open spec fn updated_means(points: Seq<Vec4>, centroids: Seq<Vec4>) -> Seq<Vec4> {
    Seq::new(centroids.len(), |c: int| mean(members(points, centroids, c)))
}

/// One pass of assignment and update: the error of the points against the given
/// centroids, and the centroids that follow them.
pub open spec fn pass(points: Seq<Vec4>, centroids: Seq<Vec4>) -> (nat, Seq<Vec4>) {
    (assigned_error(points, centroids), updated_means(points, centroids))
}

/// Whether refinement stops: the error is zero already, or the candidate improves on it
/// by less than a thousandth of it.
pub open spec fn converged(previous: nat, candidate: nat) -> bool {
    previous == 0 || (previous - candidate) * 1000 < previous
}

/// The state after at most `rounds` further rounds. A round's candidate is committed only
/// if it does not stop the refinement; the round that stops it is thrown away.
pub open spec fn refine(points: Seq<Vec4>, state: (nat, Seq<Vec4>), rounds: nat) -> (
    nat,
    Seq<Vec4>,
)
    decreases rounds,
{
    if rounds == 0 {
        state
    } else {
        let candidate = pass(points, state.1);
        if converged(state.0, candidate.0) {
            state
        } else {
            refine(points, candidate, (rounds - 1) as nat)
        }
    }
}

/// The centroids that clustering settles on when it starts from `seeds`.
pub open spec fn final_means(points: Seq<Vec4>, seeds: Seq<Vec4>) -> Seq<Vec4> {
    refine(points, pass(points, seeds), MAX_ROUNDS as nat).1
}

/// Every point replaced by its nearest centroid.
pub open spec fn replaced(points: Seq<Vec4>, centroids: Seq<Vec4>) -> Seq<Vec4> {
    Seq::new(points.len(), |i: int| centroids[nearest(points[i], centroids) as int])
}

/// The points at the given positions.
pub open spec fn picked(points: Seq<Vec4>, indices: Seq<usize>) -> Seq<Vec4> {
    Seq::new(indices.len(), |i: int| points[indices[i] as int])
}

/// The points after clustering that starts from the points at `indices`.
pub open spec fn clustered(points: Seq<Vec4>, indices: Seq<usize>) -> Seq<Vec4> {
    replaced(points, final_means(points, picked(points, indices)))
}

impl Vec4 {
    /// One component by its position: 0 to 3 for `x` to `w`.
    pub open spec fn component(self, c: int) -> int {
        if c == 0 {
            self.x as int
        } else if c == 1 {
            self.y as int
        } else if c == 2 {
            self.z as int
        } else {
            self.w as int
        }
    }

    pub fn new(x: i32, y: i32, z: i32, w: i32) -> (v: Self)
        ensures
            v == (Vec4 { x, y, z, w }),
    {
        Vec4 { x, y, z, w }
    }

    pub fn get(&self) -> (t: (i32, i32, i32, i32))
        ensures
            t == (self.x, self.y, self.z, self.w),
    {
        (self.x, self.y, self.z, self.w)
    }

    fn at(&self, c: usize) -> (value: i32)
        ensures
            value == self.component(c as int),
    {
        if c == 0 {
            self.x
        } else if c == 1 {
            self.y
        } else if c == 2 {
            self.z
        } else {
            self.w
        }
    }

    /// The squared distance to `other`.
    pub fn dist2(&self, other: &Vec4) -> (d: u128)
        ensures
            d == spec_dist2(*self, *other),
            d <= MAX_DIST2,
    {
        square_diff(self.x, other.x) + square_diff(self.y, other.y) + square_diff(
            self.z,
            other.z,
        ) + square_diff(self.w, other.w)
    }

    /// The position in `others` of the point nearest to this one. Of several equally near
    /// it is the first; with `others` empty it is 0.
    pub fn classify(&self, others: &Vec<Vec4>) -> (best: usize)
        ensures
            best == nearest(*self, others@),
            others@.len() > 0 ==> best < others@.len(),
            forall|j: int|
                0 <= j < others@.len() ==> spec_dist2(*self, others@[best as int]) <= spec_dist2(
                    *self,
                    #[trigger] others@[j],
                ),
            forall|j: int|
                0 <= j < best ==> spec_dist2(*self, others@[best as int]) < spec_dist2(
                    *self,
                    #[trigger] others@[j],
                ),
    {
        if others.len() == 0 {
            return 0;
        }
        let mut best: usize = 0;
        let mut best_dist = self.dist2(&others[0]);
        let mut j: usize = 1;
        assert(others@.take(1).len() == 1);
        while j < others.len()
            invariant
                1 <= j <= others@.len(),
                best < j,
                best == nearest(*self, others@.take(j as int)),
                best_dist == spec_dist2(*self, others@[best as int]),
            decreases others@.len() - j,
        {
            let d = self.dist2(&others[j]);
            if d < best_dist {
                best = j;
                best_dist = d;
            }
            j += 1;
            proof {
                assert(others@.take(j as int).drop_last() =~= others@.take(j - 1));
            }
        }
        proof {
            assert(others@.take(j as int) =~= others@);
            lemma_nearest_is_first_minimum(*self, others@);
        }
        best
    }
}

impl Default for Vec4 {
    fn default() -> (v: Self)
        ensures
            v == (Vec4 { x: 0, y: 0, z: 0, w: 0 }),
    {
        Vec4 { x: 0, y: 0, z: 0, w: 0 }
    }
}

fn square_diff(a: i32, b: i32) -> (r: u128)
    ensures
        r == (a - b) * (a - b),
        r <= 0xFFFF_FFFE_0000_0001,
{
    let d: i64 = a as i64 - b as i64;
    let m: u64 = if d >= 0 {
        d as u64
    } else {
        (-d) as u64
    };
    assert(m * m == d * d && m * m <= 0xFFFF_FFFE_0000_0001) by (nonlinear_arith)
        requires
            m == d || m == -d,
            0 <= m <= 0xFFFF_FFFF,
    ;
    (m as u128) * (m as u128)
}

fn component_mean(points: &Vec<Vec4>, c: usize) -> (m: i32)
    requires
        c < 4,
        points@.len() > 0,
    ensures
        m == mean_component(points@, c as int),
{
    let n: usize = points.len();
    let mut sum: i128 = 0;
    let mut i: usize = 0;
    while i < n
        invariant
            i <= n,
            n == points@.len(),
            sum == component_sum(points@.take(i as int), c as int),
            -0x8000_0000 * i <= sum <= 0x7FFF_FFFF * i,
        decreases n - i,
    {
        sum = sum + points[i].at(c) as i128;
        i += 1;
        proof {
            assert(points@.take(i as int).drop_last() =~= points@.take(i - 1));
        }
    }
    proof {
        assert(points@.take(n as int) =~= points@);
        assert(-0x8000_0000 <= sum as int / n as int <= 0x7FFF_FFFF) by (nonlinear_arith)
            requires
                n > 0,
                -0x8000_0000 * n <= sum <= 0x7FFF_FFFF * n,
        ;
    }
    let q: i128 = floor_div(sum, n as i128);
    q as i32
}

/// The mean of the points, each component rounded down; the zero point if there are none.
pub fn avg(vec4s: &Vec<Vec4>) -> (m: Vec4)
    ensures
        m == mean(vec4s@),
{
    if vec4s.len() == 0 {
        return Vec4 { x: 0, y: 0, z: 0, w: 0 };
    }
    Vec4 {
        x: component_mean(vec4s, 0),
        y: component_mean(vec4s, 1),
        z: component_mean(vec4s, 2),
        w: component_mean(vec4s, 3),
    }
}

/// The first of the nearest centroids is nearest: no centroid is nearer, and every one
/// before it is strictly farther.
pub proof fn lemma_nearest_is_first_minimum(p: Vec4, centroids: Seq<Vec4>)
    requires
        centroids.len() > 0,
    ensures
        nearest(p, centroids) < centroids.len(),
        forall|j: int|
            0 <= j < centroids.len() ==> spec_dist2(p, centroids[nearest(p, centroids) as int])
                <= spec_dist2(p, #[trigger] centroids[j]),
        forall|j: int|
            0 <= j < nearest(p, centroids) ==> spec_dist2(
                p,
                centroids[nearest(p, centroids) as int],
            ) < spec_dist2(p, #[trigger] centroids[j]),
    decreases centroids.len(),
{
    if centroids.len() > 1 {
        let front = centroids.drop_last();
        lemma_nearest_is_first_minimum(p, front);
        assert(forall|j: int| 0 <= j < front.len() ==> front[j] == centroids[j]);
    }
}

/// One pass of assignment and update: the summed squared distance of every point to its
/// nearest mean, and for each mean the average of the points nearest to it.
pub fn get_new_means(data: &Vec<Vec4>, means: &Vec<Vec4>) -> (r: (u128, Vec<Vec4>))
    requires
        data@.len() <= MAX_POINTS,
        data@.len() > 0 ==> means@.len() > 0,
    ensures
        r.0 == assigned_error(data@, means@),
        r.1@ == updated_means(data@, means@),
{
    let k: usize = means.len();
    let mut classification: Vec<Vec<Vec4>> = Vec::new();
    let mut c: usize = 0;
    while c < k
        invariant
            c <= k,
            classification@.len() == c,
            forall|b: int| 0 <= b < c ==> (#[trigger] classification@[b])@ == Seq::<Vec4>::empty(),
        decreases k - c,
    {
        classification.push(Vec::new());
        c += 1;
    }
    let mut total: u128 = 0;
    let n: usize = data.len();
    let mut i: usize = 0;
    while i < n
        invariant
            i <= n,
            n == data@.len(),
            n <= MAX_POINTS,
            k == means@.len(),
            n > 0 ==> k > 0,
            classification@.len() == k,
            forall|b: int|
                0 <= b < k ==> (#[trigger] classification@[b])@ == members(
                    data@.take(i as int),
                    means@,
                    b,
                ),
            total == assigned_error(data@.take(i as int), means@),
            total <= i * MAX_DIST2,
        decreases n - i,
    {
        let vec: Vec4 = data[i];
        let near: usize = vec.classify(means);
        classification[near].push(vec);
        total = total + vec.dist2(&means[near]);
        i += 1;
        proof {
            assert(data@.take(i as int).drop_last() =~= data@.take(i - 1));
            assert(data@.take(i as int).last() == vec);
        }
    }
    proof {
        assert(data@.take(n as int) =~= data@);
    }
    let mut new_means: Vec<Vec4> = Vec::new();
    let mut c: usize = 0;
    while c < k
        invariant
            c <= k,
            k == means@.len(),
            classification@.len() == k,
            forall|b: int|
                0 <= b < k ==> (#[trigger] classification@[b])@ == members(data@, means@, b),
            new_means@.len() == c,
            forall|b: int|
                0 <= b < c ==> (#[trigger] new_means@[b]) == mean(members(data@, means@, b)),
        decreases k - c,
    {
        new_means.push(avg(&classification[c]));
        c += 1;
    }
    proof {
        assert(new_means@ =~= updated_means(data@, means@));
    }
    (total, new_means)
}

fn has_converged(previous: u128, candidate: u128) -> (stop: bool)
    ensures
        stop == converged(previous as nat, candidate as nat),
{
    if previous == 0 || candidate > previous {
        true
    } else {
        previous - candidate <= (previous - 1) / 1000
    }
}

/// The centroids that clustering settles on, starting from the points of `data` at the
/// positions `seeds`. After a first pass, up to `MAX_ROUNDS` further passes follow; the
/// pass that improves the error by less than a thousandth stops the run and is dropped.
pub fn cluster(data: &Vec<Vec4>, seeds: &Vec<usize>) -> (means: Vec<Vec4>)
    requires
        data@.len() <= MAX_POINTS,
        data@.len() > 0 ==> seeds@.len() > 0,
        forall|i: int| 0 <= i < seeds@.len() ==> (#[trigger] seeds@[i]) < data@.len(),
    ensures
        means@ == final_means(data@, picked(data@, seeds@)),
        means@.len() == seeds@.len(),
{
    let mut initial: Vec<Vec4> = Vec::new();
    let mut i: usize = 0;
    while i < seeds.len()
        invariant
            i <= seeds@.len(),
            initial@.len() == i,
            forall|j: int| 0 <= j < seeds@.len() ==> (#[trigger] seeds@[j]) < data@.len(),
            forall|j: int| 0 <= j < i ==> (#[trigger] initial@[j]) == data@[seeds@[j] as int],
        decreases seeds@.len() - i,
    {
        initial.push(data[seeds[i]]);
        i += 1;
    }
    proof {
        assert(initial@ =~= picked(data@, seeds@));
    }
    let first = get_new_means(data, &initial);
    let mut err: u128 = first.0;
    let mut means: Vec<Vec4> = first.1;
    let mut round: usize = 0;
    while round < MAX_ROUNDS
        invariant
            round <= MAX_ROUNDS,
            data@.len() <= MAX_POINTS,
            means@.len() == seeds@.len(),
            data@.len() > 0 ==> seeds@.len() > 0,
            final_means(data@, picked(data@, seeds@)) == refine(
                data@,
                (err as nat, means@),
                (MAX_ROUNDS - round) as nat,
            ).1,
        decreases MAX_ROUNDS - round,
    {
        let next = get_new_means(data, &means);
        if has_converged(err, next.0) {
            return means;
        }
        err = next.0;
        means = next.1;
        round += 1;
    }
    means
}

/// Every point of `data` replaced by the mean nearest to it.
pub fn replace_by_nearest(data: &Vec<Vec4>, means: &Vec<Vec4>) -> (out: Vec<Vec4>)
    requires
        data@.len() > 0 ==> means@.len() > 0,
    ensures
        out@ == replaced(data@, means@),
{
    let mut out: Vec<Vec4> = Vec::new();
    let mut i: usize = 0;
    while i < data.len()
        invariant
            i <= data@.len(),
            data@.len() > 0 ==> means@.len() > 0,
            out@.len() == i,
            forall|j: int|
                0 <= j < i ==> (#[trigger] out@[j]) == means@[nearest(data@[j], means@) as int],
        decreases data@.len() - i,
    {
        let near: usize = data[i].classify(means);
        out.push(means[near]);
        i += 1;
    }
    proof {
        assert(out@ =~= replaced(data@, means@));
    }
    out
}

/// Clusters `data` starting from the points at the positions `seeds`, and replaces every
/// point by the centroid nearest to it.
pub fn kmeans_from(data: &Vec<Vec4>, seeds: &Vec<usize>) -> (out: Vec<Vec4>)
    requires
        data@.len() <= MAX_POINTS,
        data@.len() > 0 ==> seeds@.len() > 0,
        forall|i: int| 0 <= i < seeds@.len() ==> (#[trigger] seeds@[i]) < data@.len(),
    ensures
        out@ == clustered(data@, seeds@),
{
    let means = cluster(data, seeds);
    replace_by_nearest(data, &means)
}

/// Clusters `data_in` into `k_num` clusters, starting from `k_num` distinct points of it
/// drawn at random, and replaces every point by the centroid nearest to it.
pub fn kmeans(data_in: Vec<Vec4>, k_num: usize) -> (out: Vec<Vec4>)
    requires
        k_num <= data_in@.len() <= MAX_POINTS,
        data_in@.len() > 0 ==> k_num > 0,
        k_num < data_in@.len() || data_in@.len() <= u32::MAX,
    ensures
        exists|seeds: Seq<usize>|
            distinct_indices(seeds, data_in@.len(), k_num as nat) && out@ == #[trigger] clustered(
                data_in@,
                seeds,
            ),
{
    let seeds = sample_indices(data_in.len(), k_num);
    kmeans_from(&data_in, &seeds)
}

/// The error never grows from one committed round to the next: allowing one more round
/// leaves the error where it was or lowers it.
pub proof fn lemma_error_never_grows(points: Seq<Vec4>, state: (nat, Seq<Vec4>), rounds: nat)
    ensures
        refine(points, state, rounds + 1).0 <= refine(points, state, rounds).0,
        refine(points, state, rounds).0 <= state.0,
    decreases rounds,
{
    let candidate = pass(points, state.1);
    if !converged(state.0, candidate.0) {
        assert(candidate.0 < state.0) by (nonlinear_arith)
            requires
                state.0 != 0,
                (state.0 - candidate.0) * 1000 >= state.0,
        ;
        if rounds > 0 {
            lemma_error_never_grows(points, candidate, (rounds - 1) as nat);
        }
        reveal_with_fuel(refine, 2);
    }
}

/// A round that is committed lowers the error by at least a thousandth of it.
pub proof fn lemma_committed_round_improves(points: Seq<Vec4>, state: (nat, Seq<Vec4>))
    requires
        refine(points, state, 1) != state,
    ensures
        refine(points, state, 1) == pass(points, state.1),
        (state.0 - refine(points, state, 1).0) * 1000 >= state.0,
        refine(points, state, 1).0 < state.0,
{
    reveal_with_fuel(refine, 2);
    let candidate = pass(points, state.1);
    assert(candidate.0 < state.0) by (nonlinear_arith)
        requires
            state.0 != 0,
            (state.0 - candidate.0) * 1000 >= state.0,
    ;
}

/// Refinement keeps the number of centroids.
pub proof fn lemma_refine_keeps_count(points: Seq<Vec4>, state: (nat, Seq<Vec4>), rounds: nat)
    ensures
        refine(points, state, rounds).1.len() == state.1.len(),
    decreases rounds,
{
    if rounds > 0 {
        let candidate = pass(points, state.1);
        if !converged(state.0, candidate.0) {
            lemma_refine_keeps_count(points, candidate, (rounds - 1) as nat);
        }
    }
}

/// Every point is replaced by exactly one centroid, the one at the position that
/// `nearest` gives, and as many points come out as went in.
pub proof fn lemma_replacement_is_centroid(points: Seq<Vec4>, centroids: Seq<Vec4>, i: int)
    requires
        centroids.len() > 0,
        0 <= i < points.len(),
    ensures
        replaced(points, centroids).len() == points.len(),
        nearest(points[i], centroids) < centroids.len(),
        replaced(points, centroids)[i] == centroids[nearest(points[i], centroids) as int],
        centroids.contains(replaced(points, centroids)[i]),
{
    lemma_nearest_is_first_minimum(points[i], centroids);
}

/// A centroid that no point is nearest to becomes the zero point.
pub proof fn lemma_empty_cluster_is_zero(points: Seq<Vec4>, centroids: Seq<Vec4>, c: int)
    requires
        0 <= c < centroids.len(),
        members(points, centroids, c).len() == 0,
    ensures
        updated_means(points, centroids)[c] == (Vec4 { x: 0, y: 0, z: 0, w: 0 }),
{
}

/// The mean of one point taken any number of times is that point.
pub proof fn lemma_mean_of_copies(points: Seq<Vec4>, p: Vec4)
    requires
        points.len() > 0,
        forall|i: int| 0 <= i < points.len() ==> points[i] == p,
    ensures
        mean(points) == p,
{
    lemma_sum_of_copies(points, p, 0);
    lemma_sum_of_copies(points, p, 1);
    lemma_sum_of_copies(points, p, 2);
    lemma_sum_of_copies(points, p, 3);
    let n = points.len() as int;
    vstd::arithmetic::div_mod::lemma_div_multiples_vanish(p.x as int, n);
    vstd::arithmetic::div_mod::lemma_div_multiples_vanish(p.y as int, n);
    vstd::arithmetic::div_mod::lemma_div_multiples_vanish(p.z as int, n);
    vstd::arithmetic::div_mod::lemma_div_multiples_vanish(p.w as int, n);
}

proof fn lemma_sum_of_copies(points: Seq<Vec4>, p: Vec4, c: int)
    requires
        forall|i: int| 0 <= i < points.len() ==> points[i] == p,
    ensures
        component_sum(points, c) == points.len() * p.component(c),
    decreases points.len(),
{
    if points.len() > 0 {
        lemma_sum_of_copies(points.drop_last(), p, c);
        assert(component_sum(points, c) == (points.len() - 1) * p.component(c) + p.component(c));
        assert((points.len() - 1) * p.component(c) + p.component(c) == points.len() * p.component(
            c,
        )) by (nonlinear_arith);
    }
}


} // verus!
