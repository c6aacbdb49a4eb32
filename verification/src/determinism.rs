//! Where the arithmetic is a function, so is the engine.

use crate::arithmetic::Arithmetic;
use crate::kmeans::{
    all_within, gives_center, gives_centers, gives_column_sum, gives_compactness,
    gives_distances, gives_label, gives_labels, gives_mean, gives_round, gives_rounds,
    gives_settled, gives_shift, gives_shifts, gives_squared_distance, gives_update,
    is_empty_cluster, is_nearest, lemma_nearest_unique, members, CompressionResult, Config,
};
use crate::matrix::Matrix;
use vstd::prelude::*;

verus! {

/// Whether each operation of the arithmetic returns one value only for
/// given arguments.
pub open spec fn is_function<A: Arithmetic>(arithmetic: &A) -> bool {
    &&& forall|a: u32, b: u32, r: u32, s: u32|
        #[trigger] call_ensures(A::difference, (arithmetic, a, b), r) && #[trigger] call_ensures(
            A::difference,
            (arithmetic, a, b),
            s,
        ) ==> r == s
    &&& forall|a: u32, r: u32, s: u32|
        #[trigger] call_ensures(A::square, (arithmetic, a), r) && #[trigger] call_ensures(
            A::square,
            (arithmetic, a),
            s,
        ) ==> r == s
    &&& forall|a: u32, b: u32, r: u32, s: u32|
        #[trigger] call_ensures(A::sum, (arithmetic, a, b), r) && #[trigger] call_ensures(
            A::sum,
            (arithmetic, a, b),
            s,
        ) ==> r == s
    &&& forall|a: u32, b: u32, r: u32, s: u32|
        #[trigger] call_ensures(A::quotient, (arithmetic, a, b), r) && #[trigger] call_ensures(
            A::quotient,
            (arithmetic, a, b),
            s,
        ) ==> r == s
    &&& forall|a: u32, r: u32, s: u32|
        #[trigger] call_ensures(A::square_root, (arithmetic, a), r) && #[trigger] call_ensures(
            A::square_root,
            (arithmetic, a),
            s,
        ) ==> r == s
    &&& forall|n: usize, r: u32, s: u32|
        #[trigger] call_ensures(A::from_count, (arithmetic, n), r) && #[trigger] call_ensures(
            A::from_count,
            (arithmetic, n),
            s,
        ) ==> r == s
    &&& forall|a: u32, r: u64, s: u64|
        #[trigger] call_ensures(A::widen, (arithmetic, a), r) && #[trigger] call_ensures(
            A::widen,
            (arithmetic, a),
            s,
        ) ==> r == s
    &&& forall|a: u64, b: u64, r: u64, s: u64|
        #[trigger] call_ensures(A::wide_sum, (arithmetic, a, b), r) && #[trigger] call_ensures(
            A::wide_sum,
            (arithmetic, a, b),
            s,
        ) ==> r == s
}

/// Two rows have one squared distance.
pub proof fn lemma_squared_distance_unique<A: Arithmetic>(
    arithmetic: &A,
    x: Seq<u32>,
    y: Seq<u32>,
    s: u32,
    t: u32,
)
    requires
        is_function(arithmetic),
        gives_squared_distance(arithmetic, x, y, s),
        gives_squared_distance(arithmetic, x, y, t),
    ensures
        s == t,
    decreases x.len(),
{
    if x.len() > 0 {
        let (b1, g1, q1) = choose|before: u32, gap: u32, squared: u32|
            {
                &&& gives_squared_distance(arithmetic, x.drop_last(), y.drop_last(), before)
                &&& call_ensures(A::difference, (arithmetic, x.last(), y.last()), gap)
                &&& #[trigger] call_ensures(A::square, (arithmetic, gap), squared)
                &&& #[trigger] call_ensures(A::sum, (arithmetic, before, squared), s)
            };
        let (b2, g2, q2) = choose|before: u32, gap: u32, squared: u32|
            {
                &&& gives_squared_distance(arithmetic, x.drop_last(), y.drop_last(), before)
                &&& call_ensures(A::difference, (arithmetic, x.last(), y.last()), gap)
                &&& #[trigger] call_ensures(A::square, (arithmetic, gap), squared)
                &&& #[trigger] call_ensures(A::sum, (arithmetic, before, squared), t)
            };
        lemma_squared_distance_unique(arithmetic, x.drop_last(), y.drop_last(), b1, b2);
        assert(g1 == g2);
        assert(q1 == q2);
    }
}

/// A sample gets one label. So the labels after an assignment depend on
/// the samples and the centers alone.
pub proof fn lemma_label_unique<A: Arithmetic>(
    arithmetic: &A,
    sample: Seq<u32>,
    centers: Seq<Seq<u32>>,
    k: int,
    l: int,
)
    requires
        is_function(arithmetic),
        gives_label(arithmetic, sample, centers, k),
        gives_label(arithmetic, sample, centers, l),
    ensures
        k == l,
{
    let d = choose|distances: Seq<u32>|
        {
            &&& #[trigger] gives_distances(arithmetic, sample, centers, distances)
            &&& is_nearest(distances, k)
        };
    let e = choose|distances: Seq<u32>|
        {
            &&& #[trigger] gives_distances(arithmetic, sample, centers, distances)
            &&& is_nearest(distances, l)
        };
    assert forall|c: int| 0 <= c < d.len() implies d[c] == e[c] by {
        lemma_squared_distance_unique(arithmetic, sample, centers[c], d[c], e[c]);
    }
    assert(d =~= e);
    lemma_nearest_unique(d, k, l);
}

/// The samples get one sequence of labels.
pub proof fn lemma_labels_unique<A: Arithmetic>(
    arithmetic: &A,
    samples: Seq<Seq<u32>>,
    centers: Seq<Seq<u32>>,
    first: Seq<usize>,
    second: Seq<usize>,
)
    requires
        is_function(arithmetic),
        gives_labels(arithmetic, samples, centers, first),
        gives_labels(arithmetic, samples, centers, second),
    ensures
        first == second,
{
    assert forall|i: int| 0 <= i < first.len() implies first[i] == second[i] by {
        lemma_label_unique(arithmetic, samples[i], centers, first[i] as int, second[i] as int);
    }
    assert(first =~= second);
}

proof fn lemma_column_sum_unique<A: Arithmetic>(
    arithmetic: &A,
    samples: Seq<Seq<u32>>,
    labels: Seq<usize>,
    c: int,
    j: int,
    n: nat,
    s: u32,
    t: u32,
)
    requires
        is_function(arithmetic),
        gives_column_sum(arithmetic, samples, labels, c, j, n, s),
        gives_column_sum(arithmetic, samples, labels, c, j, n, t),
    ensures
        s == t,
    decreases n,
{
    if n > 0 {
        if labels[n - 1] == c {
            let b1 = choose|before: u32|
                {
                    &&& gives_column_sum(arithmetic, samples, labels, c, j, (n - 1) as nat, before)
                    &&& #[trigger] call_ensures(
                        A::sum,
                        (arithmetic, before, samples[n - 1][j]),
                        s,
                    )
                };
            let b2 = choose|before: u32|
                {
                    &&& gives_column_sum(arithmetic, samples, labels, c, j, (n - 1) as nat, before)
                    &&& #[trigger] call_ensures(
                        A::sum,
                        (arithmetic, before, samples[n - 1][j]),
                        t,
                    )
                };
            lemma_column_sum_unique(arithmetic, samples, labels, c, j, (n - 1) as nat, b1, b2);
        } else {
            lemma_column_sum_unique(arithmetic, samples, labels, c, j, (n - 1) as nat, s, t);
        }
    }
}

proof fn lemma_mean_unique<A: Arithmetic>(
    arithmetic: &A,
    samples: Seq<Seq<u32>>,
    labels: Seq<usize>,
    c: int,
    j: int,
    s: u32,
    t: u32,
)
    requires
        is_function(arithmetic),
        gives_mean(arithmetic, samples, labels, c, j, s),
        gives_mean(arithmetic, samples, labels, c, j, t),
    ensures
        s == t,
{
    let (t1, z1) = choose|total: u32, size: u32|
        {
            &&& gives_column_sum(arithmetic, samples, labels, c, j, labels.len(), total)
            &&& #[trigger] call_ensures(
                A::from_count,
                (arithmetic, members(labels, c) as usize),
                size,
            )
            &&& #[trigger] call_ensures(A::quotient, (arithmetic, total, size), s)
        };
    let (t2, z2) = choose|total: u32, size: u32|
        {
            &&& gives_column_sum(arithmetic, samples, labels, c, j, labels.len(), total)
            &&& #[trigger] call_ensures(
                A::from_count,
                (arithmetic, members(labels, c) as usize),
                size,
            )
            &&& #[trigger] call_ensures(A::quotient, (arithmetic, total, size), t)
        };
    lemma_column_sum_unique(arithmetic, samples, labels, c, j, labels.len(), t1, t2);
    assert(z1 == z2);
}

/// An update puts the centers at one place.
pub proof fn lemma_update_unique<A: Arithmetic>(
    arithmetic: &A,
    samples: Seq<Seq<u32>>,
    labels: Seq<usize>,
    previous: Seq<Seq<u32>>,
    first: Seq<Seq<u32>>,
    second: Seq<Seq<u32>>,
)
    requires
        is_function(arithmetic),
        gives_update(arithmetic, samples, labels, previous, first),
        gives_update(arithmetic, samples, labels, previous, second),
    ensures
        first == second,
{
    assert forall|c: int| 0 <= c < first.len() implies first[c] == second[c] by {
        assert(gives_center(arithmetic, samples, labels, c, previous[c], first[c]));
        assert(gives_center(arithmetic, samples, labels, c, previous[c], second[c]));
        if !is_empty_cluster(labels, c) {
            assert forall|j: int| 0 <= j < first[c].len() implies first[c][j] == second[c][j] by {
                lemma_mean_unique(arithmetic, samples, labels, c, j, first[c][j], second[c][j]);
            }
            assert(first[c] =~= second[c]);
        }
    }
    assert(first =~= second);
}

proof fn lemma_shift_unique<A: Arithmetic>(
    arithmetic: &A,
    x: Seq<u32>,
    y: Seq<u32>,
    s: u32,
    t: u32,
)
    requires
        is_function(arithmetic),
        gives_shift(arithmetic, x, y, s),
        gives_shift(arithmetic, x, y, t),
    ensures
        s == t,
{
    let q1 = choose|squared: u32|
        {
            &&& gives_squared_distance(arithmetic, x, y, squared)
            &&& #[trigger] call_ensures(A::square_root, (arithmetic, squared), s)
        };
    let q2 = choose|squared: u32|
        {
            &&& gives_squared_distance(arithmetic, x, y, squared)
            &&& #[trigger] call_ensures(A::square_root, (arithmetic, squared), t)
        };
    lemma_squared_distance_unique(arithmetic, x, y, q1, q2);
}

/// A move of the centers has one verdict.
pub proof fn lemma_settled_unique<A: Arithmetic>(
    arithmetic: &A,
    previous: Seq<Seq<u32>>,
    current: Seq<Seq<u32>>,
    tolerance: u32,
    first: bool,
    second: bool,
)
    requires
        is_function(arithmetic),
        gives_settled(arithmetic, previous, current, tolerance, first),
        gives_settled(arithmetic, previous, current, tolerance, second),
    ensures
        first == second,
{
    let s1 = choose|shifts: Seq<u32>|
        {
            &&& #[trigger] gives_shifts(arithmetic, previous, current, shifts)
            &&& first == all_within(shifts, tolerance)
        };
    let s2 = choose|shifts: Seq<u32>|
        {
            &&& #[trigger] gives_shifts(arithmetic, previous, current, shifts)
            &&& second == all_within(shifts, tolerance)
        };
    assert forall|c: int| 0 <= c < s1.len() implies s1[c] == s2[c] by {
        lemma_shift_unique(arithmetic, previous[c], current[c], s1[c], s2[c]);
    }
    assert(s1 =~= s2);
}

/// A round takes the centers to one place, with one verdict.
pub proof fn lemma_round_unique<A: Arithmetic>(
    arithmetic: &A,
    samples: Seq<Seq<u32>>,
    tolerance: u32,
    previous: Seq<Seq<u32>>,
    first: Seq<Seq<u32>>,
    first_settled: bool,
    second: Seq<Seq<u32>>,
    second_settled: bool,
)
    requires
        is_function(arithmetic),
        gives_round(arithmetic, samples, tolerance, previous, first, first_settled),
        gives_round(arithmetic, samples, tolerance, previous, second, second_settled),
    ensures
        first == second,
        first_settled == second_settled,
{
    let l1 = choose|labels: Seq<usize>|
        {
            &&& #[trigger] gives_labels(arithmetic, samples, previous, labels)
            &&& gives_update(arithmetic, samples, labels, previous, first)
            &&& gives_settled(arithmetic, previous, first, tolerance, first_settled)
        };
    let l2 = choose|labels: Seq<usize>|
        {
            &&& #[trigger] gives_labels(arithmetic, samples, previous, labels)
            &&& gives_update(arithmetic, samples, labels, previous, second)
            &&& gives_settled(arithmetic, previous, second, tolerance, second_settled)
        };
    lemma_labels_unique(arithmetic, samples, previous, l1, l2);
    lemma_update_unique(arithmetic, samples, l1, previous, first, second);
    lemma_settled_unique(arithmetic, previous, first, tolerance, first_settled, second_settled);
}

/// A number of rounds takes the centers to one place, with one verdict.
pub proof fn lemma_rounds_unique<A: Arithmetic>(
    arithmetic: &A,
    samples: Seq<Seq<u32>>,
    tolerance: u32,
    initial: Seq<Seq<u32>>,
    rounds: nat,
    first: Seq<Seq<u32>>,
    first_settled: bool,
    second: Seq<Seq<u32>>,
    second_settled: bool,
)
    requires
        is_function(arithmetic),
        gives_rounds(arithmetic, samples, tolerance, initial, first, rounds, first_settled),
        gives_rounds(arithmetic, samples, tolerance, initial, second, rounds, second_settled),
    ensures
        first == second,
        first_settled == second_settled,
    decreases rounds,
{
    if rounds > 0 {
        let m1 = choose|middle: Seq<Seq<u32>>|
            {
                &&& gives_rounds(
                    arithmetic,
                    samples,
                    tolerance,
                    initial,
                    middle,
                    (rounds - 1) as nat,
                    false,
                )
                &&& #[trigger] gives_round(
                    arithmetic,
                    samples,
                    tolerance,
                    middle,
                    first,
                    first_settled,
                )
            };
        let m2 = choose|middle: Seq<Seq<u32>>|
            {
                &&& gives_rounds(
                    arithmetic,
                    samples,
                    tolerance,
                    initial,
                    middle,
                    (rounds - 1) as nat,
                    false,
                )
                &&& #[trigger] gives_round(
                    arithmetic,
                    samples,
                    tolerance,
                    middle,
                    second,
                    second_settled,
                )
            };
        lemma_rounds_unique(
            arithmetic,
            samples,
            tolerance,
            initial,
            (rounds - 1) as nat,
            m1,
            false,
            m2,
            false,
        );
        lemma_round_unique(
            arithmetic,
            samples,
            tolerance,
            m1,
            first,
            first_settled,
            second,
            second_settled,
        );
    }
}

/// Before the last of some rounds, no round has settled.
proof fn lemma_rounds_before<A: Arithmetic>(
    arithmetic: &A,
    samples: Seq<Seq<u32>>,
    tolerance: u32,
    initial: Seq<Seq<u32>>,
    centers: Seq<Seq<u32>>,
    rounds: nat,
    settled: bool,
    fewer: nat,
) -> (middle: Seq<Seq<u32>>)
    requires
        gives_rounds(arithmetic, samples, tolerance, initial, centers, rounds, settled),
        fewer < rounds,
    ensures
        gives_rounds(arithmetic, samples, tolerance, initial, middle, fewer, false),
    decreases rounds,
{
    let m = choose|middle: Seq<Seq<u32>>|
        {
            &&& gives_rounds(
                arithmetic,
                samples,
                tolerance,
                initial,
                middle,
                (rounds - 1) as nat,
                false,
            )
            &&& #[trigger] gives_round(arithmetic, samples, tolerance, middle, centers, settled)
        };
    if fewer == rounds - 1 {
        m
    } else {
        lemma_rounds_before(
            arithmetic,
            samples,
            tolerance,
            initial,
            m,
            (rounds - 1) as nat,
            false,
            fewer,
        )
    }
}

/// The rounds of the engine end at one place.
pub proof fn lemma_centers_unique<A: Arithmetic>(
    arithmetic: &A,
    samples: Seq<Seq<u32>>,
    config: Config,
    initial: Seq<Seq<u32>>,
    first: Seq<Seq<u32>>,
    second: Seq<Seq<u32>>,
)
    requires
        is_function(arithmetic),
        gives_centers(arithmetic, samples, config, initial, first),
        gives_centers(arithmetic, samples, config, initial, second),
    ensures
        first == second,
{
    let (n1, s1) = choose|rounds: nat, settled: bool|
        {
            &&& rounds <= config.max_iter
            &&& settled || rounds == config.max_iter
            &&& #[trigger] gives_rounds(
                arithmetic,
                samples,
                config.tolerance,
                initial,
                first,
                rounds,
                settled,
            )
        };
    let (n2, s2) = choose|rounds: nat, settled: bool|
        {
            &&& rounds <= config.max_iter
            &&& settled || rounds == config.max_iter
            &&& #[trigger] gives_rounds(
                arithmetic,
                samples,
                config.tolerance,
                initial,
                second,
                rounds,
                settled,
            )
        };
    if n1 == n2 {
        lemma_rounds_unique(
            arithmetic,
            samples,
            config.tolerance,
            initial,
            n1,
            first,
            s1,
            second,
            s2,
        );
    } else if n1 < n2 {
        let m = lemma_rounds_before(
            arithmetic,
            samples,
            config.tolerance,
            initial,
            second,
            n2,
            s2,
            n1,
        );
        lemma_rounds_unique(
            arithmetic,
            samples,
            config.tolerance,
            initial,
            n1,
            first,
            s1,
            m,
            false,
        );
    } else {
        let m = lemma_rounds_before(
            arithmetic,
            samples,
            config.tolerance,
            initial,
            first,
            n1,
            s1,
            n2,
        );
        lemma_rounds_unique(
            arithmetic,
            samples,
            config.tolerance,
            initial,
            n2,
            second,
            s2,
            m,
            false,
        );
    }
}

/// Some rows have one compactness.
pub proof fn lemma_compactness_unique<A: Arithmetic>(
    arithmetic: &A,
    samples: Seq<Seq<u32>>,
    compressed: Seq<Seq<u32>>,
    rows: nat,
    s: u64,
    t: u64,
)
    requires
        is_function(arithmetic),
        gives_compactness(arithmetic, samples, compressed, rows, s),
        gives_compactness(arithmetic, samples, compressed, rows, t),
    ensures
        s == t,
    decreases rows,
{
    if rows > 0 {
        let (b1, q1, w1) = choose|before: u64, squared: u32, wide: u64|
            {
                &&& gives_compactness(arithmetic, samples, compressed, (rows - 1) as nat, before)
                &&& gives_squared_distance(
                    arithmetic,
                    samples[rows - 1],
                    compressed[rows - 1],
                    squared,
                )
                &&& #[trigger] call_ensures(A::widen, (arithmetic, squared), wide)
                &&& #[trigger] call_ensures(A::wide_sum, (arithmetic, before, wide), s)
            };
        let (b2, q2, w2) = choose|before: u64, squared: u32, wide: u64|
            {
                &&& gives_compactness(arithmetic, samples, compressed, (rows - 1) as nat, before)
                &&& gives_squared_distance(
                    arithmetic,
                    samples[rows - 1],
                    compressed[rows - 1],
                    squared,
                )
                &&& #[trigger] call_ensures(A::widen, (arithmetic, squared), wide)
                &&& #[trigger] call_ensures(A::wide_sum, (arithmetic, before, wide), t)
            };
        lemma_compactness_unique(arithmetic, samples, compressed, (rows - 1) as nat, b1, b2);
        lemma_squared_distance_unique(
            arithmetic,
            samples[rows - 1],
            compressed[rows - 1],
            q1,
            q2,
        );
        assert(w1 == w2);
    }
}

/// Where the arithmetic is a function, the same samples, the same first
/// centers and the same configuration give the same centers, labels,
/// compressed samples and compactness.
pub proof fn lemma_outcome_unique<A: Arithmetic>(
    arithmetic: &A,
    samples: &Matrix,
    initial: Seq<Seq<u32>>,
    config: Config,
    first: &CompressionResult,
    second: &CompressionResult,
)
    requires
        is_function(arithmetic),
        first.is_outcome(arithmetic, samples, initial, config),
        second.is_outcome(arithmetic, samples, initial, config),
    ensures
        first.centers@ == second.centers@,
        first.labels@ == second.labels@,
        first.compressed_samples@ == second.compressed_samples@,
        first.compactness == second.compactness,
{
    lemma_centers_unique(arithmetic, samples@, config, initial, first.centers@, second.centers@);
    lemma_labels_unique(arithmetic, samples@, first.centers@, first.labels@, second.labels@);
    assert forall|i: int| 0 <= i < samples.rows() implies first.compressed_samples@[i]
        == second.compressed_samples@[i] by {
        let l = first.labels@[i] as int;
        assert(first.compressed_samples.row(i) == first.centers.row(l));
        assert(second.compressed_samples.row(i) == second.centers.row(l));
        assert(first.centers@[l] == first.centers.row(l));
        assert(second.centers@[l] == second.centers.row(l));
    }
    assert(first.compressed_samples@ =~= second.compressed_samples@);
    lemma_compactness_unique(
        arithmetic,
        samples@,
        first.compressed_samples@,
        samples.rows(),
        first.compactness,
        second.compactness,
    );
}

} // verus!
