//! Lloyd's k-means on a matrix of color samples.

use crate::arithmetic::Arithmetic;
use crate::ieee;
use crate::matrix::Matrix;
use crate::sampling;
use rand::rngs::StdRng;
use vstd::prelude::*;
use vstd::string::*;

verus! {

/// The number of columns that the engine accepts: one per color channel.
pub const CHANNELS: usize = 3;

/// Why the engine refuses an input.
#[derive(Debug, Clone, Copy, PartialEq, Eq, Structural)]
pub enum PreconditionError {
    /// A matrix does not have three columns.
    ColumnCount,
    /// Fewer than two clusters were asked for.
    ClusterCount,
    /// There are fewer samples than clusters.
    SampleCount,
}

impl PreconditionError {
    /// The text that describes the error.
    pub open spec fn text(self) -> Seq<char> {
        match self {
            PreconditionError::ColumnCount => "expected 3 columns (RGB)"@,
            PreconditionError::ClusterCount => "clusters must be >= 2"@,
            PreconditionError::SampleCount => "sample count must be >= clusters"@,
        }
    }

    /// The text that describes the error.
    pub fn message(&self) -> (s: String)
        ensures
            s@ == self.text(),
    {
        match self {
            PreconditionError::ColumnCount => String::from_str("expected 3 columns (RGB)"),
            PreconditionError::ClusterCount => String::from_str("clusters must be >= 2"),
            PreconditionError::SampleCount => String::from_str("sample count must be >= clusters"),
        }
    }
}

/// The first rule that a clustering of `rows` samples with `cols` columns
/// into `clusters` clusters breaks, if it breaks one.
pub open spec fn precondition_error(rows: nat, cols: nat, clusters: nat) -> Option<
    PreconditionError,
> {
    if cols != 3 {
        Some(PreconditionError::ColumnCount)
    } else if clusters < 2 {
        Some(PreconditionError::ClusterCount)
    } else if rows < clusters {
        Some(PreconditionError::SampleCount)
    } else {
        None
    }
}

/// Tests the rules on the shape of the input, in the order in which
/// `precondition_error` lists them.
pub fn check_preconditions(rows: usize, cols: usize, clusters: usize) -> (r: Result<
    (),
    PreconditionError,
>)
    ensures
        match precondition_error(rows as nat, cols as nat, clusters as nat) {
            Some(e) => r == Err::<(), PreconditionError>(e),
            None => r is Ok,
        },
{
    if cols != CHANNELS {
        Err(PreconditionError::ColumnCount)
    } else if clusters < 2 {
        Err(PreconditionError::ClusterCount)
    } else if rows < clusters {
        Err(PreconditionError::SampleCount)
    } else {
        Ok(())
    }
}

/// Whether a distance can win an assignment: it is a number below the
/// largest finite one.
pub open spec fn eligible(distance: u32) -> bool {
    ieee::less(distance, ieee::LARGEST_FINITE)
}

/// Whether `c` is the center that a sample with these distances is assigned
/// to: the first one at the least eligible distance, and center 0 where no
/// distance is eligible.
pub open spec fn is_nearest(distances: Seq<u32>, c: int) -> bool {
    if exists|j: int| 0 <= j < distances.len() && eligible(distances[j]) {
        &&& 0 <= c < distances.len()
        &&& eligible(distances[c])
        &&& forall|j: int|
            0 <= j < distances.len() && eligible(distances[j]) ==> ieee::rank(distances[c])
                <= ieee::rank(distances[j])
        &&& forall|j: int|
            0 <= j < c && eligible(distances[j]) ==> ieee::rank(distances[c]) < ieee::rank(
                distances[j],
            )
    } else {
        c == 0
    }
}

/// At most one center is the nearest.
pub proof fn lemma_nearest_unique(distances: Seq<u32>, c: int, d: int)
    requires
        is_nearest(distances, c),
        is_nearest(distances, d),
    ensures
        c == d,
{
}

/// The index of the least distance, the first one among equals.
pub fn nearest(distances: &Vec<u32>) -> (c: usize)
    ensures
        is_nearest(distances@, c as int),
        distances@.len() > 0 ==> c < distances@.len(),
{
    let mut best: usize = 0;
    let mut best_distance: u32 = ieee::LARGEST_FINITE;
    let mut j: usize = 0;
    while j < distances.len()
        invariant
            j <= distances@.len(),
            best_distance == ieee::LARGEST_FINITE ==> best == 0 && forall|p: int|
                0 <= p < j ==> !eligible(distances@[p]),
            best_distance != ieee::LARGEST_FINITE ==> {
                &&& best < j
                &&& best_distance == distances@[best as int]
                &&& eligible(best_distance)
                &&& forall|p: int|
                    0 <= p < j && eligible(distances@[p]) ==> ieee::rank(best_distance)
                        <= ieee::rank(distances@[p])
                &&& forall|p: int|
                    0 <= p < best && eligible(distances@[p]) ==> ieee::rank(best_distance)
                        < ieee::rank(distances@[p])
            },
        decreases distances@.len() - j,
    {
        let distance: u32 = distances[j];
        if ieee::less_than(distance, best_distance) {
            best_distance = distance;
            best = j;
        }
        j += 1;
    }
    best
}

/// Whether no center has moved by more than the tolerance: the tolerance is
/// a number that is not negative, and no shift that is a number exceeds it.
pub open spec fn all_within(shifts: Seq<u32>, tolerance: u32) -> bool {
    &&& ieee::at_most(ieee::ZERO, tolerance)
    &&& forall|i: int|
        0 <= i < shifts.len() && !ieee::is_nan(shifts[i]) ==> ieee::rank(shifts[i]) <= ieee::rank(
            tolerance,
        )
}

/// Compares the largest shift, or zero where none is larger, with the
/// tolerance.
pub fn within_tolerance(shifts: &Vec<u32>, tolerance: u32) -> (r: bool)
    ensures
        r == all_within(shifts@, tolerance),
{
    let mut largest: u32 = ieee::ZERO;
    let mut i: usize = 0;
    while i < shifts.len()
        invariant
            i <= shifts@.len(),
            !ieee::is_nan(largest),
            ieee::rank(largest) >= 0,
            forall|p: int|
                0 <= p < i && !ieee::is_nan(shifts@[p]) ==> ieee::rank(shifts@[p]) <= ieee::rank(
                    largest,
                ),
            largest == ieee::ZERO || exists|p: int| 0 <= p < i && largest == shifts@[p],
        decreases shifts@.len() - i,
    {
        let shift: u32 = shifts[i];
        if ieee::greater_than(shift, largest) {
            largest = shift;
        }
        i += 1;
    }
    ieee::no_more_than(largest, tolerance)
}

/// The iteration budget and the stopping rule of one engine.
#[derive(Debug, Clone, Copy)]
pub struct Config {
    /// The largest number of rounds of assignment and update.
    pub max_iter: usize,
    /// The largest shift of a center, as a single-precision pattern, at
    /// which the rounds stop early.
    pub tolerance: u32,
}

/// The pattern of the default tolerance, one ten-thousandth.
pub const DEFAULT_TOLERANCE: u32 = 0x38d1_b717;

impl Default for Config {
    fn default() -> (config: Config)
        ensures
            config.max_iter == 100,
            config.tolerance == DEFAULT_TOLERANCE,
    {
        Config { max_iter: 100, tolerance: DEFAULT_TOLERANCE }
    }
}

/// What a clustering returns.
#[derive(Debug)]
pub struct CompressionResult {
    /// The samples, each replaced by the center that it is assigned to.
    pub compressed_samples: Matrix,
    /// For each sample the index of its center.
    pub labels: Vec<usize>,
    /// The centers.
    pub centers: Matrix,
    /// The sum of the squared distances between the samples and their
    /// centers, as a double-precision pattern.
    pub compactness: u64,
}

impl CompressionResult {
    /// Whether the parts of the result fit each other and the samples: there
    /// are `clusters` centers of the samples' width, one label below
    /// `clusters` for each sample, and each compressed row is the center that
    /// the label names. What the centers, the labels and the compactness are
    /// is said by `is_outcome`.
    pub open spec fn is_consistent_for(&self, samples: &Matrix, clusters: nat) -> bool {
        &&& self.centers.wf()
        &&& self.centers.rows() == clusters
        &&& self.centers.cols() == samples.cols()
        &&& self.labels@.len() == samples.rows()
        &&& forall|i: int| 0 <= i < self.labels@.len() ==> self.labels@[i] < clusters
        &&& self.compressed_samples.wf()
        &&& self.compressed_samples.rows() == samples.rows()
        &&& self.compressed_samples.cols() == samples.cols()
        &&& forall|i: int|
            0 <= i < self.labels@.len() ==> self.compressed_samples.row(i) == self.centers.row(
                self.labels@[i] as int,
            )
    }
}

/// Whether no sample carries the label `c`.
pub open spec fn is_empty_cluster(labels: Seq<usize>, c: int) -> bool {
    forall|i: int| 0 <= i < labels.len() ==> labels[i] != c
}

/// The number of samples that carry the label `c`.
pub open spec fn members(labels: Seq<usize>, c: int) -> nat
    decreases labels.len(),
{
    if labels.len() == 0 {
        0
    } else {
        members(labels.drop_last(), c) + if labels.last() == c {
            1nat
        } else {
            0nat
        }
    }
}

/// A cluster has no more members than there are samples, and none exactly
/// where no sample carries its label.
pub proof fn lemma_members(labels: Seq<usize>, c: int)
    ensures
        members(labels, c) <= labels.len(),
        members(labels, c) == 0 <==> is_empty_cluster(labels, c),
    decreases labels.len(),
{
    if labels.len() > 0 {
        let front = labels.drop_last();
        lemma_members(front, c);
        if is_empty_cluster(labels, c) {
            assert forall|i: int| 0 <= i < front.len() implies front[i] != c by {
                assert(front[i] == labels[i]);
            }
        }
        if members(labels, c) == 0 {
            assert forall|i: int| 0 <= i < labels.len() implies labels[i] != c by {
                if i < front.len() {
                    assert(front[i] == labels[i]);
                }
            }
        }
    }
}

/// The number of samples that carry one of the labels below `clusters`.
pub open spec fn assigned(labels: Seq<usize>, clusters: nat) -> nat
    decreases clusters,
{
    if clusters == 0 {
        0
    } else {
        assigned(labels, (clusters - 1) as nat) + members(labels, clusters - 1)
    }
}

proof fn lemma_assigned_step(labels: Seq<usize>, clusters: nat)
    requires
        labels.len() > 0,
    ensures
        assigned(labels, clusters) == assigned(labels.drop_last(), clusters) + if labels.last()
            < clusters {
            1nat
        } else {
            0nat
        },
    decreases clusters,
{
    if clusters > 0 {
        lemma_assigned_step(labels, (clusters - 1) as nat);
    }
}

/// Every sample belongs to exactly one cluster: where all labels name a
/// cluster, the members of the clusters add up to the number of samples.
pub proof fn lemma_clusters_partition(labels: Seq<usize>, clusters: nat)
    requires
        forall|i: int| 0 <= i < labels.len() ==> labels[i] < clusters,
    ensures
        assigned(labels, clusters) == labels.len(),
    decreases labels.len(), clusters,
{
    if labels.len() == 0 {
        if clusters > 0 {
            lemma_clusters_partition(labels, (clusters - 1) as nat);
        }
    } else {
        let front = labels.drop_last();
        assert forall|i: int| 0 <= i < front.len() implies front[i] < clusters by {
            assert(front[i] == labels[i]);
        }
        lemma_clusters_partition(front, clusters);
        lemma_assigned_step(labels, clusters);
    }
}

/// Counts the members of each cluster.
pub fn count_members(labels: &Vec<usize>, clusters: usize) -> (counts: Vec<usize>)
    requires
        forall|i: int| 0 <= i < labels@.len() ==> labels@[i] < clusters,
    ensures
        counts@.len() == clusters,
        forall|c: int| 0 <= c < clusters ==> counts@[c] == members(labels@, c),
{
    let mut counts: Vec<usize> = vec![0usize; clusters];
    let mut i: usize = 0;
    while i < labels.len()
        invariant
            i <= labels@.len(),
            counts@.len() == clusters,
            forall|p: int| 0 <= p < labels@.len() ==> labels@[p] < clusters,
            forall|c: int| 0 <= c < clusters ==> counts@[c] == members(labels@.take(i as int), c),
        decreases labels@.len() - i,
    {
        let label: usize = labels[i];
        proof {
            lemma_members(labels@.take(i as int), label as int);
            assert(labels@.take(i + 1).drop_last() =~= labels@.take(i as int));
        }
        let count: usize = counts[label];
        counts.set(label, count + 1);
        i += 1;
    }
    proof {
        assert(labels@.take(labels@.len() as int) =~= labels@);
    }
    counts
}

/// Whether `total` is a squared Euclidean distance between the rows `x` and
/// `y` as the arithmetic gives it: positive zero for rows without entries,
/// and else what `sum` returned for the distance between the rows without
/// their last entries and what `square` returned for what `difference`
/// returned for the last entries.
pub open spec fn gives_squared_distance<A: Arithmetic>(
    arithmetic: &A,
    x: Seq<u32>,
    y: Seq<u32>,
    total: u32,
) -> bool
    decreases x.len(),
{
    if x.len() == 0 {
        total == ieee::ZERO
    } else {
        exists|before: u32, gap: u32, squared: u32|
            {
                &&& gives_squared_distance(arithmetic, x.drop_last(), y.drop_last(), before)
                &&& call_ensures(A::difference, (arithmetic, x.last(), y.last()), gap)
                &&& #[trigger] call_ensures(A::square, (arithmetic, gap), squared)
                &&& #[trigger] call_ensures(A::sum, (arithmetic, before, squared), total)
            }
    }
}

/// The squared Euclidean distance between row `i` of `a` and row `j` of `b`,
/// summed from the first column on.
fn squared_distance<A: Arithmetic>(
    arithmetic: &A,
    a: &Matrix,
    i: usize,
    b: &Matrix,
    j: usize,
) -> (total: u32)
    requires
        a.wf(),
        b.wf(),
        i < a.rows(),
        j < b.rows(),
        a.cols() == b.cols(),
    ensures
        gives_squared_distance(arithmetic, a.row(i as int), b.row(j as int), total),
{
    let cols: usize = a.ncols();
    let mut total: u32 = ieee::ZERO;
    let mut col: usize = 0;
    while col < cols
        invariant
            col <= cols,
            cols == a.cols(),
            a.wf(),
            b.wf(),
            i < a.rows(),
            j < b.rows(),
            a.cols() == b.cols(),
            gives_squared_distance(
                arithmetic,
                a.row(i as int).take(col as int),
                b.row(j as int).take(col as int),
                total,
            ),
        decreases cols - col,
    {
        let before: u32 = total;
        let gap: u32 = arithmetic.difference(a.get(i, col), b.get(j, col));
        let squared: u32 = arithmetic.square(gap);
        total = arithmetic.sum(before, squared);
        proof {
            let x = a.row(i as int).take(col + 1);
            let y = b.row(j as int).take(col + 1);
            assert(x.drop_last() =~= a.row(i as int).take(col as int));
            assert(y.drop_last() =~= b.row(j as int).take(col as int));
            assert(x.last() == a.at(i as int, col as int));
            assert(y.last() == b.at(j as int, col as int));
            assert(call_ensures(A::square, (arithmetic, gap), squared));
            assert(call_ensures(A::sum, (arithmetic, before, squared), total));
        }
        col += 1;
    }
    proof {
        assert(a.row(i as int).take(cols as int) =~= a.row(i as int));
        assert(b.row(j as int).take(cols as int) =~= b.row(j as int));
    }
    total
}

/// Whether `distances` holds, for each center in turn, a squared distance
/// between the sample and the center as the arithmetic gives it.
pub open spec fn gives_distances<A: Arithmetic>(
    arithmetic: &A,
    sample: Seq<u32>,
    centers: Seq<Seq<u32>>,
    distances: Seq<u32>,
) -> bool {
    &&& distances.len() == centers.len()
    &&& forall|c: int|
        0 <= c < centers.len() ==> gives_squared_distance(
            arithmetic,
            sample,
            centers[c],
            #[trigger] distances[c],
        )
}

/// Whether `label` is the label that the sample gets: the nearest center
/// by distances that the arithmetic gives, the first one among equals.
pub open spec fn gives_label<A: Arithmetic>(
    arithmetic: &A,
    sample: Seq<u32>,
    centers: Seq<Seq<u32>>,
    label: int,
) -> bool {
    exists|distances: Seq<u32>|
        {
            &&& #[trigger] gives_distances(arithmetic, sample, centers, distances)
            &&& is_nearest(distances, label)
        }
}

/// Whether `labels` holds for each sample in turn the label that it gets.
pub open spec fn gives_labels<A: Arithmetic>(
    arithmetic: &A,
    samples: Seq<Seq<u32>>,
    centers: Seq<Seq<u32>>,
    labels: Seq<usize>,
) -> bool {
    &&& labels.len() == samples.len()
    &&& forall|i: int|
        0 <= i < samples.len() ==> gives_label(
            arithmetic,
            samples[i],
            centers,
            #[trigger] labels[i] as int,
        )
}

/// Gives every sample the label of its nearest center.
pub fn assign_clusters<A: Arithmetic>(
    arithmetic: &A,
    samples: &Matrix,
    centers: &Matrix,
    labels: &mut Vec<usize>,
)
    requires
        samples.wf(),
        centers.wf(),
        samples.cols() == centers.cols(),
        centers.rows() > 0,
        old(labels)@.len() == samples.rows(),
    ensures
        final(labels)@.len() == samples.rows(),
        forall|i: int| 0 <= i < samples.rows() ==> final(labels)@[i] < centers.rows(),
        gives_labels(arithmetic, samples@, centers@, final(labels)@),
{
    let rows: usize = samples.nrows();
    let clusters: usize = centers.nrows();
    let mut distances: Vec<u32> = vec![ieee::ZERO; clusters];
    let mut i: usize = 0;
    while i < rows
        invariant
            i <= rows,
            rows == samples.rows(),
            clusters == centers.rows(),
            clusters > 0,
            samples.wf(),
            centers.wf(),
            samples.cols() == centers.cols(),
            labels@.len() == rows,
            distances@.len() == clusters,
            forall|p: int| 0 <= p < i ==> labels@[p] < clusters,
            forall|p: int|
                0 <= p < i ==> gives_label(
                    arithmetic,
                    samples@[p],
                    centers@,
                    #[trigger] labels@[p] as int,
                ),
        decreases rows - i,
    {
        let mut c: usize = 0;
        while c < clusters
            invariant
                c <= clusters,
                i < rows,
                rows == samples.rows(),
                clusters == centers.rows(),
                samples.wf(),
                centers.wf(),
                samples.cols() == centers.cols(),
                distances@.len() == clusters,
                forall|p: int|
                    0 <= p < c ==> gives_squared_distance(
                        arithmetic,
                        samples.row(i as int),
                        centers.row(p),
                        #[trigger] distances@[p],
                    ),
            decreases clusters - c,
        {
            let distance: u32 = squared_distance(arithmetic, samples, i, centers, c);
            distances.set(c, distance);
            c += 1;
        }
        let label: usize = nearest(&distances);
        proof {
            assert(gives_distances(arithmetic, samples@[i as int], centers@, distances@));
            assert(gives_label(arithmetic, samples@[i as int], centers@, label as int));
        }
        labels.set(i, label);
        i += 1;
    }
}

/// Whether `total` is the sum of column `j` over the members of cluster `c`
/// among the first `n` samples as the arithmetic gives it: positive zero
/// where there is no member, and else what `sum` returned for the sum over
/// the members before the last and the last member's entry.
pub open spec fn gives_column_sum<A: Arithmetic>(
    arithmetic: &A,
    samples: Seq<Seq<u32>>,
    labels: Seq<usize>,
    c: int,
    j: int,
    n: nat,
    total: u32,
) -> bool
    decreases n,
{
    if n == 0 {
        total == ieee::ZERO
    } else if labels[n - 1] == c {
        exists|before: u32|
            {
                &&& gives_column_sum(arithmetic, samples, labels, c, j, (n - 1) as nat, before)
                &&& #[trigger] call_ensures(
                    A::sum,
                    (arithmetic, before, samples[n - 1][j]),
                    total,
                )
            }
    } else {
        gives_column_sum(arithmetic, samples, labels, c, j, (n - 1) as nat, total)
    }
}

/// Whether `mean` is the mean of column `j` over the members of cluster `c`
/// as the arithmetic gives it: what `quotient` returned for the sum of the
/// column over the members and what `from_count` returned for their number.
pub open spec fn gives_mean<A: Arithmetic>(
    arithmetic: &A,
    samples: Seq<Seq<u32>>,
    labels: Seq<usize>,
    c: int,
    j: int,
    mean: u32,
) -> bool {
    exists|total: u32, size: u32|
        {
            &&& gives_column_sum(arithmetic, samples, labels, c, j, labels.len(), total)
            &&& #[trigger] call_ensures(
                A::from_count,
                (arithmetic, members(labels, c) as usize),
                size,
            )
            &&& #[trigger] call_ensures(A::quotient, (arithmetic, total, size), mean)
        }
}

/// Whether `center` is where the update puts center `c`: where it was, if
/// the cluster has no members, and else at the mean of its members, column
/// by column.
pub open spec fn gives_center<A: Arithmetic>(
    arithmetic: &A,
    samples: Seq<Seq<u32>>,
    labels: Seq<usize>,
    c: int,
    previous: Seq<u32>,
    center: Seq<u32>,
) -> bool {
    if is_empty_cluster(labels, c) {
        center == previous
    } else {
        &&& center.len() == previous.len()
        &&& forall|j: int|
            0 <= j < center.len() ==> gives_mean(
                arithmetic,
                samples,
                labels,
                c,
                j,
                #[trigger] center[j],
            )
    }
}

/// Whether `centers` are where the update puts the centers `previous`.
pub open spec fn gives_update<A: Arithmetic>(
    arithmetic: &A,
    samples: Seq<Seq<u32>>,
    labels: Seq<usize>,
    previous: Seq<Seq<u32>>,
    centers: Seq<Seq<u32>>,
) -> bool {
    &&& centers.len() == previous.len()
    &&& forall|c: int|
        0 <= c < previous.len() ==> gives_center(
            arithmetic,
            samples,
            labels,
            c,
            previous[c],
            #[trigger] centers[c],
        )
}

/// Moves each center to the mean of its members. A center without members
/// stays where it was.
pub fn update_centers<A: Arithmetic>(
    arithmetic: &A,
    samples: &Matrix,
    labels: &Vec<usize>,
    previous: &Matrix,
) -> (centers: Matrix)
    requires
        samples.wf(),
        previous.wf(),
        samples.cols() == previous.cols(),
        labels@.len() == samples.rows(),
        forall|i: int| 0 <= i < labels@.len() ==> labels@[i] < previous.rows(),
    ensures
        centers.wf(),
        centers.rows() == previous.rows(),
        centers.cols() == previous.cols(),
        forall|c: int|
            0 <= c < previous.rows() && is_empty_cluster(labels@, c) ==> centers.row(c)
                == previous.row(c),
        gives_update(arithmetic, samples@, labels@, previous@, centers@),
{
    let rows: usize = samples.nrows();
    let cols: usize = samples.ncols();
    let clusters: usize = previous.nrows();
    proof {
        previous.lemma_size_fits();
    }
    let mut centers = Matrix::zeros(clusters, cols);
    let counts: Vec<usize> = count_members(labels, clusters);
    let mut i: usize = 0;
    while i < rows
        invariant
            i <= rows,
            rows == samples.rows(),
            cols == samples.cols(),
            clusters == previous.rows(),
            samples.wf(),
            centers.wf(),
            centers.rows() == clusters,
            centers.cols() == cols,
            labels@.len() == rows,
            forall|p: int| 0 <= p < labels@.len() ==> labels@[p] < clusters,
            forall|c: int, j: int|
                0 <= c < clusters && 0 <= j < cols ==> gives_column_sum(
                    arithmetic,
                    samples@,
                    labels@,
                    c,
                    j,
                    i as nat,
                    #[trigger] centers.at(c, j),
                ),
        decreases rows - i,
    {
        let label: usize = labels[i];
        let mut col: usize = 0;
        while col < cols
            invariant
                col <= cols,
                i < rows,
                rows == samples.rows(),
                cols == samples.cols(),
                label < clusters,
                label == labels@[i as int],
                labels@.len() == rows,
                samples.wf(),
                centers.wf(),
                centers.rows() == clusters,
                centers.cols() == cols,
                forall|c: int, j: int|
                    0 <= c < clusters && 0 <= j < cols ==> gives_column_sum(
                        arithmetic,
                        samples@,
                        labels@,
                        c,
                        j,
                        if c == label && j < col {
                            (i + 1) as nat
                        } else {
                            i as nat
                        },
                        #[trigger] centers.at(c, j),
                    ),
            decreases cols - col,
        {
            let before: u32 = centers.get(label, col);
            let entry: u32 = samples.get(i, col);
            let total: u32 = arithmetic.sum(before, entry);
            centers.set(label, col, total);
            proof {
                assert(samples@[i as int][col as int] == entry);
                assert(call_ensures(A::sum, (arithmetic, before, entry), total));
                assert(gives_column_sum(
                    arithmetic,
                    samples@,
                    labels@,
                    label as int,
                    col as int,
                    (i + 1) as nat,
                    total,
                ));
            }
            col += 1;
        }
        i += 1;
    }
    let mut c: usize = 0;
    while c < clusters
        invariant
            c <= clusters,
            cols == previous.cols(),
            clusters == previous.rows(),
            rows == labels@.len(),
            previous.wf(),
            centers.wf(),
            centers.rows() == clusters,
            centers.cols() == cols,
            counts@.len() == clusters,
            forall|p: int| 0 <= p < clusters ==> counts@[p] == members(labels@, p),
            forall|p: int, j: int|
                c <= p < clusters && 0 <= j < cols ==> gives_column_sum(
                    arithmetic,
                    samples@,
                    labels@,
                    p,
                    j,
                    rows as nat,
                    #[trigger] centers.at(p, j),
                ),
            forall|p: int|
                0 <= p < c && counts@[p] == 0 ==> centers.row(p) == previous.row(p),
            forall|p: int, j: int|
                0 <= p < c && counts@[p] != 0 && 0 <= j < cols ==> gives_mean(
                    arithmetic,
                    samples@,
                    labels@,
                    p,
                    j,
                    #[trigger] centers.at(p, j),
                ),
        decreases clusters - c,
    {
        let count: usize = counts[c];
        if count > 0 {
            let size: u32 = arithmetic.from_count(count);
            let mut col: usize = 0;
            while col < cols
                invariant
                    col <= cols,
                    c < clusters,
                    rows == labels@.len(),
                    centers.wf(),
                    centers.rows() == clusters,
                    centers.cols() == cols,
                    counts@.len() == clusters,
                    count == counts@[c as int],
                    count == members(labels@, c as int),
                    count != 0,
                    call_ensures(A::from_count, (arithmetic, count), size),
                    forall|p: int, j: int|
                        c < p < clusters && 0 <= j < cols ==> gives_column_sum(
                            arithmetic,
                            samples@,
                            labels@,
                            p,
                            j,
                            rows as nat,
                            #[trigger] centers.at(p, j),
                        ),
                    forall|j: int|
                        col <= j < cols ==> gives_column_sum(
                            arithmetic,
                            samples@,
                            labels@,
                            c as int,
                            j,
                            rows as nat,
                            #[trigger] centers.at(c as int, j),
                        ),
                    forall|j: int|
                        0 <= j < col ==> gives_mean(
                            arithmetic,
                            samples@,
                            labels@,
                            c as int,
                            j,
                            #[trigger] centers.at(c as int, j),
                        ),
                    forall|p: int|
                        0 <= p < c && counts@[p] == 0 ==> centers.row(p) == previous.row(p),
                    forall|p: int, j: int|
                        0 <= p < c && counts@[p] != 0 && 0 <= j < cols ==> gives_mean(
                            arithmetic,
                            samples@,
                            labels@,
                            p,
                            j,
                            #[trigger] centers.at(p, j),
                        ),
                decreases cols - col,
            {
                let ghost before = centers;
                let total: u32 = centers.get(c, col);
                let mean: u32 = arithmetic.quotient(total, size);
                centers.set(c, col, mean);
                proof {
                    assert(call_ensures(A::quotient, (arithmetic, total, size), mean));
                    assert(gives_mean(arithmetic, samples@, labels@, c as int, col as int, mean));
                    assert forall|p: int| 0 <= p < c implies centers.row(p) == before.row(p) by {
                        assert(centers.row(p) =~= before.row(p));
                    }
                }
                col += 1;
            }
        } else {
            let ghost before = centers;
            centers.copy_row(c, previous, c);
            proof {
                assert forall|p: int, j: int|
                    0 <= p < clusters && p != c && 0 <= j < cols implies centers.at(p, j)
                    == before.at(p, j) by {
                    assert(centers.row(p) == before.row(p));
                    assert(centers.row(p)[j] == centers.at(p, j));
                    assert(before.row(p)[j] == before.at(p, j));
                }
            }
        }
        c += 1;
    }
    proof {
        assert forall|p: int|
            0 <= p < previous.rows() && is_empty_cluster(labels@, p) implies centers.row(p)
            == previous.row(p) by {
            lemma_members(labels@, p);
        }
        assert forall|p: int| 0 <= p < previous@.len() implies gives_center(
            arithmetic,
            samples@,
            labels@,
            p,
            previous@[p],
            #[trigger] centers@[p],
        ) by {
            lemma_members(labels@, p);
            if !is_empty_cluster(labels@, p) {
                assert forall|j: int| 0 <= j < centers@[p].len() implies gives_mean(
                    arithmetic,
                    samples@,
                    labels@,
                    p,
                    j,
                    #[trigger] centers@[p][j],
                ) by {
                    assert(centers@[p][j] == centers.at(p, j));
                }
            }
        }
    }
    centers
}

/// Whether `shift` is the distance between the rows `x` and `y` as the
/// arithmetic gives it: what `square_root` returned for a squared distance
/// between them.
pub open spec fn gives_shift<A: Arithmetic>(
    arithmetic: &A,
    x: Seq<u32>,
    y: Seq<u32>,
    shift: u32,
) -> bool {
    exists|squared: u32|
        {
            &&& gives_squared_distance(arithmetic, x, y, squared)
            &&& #[trigger] call_ensures(A::square_root, (arithmetic, squared), shift)
        }
}

/// Whether `shifts` holds, for each center in turn, its distance between
/// `previous` and `current` as the arithmetic gives it.
pub open spec fn gives_shifts<A: Arithmetic>(
    arithmetic: &A,
    previous: Seq<Seq<u32>>,
    current: Seq<Seq<u32>>,
    shifts: Seq<u32>,
) -> bool {
    &&& shifts.len() == previous.len()
    &&& forall|c: int|
        0 <= c < shifts.len() ==> gives_shift(
            arithmetic,
            previous[c],
            current[c],
            #[trigger] shifts[c],
        )
}

/// Whether `settled` is the verdict on the move from `previous` to
/// `current`: that of `all_within` on the shifts that the arithmetic gives.
pub open spec fn gives_settled<A: Arithmetic>(
    arithmetic: &A,
    previous: Seq<Seq<u32>>,
    current: Seq<Seq<u32>>,
    tolerance: u32,
    settled: bool,
) -> bool {
    exists|shifts: Seq<u32>|
        {
            &&& #[trigger] gives_shifts(arithmetic, previous, current, shifts)
            &&& settled == all_within(shifts, tolerance)
        }
}

/// Whether the centers have settled: no center lies farther from its
/// previous place than the tolerance.
fn has_converged<A: Arithmetic>(
    arithmetic: &A,
    previous: &Matrix,
    current: &Matrix,
    tolerance: u32,
) -> (settled: bool)
    requires
        previous.wf(),
        current.wf(),
        previous.rows() == current.rows(),
        previous.cols() == current.cols(),
    ensures
        gives_settled(arithmetic, previous@, current@, tolerance, settled),
{
    let clusters: usize = previous.nrows();
    let mut shifts: Vec<u32> = Vec::new();
    let mut c: usize = 0;
    while c < clusters
        invariant
            c <= clusters,
            clusters == previous.rows(),
            previous.wf(),
            current.wf(),
            previous.rows() == current.rows(),
            previous.cols() == current.cols(),
            shifts@.len() == c,
            forall|p: int|
                0 <= p < c ==> gives_shift(
                    arithmetic,
                    previous@[p],
                    current@[p],
                    #[trigger] shifts@[p],
                ),
        decreases clusters - c,
    {
        let squared: u32 = squared_distance(arithmetic, previous, c, current, c);
        let shift: u32 = arithmetic.square_root(squared);
        proof {
            assert(call_ensures(A::square_root, (arithmetic, squared), shift));
            assert(gives_shift(arithmetic, previous@[c as int], current@[c as int], shift));
        }
        shifts.push(shift);
        c += 1;
    }
    let settled: bool = within_tolerance(&shifts, tolerance);
    proof {
        assert(gives_shifts(arithmetic, previous@, current@, shifts@));
    }
    settled
}

/// Replaces each sample by the center that its label names.
pub fn build_compressed_samples(centers: &Matrix, labels: &Vec<usize>) -> (output: Matrix)
    requires
        centers.wf(),
        forall|i: int| 0 <= i < labels@.len() ==> labels@[i] < centers.rows(),
        labels@.len() * centers.cols() <= usize::MAX,
    ensures
        output.wf(),
        output.rows() == labels@.len(),
        output.cols() == centers.cols(),
        forall|i: int| 0 <= i < labels@.len() ==> output.row(i) == centers.row(labels@[i] as int),
{
    centers.gather(labels)
}

/// Whether `total` is the compactness of the first `rows` rows as the
/// arithmetic gives it: positive zero for no rows, and else what `wide_sum`
/// returned for the compactness of the rows before the last and what `widen`
/// returned for a squared distance between the last sample and its
/// compressed row.
pub open spec fn gives_compactness<A: Arithmetic>(
    arithmetic: &A,
    samples: Seq<Seq<u32>>,
    compressed: Seq<Seq<u32>>,
    rows: nat,
    total: u64,
) -> bool
    decreases rows,
{
    if rows == 0 {
        total == 0
    } else {
        exists|before: u64, squared: u32, wide: u64|
            {
                &&& gives_compactness(arithmetic, samples, compressed, (rows - 1) as nat, before)
                &&& gives_squared_distance(
                    arithmetic,
                    samples[rows - 1],
                    compressed[rows - 1],
                    squared,
                )
                &&& #[trigger] call_ensures(A::widen, (arithmetic, squared), wide)
                &&& #[trigger] call_ensures(A::wide_sum, (arithmetic, before, wide), total)
            }
    }
}

/// The sum over all rows of the squared distance between a sample and its
/// compressed row, accumulated in double precision.
fn compute_compactness<A: Arithmetic>(arithmetic: &A, samples: &Matrix, compressed: &Matrix) -> (total: u64)
    requires
        samples.wf(),
        compressed.wf(),
        samples.rows() == compressed.rows(),
        samples.cols() == compressed.cols(),
    ensures
        gives_compactness(arithmetic, samples@, compressed@, samples.rows(), total),
{
    let rows: usize = samples.nrows();
    let mut total: u64 = 0;
    let mut i: usize = 0;
    while i < rows
        invariant
            i <= rows,
            rows == samples.rows(),
            samples.wf(),
            compressed.wf(),
            samples.rows() == compressed.rows(),
            samples.cols() == compressed.cols(),
            gives_compactness(arithmetic, samples@, compressed@, i as nat, total),
        decreases rows - i,
    {
        let before: u64 = total;
        let squared: u32 = squared_distance(arithmetic, samples, i, compressed, i);
        let wide: u64 = arithmetic.widen(squared);
        total = arithmetic.wide_sum(before, wide);
        proof {
            assert(samples@[i as int] == samples.row(i as int));
            assert(compressed@[i as int] == compressed.row(i as int));
            assert(call_ensures(A::widen, (arithmetic, squared), wide));
            assert(call_ensures(A::wide_sum, (arithmetic, before, wide), total));
        }
        i += 1;
    }
    total
}

/// Whether the rows of `centers` are `clusters` different rows of `samples`.
pub open spec fn drawn_from(centers: &Matrix, samples: &Matrix, clusters: nat) -> bool {
    exists|picks: Seq<usize>|
        {
            &&& sampling::is_selection(picks, clusters, samples.rows())
            &&& forall|c: int| 0 <= c < clusters ==> centers.row(c) == samples.row(picks[c] as int)
        }
}

/// Whether one of the first `clusters` rows of `centers` is `row`.
pub open spec fn is_a_center(centers: &Matrix, clusters: nat, row: Seq<u32>) -> bool {
    exists|c: int| 0 <= c < clusters && #[trigger] centers.row(c) == row
}

/// With as many clusters as samples, every sample is one of the first
/// centers.
pub proof fn lemma_every_sample_drawn(centers: &Matrix, samples: &Matrix)
    requires
        drawn_from(centers, samples, samples.rows()),
    ensures
        forall|i: int|
            0 <= i < samples.rows() ==> is_a_center(centers, samples.rows(), #[trigger] samples.row(i)),
{
    let picks = choose|picks: Seq<usize>|
        {
            &&& sampling::is_selection(picks, samples.rows(), samples.rows())
            &&& forall|c: int|
                0 <= c < samples.rows() ==> centers.row(c) == samples.row(picks[c] as int)
        };
    assert forall|i: int| 0 <= i < samples.rows() implies is_a_center(
        centers,
        samples.rows(),
        #[trigger] samples.row(i),
    ) by {
        samples.lemma_shape_fits();
        assert(picks.contains(i as usize));
        let c = choose|c: int| 0 <= c < picks.len() && picks[c] == i as usize;
        assert(centers.row(c) == samples.row(picks[c] as int));
    }
}

/// Copies `clusters` different rows of `samples`, drawn at random, as the
/// first centers.
pub fn initialize_centers(samples: &Matrix, clusters: usize, source: &mut StdRng) -> (centers:
    Matrix)
    requires
        samples.wf(),
        clusters <= samples.rows(),
    ensures
        centers.wf(),
        centers.rows() == clusters,
        centers.cols() == samples.cols(),
        drawn_from(&centers, samples, clusters as nat),
{
    let picks: Vec<usize> = sampling::select_rows(samples.nrows(), clusters, source);
    proof {
        samples.lemma_size_fits();
        crate::matrix::lemma_fewer_rows_fit(
            clusters as int,
            samples.rows() as int,
            samples.cols() as int,
        );
    }
    let centers = samples.gather(&picks);
    proof {
        let witness = picks@;
        assert(sampling::is_selection(witness, clusters as nat, samples.rows()));
        assert(forall|c: int|
            0 <= c < clusters ==> centers.row(c) == samples.row(witness[c] as int));
    }
    centers
}

/// Whether one round takes the centers from `previous` to `next` with the
/// verdict `settled`: the samples get their labels by `previous`, the
/// update puts the centers at `next`, and `settled` is the verdict on the
/// move.
pub open spec fn gives_round<A: Arithmetic>(
    arithmetic: &A,
    samples: Seq<Seq<u32>>,
    tolerance: u32,
    previous: Seq<Seq<u32>>,
    next: Seq<Seq<u32>>,
    settled: bool,
) -> bool {
    exists|labels: Seq<usize>|
        {
            &&& #[trigger] gives_labels(arithmetic, samples, previous, labels)
            &&& gives_update(arithmetic, samples, labels, previous, next)
            &&& gives_settled(arithmetic, previous, next, tolerance, settled)
        }
}

/// Whether `rounds` rounds take the centers from `initial` to `centers`,
/// none but the last one settled, and the last one with the verdict
/// `settled`. No round leaves the centers at `initial`, not settled.
pub open spec fn gives_rounds<A: Arithmetic>(
    arithmetic: &A,
    samples: Seq<Seq<u32>>,
    tolerance: u32,
    initial: Seq<Seq<u32>>,
    centers: Seq<Seq<u32>>,
    rounds: nat,
    settled: bool,
) -> bool
    decreases rounds,
{
    if rounds == 0 {
        centers == initial && !settled
    } else {
        exists|middle: Seq<Seq<u32>>|
            {
                &&& gives_rounds(
                    arithmetic,
                    samples,
                    tolerance,
                    initial,
                    middle,
                    (rounds - 1) as nat,
                    false,
                )
                &&& #[trigger] gives_round(arithmetic, samples, tolerance, middle, centers, settled)
            }
    }
}

/// One more round after rounds of which none settled.
pub proof fn lemma_one_more_round<A: Arithmetic>(
    arithmetic: &A,
    samples: Seq<Seq<u32>>,
    tolerance: u32,
    initial: Seq<Seq<u32>>,
    middle: Seq<Seq<u32>>,
    next: Seq<Seq<u32>>,
    rounds: nat,
    settled: bool,
)
    requires
        gives_rounds(arithmetic, samples, tolerance, initial, middle, rounds, false),
        gives_round(arithmetic, samples, tolerance, middle, next, settled),
    ensures
        gives_rounds(arithmetic, samples, tolerance, initial, next, rounds + 1, settled),
{
    assert(((rounds + 1) - 1) as nat == rounds);
}

/// Whether the rounds that take the centers from `initial` to `centers`
/// end as the engine ends them: at the first settled round, and else when
/// the budget of rounds is spent.
pub open spec fn gives_centers<A: Arithmetic>(
    arithmetic: &A,
    samples: Seq<Seq<u32>>,
    config: Config,
    initial: Seq<Seq<u32>>,
    centers: Seq<Seq<u32>>,
) -> bool {
    exists|rounds: nat, settled: bool|
        {
            &&& rounds <= config.max_iter
            &&& settled || rounds == config.max_iter
            &&& #[trigger] gives_rounds(
                arithmetic,
                samples,
                config.tolerance,
                initial,
                centers,
                rounds,
                settled,
            )
        }
}

impl CompressionResult {
    /// Whether the result is what the engine returns for the samples from
    /// the centers `initial`: the centers after the rounds, for each sample
    /// the label that it gets by these centers, each compressed row the
    /// center that the label names, and the compactness of the compressed
    /// rows.
    pub open spec fn is_outcome<A: Arithmetic>(
        &self,
        arithmetic: &A,
        samples: &Matrix,
        initial: Seq<Seq<u32>>,
        config: Config,
    ) -> bool {
        &&& self.is_consistent_for(samples, initial.len())
        &&& gives_centers(arithmetic, samples@, config, initial, self.centers@)
        &&& gives_labels(arithmetic, samples@, self.centers@, self.labels@)
        &&& gives_compactness(
            arithmetic,
            samples@,
            self.compressed_samples@,
            samples.rows(),
            self.compactness,
        )
    }

    /// Whether the result is what the engine returns for the samples from
    /// some draw of `clusters` different samples as the first centers.
    pub open spec fn is_outcome_of_draw<A: Arithmetic>(
        &self,
        arithmetic: &A,
        samples: &Matrix,
        clusters: nat,
        config: Config,
    ) -> bool {
        exists|initial: Matrix|
            {
                &&& #[trigger] drawn_from(&initial, samples, clusters)
                &&& initial.rows() == clusters
                &&& self.is_outcome(arithmetic, samples, initial@, config)
            }
    }
}

/// The clustering engine.
#[derive(Debug)]
pub struct KMeans {
    config: Config,
}

/// The first rule that a clustering of `samples` from the centers `initial`
/// breaks, if it breaks one: the rules of `precondition_error`, with one
/// cluster for each row of `initial`, which has three columns too.
pub open spec fn start_error(samples: &Matrix, initial: &Matrix) -> Option<PreconditionError> {
    if initial.cols() != 3 {
        Some(PreconditionError::ColumnCount)
    } else {
        precondition_error(samples.rows(), samples.cols(), initial.rows())
    }
}

impl KMeans {
    /// An engine with the given configuration.
    pub fn new(config: Config) -> (engine: KMeans)
        ensures
            engine.config() == config,
    {
        KMeans { config }
    }

    /// The configuration that the engine was made with.
    pub closed spec fn config(&self) -> Config {
        self.config
    }

    /// Clusters the samples, starting from centers drawn at random with a
    /// seed that the system supplies.
    ///
    /// Fails exactly where `precondition_error` names a rule. Otherwise the
    /// result is what `compress_from` returns from some draw of `clusters`
    /// different samples as the first centers.
    pub fn compress<A: Arithmetic>(&self, arithmetic: &A, samples: &Matrix, clusters: usize) -> (r:
        Result<CompressionResult, PreconditionError>)
        requires
            samples.wf(),
        ensures
            match precondition_error(samples.rows(), samples.cols(), clusters as nat) {
                Some(e) => r is Err && r->Err_0 == e,
                None => {
                    &&& r is Ok
                    &&& r->Ok_0.is_consistent_for(samples, clusters as nat)
                    &&& r->Ok_0.is_outcome_of_draw(
                        arithmetic,
                        samples,
                        clusters as nat,
                        self.config(),
                    )
                },
            },
    {
        let seed: u64 = sampling::random_seed();
        self.compress_seeded(arithmetic, samples, clusters, seed)
    }

    /// Clusters the samples, starting from centers drawn at random with the
    /// given seed.
    ///
    /// Fails exactly where `precondition_error` names a rule. Otherwise the
    /// result is what `compress_from` returns from some draw of `clusters`
    /// different samples as the first centers.
    pub fn compress_seeded<A: Arithmetic>(
        &self,
        arithmetic: &A,
        samples: &Matrix,
        clusters: usize,
        seed: u64,
    ) -> (r: Result<CompressionResult, PreconditionError>)
        requires
            samples.wf(),
        ensures
            match precondition_error(samples.rows(), samples.cols(), clusters as nat) {
                Some(e) => r is Err && r->Err_0 == e,
                None => {
                    &&& r is Ok
                    &&& r->Ok_0.is_consistent_for(samples, clusters as nat)
                    &&& r->Ok_0.is_outcome_of_draw(
                        arithmetic,
                        samples,
                        clusters as nat,
                        self.config(),
                    )
                },
            },
    {
        match check_preconditions(samples.nrows(), samples.ncols(), clusters) {
            Err(e) => Err(e),
            Ok(()) => {
                let mut source: StdRng = sampling::generator_from_seed(seed);
                let initial = initialize_centers(samples, clusters, &mut source);
                let ghost drawn = initial;
                let r = self.compress_from(arithmetic, samples, initial);
                proof {
                    assert(drawn_from(&drawn, samples, clusters as nat));
                    assert(r->Ok_0.is_outcome(arithmetic, samples, drawn@, self.config()));
                }
                r
            },
        }
    }

    /// Clusters the samples, starting from the given centers: rounds of
    /// assignment and update, until the centers have settled or the budget
    /// of rounds is spent, and a last assignment to the centers returned.
    ///
    /// Fails exactly where `start_error` names a rule. Otherwise the centers
    /// returned are those after the rounds, every label is the one that the
    /// sample gets by them, every compressed row is the center that its label
    /// names, and the compactness is that of the compressed rows; with a
    /// budget of no rounds the centers returned are the given ones.
    pub fn compress_from<A: Arithmetic>(
        &self,
        arithmetic: &A,
        samples: &Matrix,
        initial: Matrix,
    ) -> (r: Result<CompressionResult, PreconditionError>)
        requires
            samples.wf(),
            initial.wf(),
        ensures
            match start_error(samples, &initial) {
                Some(e) => r is Err && r->Err_0 == e,
                None => {
                    &&& r is Ok
                    &&& r->Ok_0.is_consistent_for(samples, initial.rows())
                    &&& r->Ok_0.is_outcome(arithmetic, samples, initial@, self.config())
                    &&& self.config().max_iter == 0 ==> r->Ok_0.centers == initial
                },
            },
    {
        if initial.ncols() != CHANNELS {
            return Err(PreconditionError::ColumnCount);
        }
        let clusters: usize = initial.nrows();
        match check_preconditions(samples.nrows(), samples.ncols(), clusters) {
            Err(e) => {
                return Err(e);
            },
            Ok(()) => {},
        }
        let rows: usize = samples.nrows();
        let mut centers = initial;
        let mut labels: Vec<usize> = vec![0usize; rows];
        let mut round: usize = 0;
        let mut settled: bool = false;
        let ghost mut done: nat = 0;
        while round < self.config.max_iter && !settled
            invariant
                rows == samples.rows(),
                done <= self.config.max_iter,
                done == if settled {
                    round + 1
                } else {
                    round as int
                },
                gives_rounds(
                    arithmetic,
                    samples@,
                    self.config.tolerance,
                    initial@,
                    centers@,
                    done,
                    settled,
                ),
                clusters >= 2,
                samples.wf(),
                centers.wf(),
                centers.rows() == clusters,
                centers.cols() == samples.cols(),
                labels@.len() == rows,
                round <= self.config.max_iter,
                settled ==> round < self.config.max_iter,
                round == 0 && !settled ==> centers == initial,
            decreases self.config.max_iter - round, if settled { 0int } else { 1int },
        {
            assign_clusters(arithmetic, samples, &centers, &mut labels);
            let moved = update_centers(arithmetic, samples, &labels, &centers);
            settled = has_converged(arithmetic, &centers, &moved, self.config.tolerance);
            proof {
                assert(gives_round(
                    arithmetic,
                    samples@,
                    self.config.tolerance,
                    centers@,
                    moved@,
                    settled,
                ));
                assert(gives_rounds(
                    arithmetic,
                    samples@,
                    self.config.tolerance,
                    initial@,
                    centers@,
                    done,
                    false,
                ));
                lemma_one_more_round(
                    arithmetic,
                    samples@,
                    self.config.tolerance,
                    initial@,
                    centers@,
                    moved@,
                    done,
                    settled,
                );
                done = done + 1;
            }
            centers = moved;
            if !settled {
                round += 1;
            }
        }
        proof {
            assert(gives_centers(arithmetic, samples@, self.config, initial@, centers@));
        }
        assign_clusters(arithmetic, samples, &centers, &mut labels);
        proof {
            samples.lemma_size_fits();
        }
        let compressed_samples = build_compressed_samples(&centers, &labels);
        let compactness: u64 = compute_compactness(arithmetic, samples, &compressed_samples);
        Ok(CompressionResult { compressed_samples, labels, centers, compactness })
    }
}

impl Default for KMeans {
    fn default() -> (engine: KMeans)
        ensures
            engine.config().max_iter == 100,
            engine.config().tolerance == DEFAULT_TOLERANCE,
    {
        KMeans::new(Config::default())
    }
}

} // verus!
