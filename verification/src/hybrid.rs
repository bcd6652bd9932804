//! The hybrid detector: robust deviations, density clusters, and the rules that join them.
//!
//! The detector works user by user. Medians, deviations, cluster labels and distances are
//! computed by the caller, in doubles; what is concluded from them is found here.

use vstd::prelude::*;

use crate::counting::{
    count, lemma_count_more, lemma_count_range, lemma_count_same, lemma_count_some, lemma_picked,
    picked,
};
use crate::double::{copy_doubles, lemma_order_key, Double, SIGN};
use crate::features::Enriched;
use crate::groups::{
    grouping, law_user_alone_is_one_group, lemma_members_in_log, lemma_places_differ, lines_at,
    own, place_of, UserGroup,
};
use crate::record::LogRecord;

verus! {

/// 3.0: two groups of features that deviate by more make a candidate.
pub const Z_THRESHOLD: u64 = 0x4008_0000_0000_0000;

/// 5.0: a single feature that deviates by more makes a candidate.
pub const Z_SINGLE_STRONG: u64 = 0x4014_0000_0000_0000;

/// 4.0: a point further than this from the centre of the dominant cluster is not typical of it.
pub const Z_TYPICAL_DIST: u64 = 0x4010_0000_0000_0000;

/// 4.0: deviations are clipped to this before they are clustered.
pub const Z_CLIP: u64 = 0x4010_0000_0000_0000;

/// 2.4: a point off the clusters that deviates by more can be bridged.
pub const Z_BRIDGE_MIN: u64 = 0x4003_3333_3333_3333;

/// A point this close in time, in seconds, to an anomaly can be bridged.
pub const BRIDGE_SECS: i64 = 60;

/// A feature over some lines.
pub open spec fn column_of(enriched: Seq<Enriched>, members: Seq<usize>, feat: int) -> Seq<Double> {
    Seq::new(members.len(), |k: int| enriched[members[k] as int].features@[feat])
}

/// A feature over some lines.
pub fn feature_column(
    enriched: &Vec<Enriched>,
    members: &Vec<usize>,
    feat: usize,
) -> (r: Vec<Double>)
    requires
        forall|k: int| 0 <= k < members@.len() ==> (#[trigger] members@[k]) < enriched@.len(),
        forall|i: int|
            0 <= i < enriched@.len() ==> feat < (#[trigger] enriched@[i]).features@.len(),
    ensures
        r@ == column_of(enriched@, members@, feat as int),
{
    let mut r: Vec<Double> = Vec::new();
    for k in 0..members.len()
        invariant
            forall|k: int| 0 <= k < members@.len() ==> (#[trigger] members@[k]) < enriched@.len(),
            forall|i: int|
                0 <= i < enriched@.len() ==> feat < (#[trigger] enriched@[i]).features@.len(),
            r@.len() == k,
            forall|j: int|
                0 <= j < k ==> (#[trigger] r@[j])
                    == enriched@[members@[j] as int].features@[feat as int],
    {
        assert(members@[k as int] < enriched@.len());
        assert(feat < enriched@[members@[k as int] as int].features@.len());
        r.push(enriched[members[k]].features[feat]);
    }
    assert(r@ =~= column_of(enriched@, members@, feat as int));
    r
}

/// A user's features are those of the user's own lines: with the other lines left out the columns
/// are the same.
pub proof fn law_columns_of_the_user_alone(
    enriched: Seq<Enriched>,
    members: Seq<usize>,
    feat: int,
)
    requires
        members.len() <= usize::MAX,
    ensures
        column_of(
            own(enriched, members),
            Seq::new(members.len(), |k: int| k as usize),
            feat,
        ) == column_of(enriched, members, feat),
{
    assert(column_of(
        own(enriched, members),
        Seq::new(members.len(), |k: int| k as usize),
        feat,
    ) =~= column_of(enriched, members, feat));
}

/// The smallest standard deviation that a feature is taken to have. The frequency has one that
/// follows the largest count of the log, `adaptive`.
pub open spec fn sigma_floor(feat: int, adaptive: Double) -> Double {
    if feat == 0 || feat == 2 {
        // 0.5
        Double { bits: 0x3fe0_0000_0000_0000 }
    } else if feat == 1 || feat == 5 {
        // 0.1
        Double { bits: 0x3fb9_9999_9999_999a }
    } else if feat == 3 {
        // 1.0
        Double { bits: 0x3ff0_0000_0000_0000 }
    } else if feat == 4 {
        // 0.06
        adaptive.larger(Double { bits: 0x3fae_b851_eb85_1eb8 })
    } else {
        // 0.15
        Double { bits: 0x3fc3_3333_3333_3333 }
    }
}

/// The standard deviation of a feature, from its scaled median absolute deviation.
pub fn robust_sigma(feat: usize, scaled_mad: Double, adaptive: Double) -> (r: Double)
    ensures
        r == scaled_mad.larger(sigma_floor(feat as int, adaptive)),
{
    let floor = if feat == 0 || feat == 2 {
        Double { bits: 0x3fe0_0000_0000_0000 }
    } else if feat == 1 || feat == 5 {
        Double { bits: 0x3fb9_9999_9999_999a }
    } else if feat == 3 {
        Double { bits: 0x3ff0_0000_0000_0000 }
    } else if feat == 4 {
        adaptive.max(Double { bits: 0x3fae_b851_eb85_1eb8 })
    } else {
        Double { bits: 0x3fc3_3333_3333_3333 }
    };
    scaled_mad.max(floor)
}

/// The standard deviation is positive, whatever the spread of a feature: a column of equal
/// numbers does not turn into infinite deviations.
pub proof fn law_sigma_is_positive(feat: int, scaled_mad: Double, adaptive: Double)
    ensures
        !scaled_mad.larger(sigma_floor(feat, adaptive)).nan(),
        scaled_mad.larger(sigma_floor(feat, adaptive)).value() > 0,
{
    let zero = Double { bits: 0 };
    let floor = sigma_floor(feat, adaptive);
    lemma_order_key(zero, Double { bits: 0x3fe0_0000_0000_0000 });
    lemma_order_key(zero, Double { bits: 0x3fb9_9999_9999_999a });
    lemma_order_key(zero, Double { bits: 0x3ff0_0000_0000_0000 });
    lemma_order_key(zero, Double { bits: 0x3fae_b851_eb85_1eb8 });
    lemma_order_key(zero, Double { bits: 0x3fc3_3333_3333_3333 });
    assert(zero.value() == 0);
}

/// The group of evidence that a feature belongs to. The size and its ratio to the mean are one.
pub open spec fn group_of(feat: int) -> int {
    if feat == 5 {
        1
    } else if feat > 5 {
        feat - 1
    } else {
        feat
    }
}

/// A group of evidence has a deviation above the threshold.
pub open spec fn strong_group(z: Seq<Double>, z_thr: Double, group: int) -> bool {
    ||| (Double { bits: 0 }).above(z_thr)
    ||| exists|f: int|
        0 <= f < z.len() && group_of(f) == group && (#[trigger] z[f]).absolute().above(z_thr)
}

/// A line is a candidate if one of its features deviates strongly, or two groups of evidence
/// deviate by more than the threshold.
pub open spec fn candidate(z: Seq<Double>, z_thr: Double) -> bool {
    ||| exists|f: int|
        0 <= f < z.len() && (#[trigger] z[f]).absolute().above(Double { bits: Z_SINGLE_STRONG })
    ||| count((z.len() - 1) as nat, |g: int| strong_group(z, z_thr, g)) >= 2
}

/// Is a line with these deviations a candidate?
pub fn is_candidate(z: &Vec<Double>, z_thr: Double) -> (r: bool)
    requires
        z@.len() > 0,
    ensures
        r == candidate(z@, z_thr),
{
    let dim = z.len();
    for f in 0..dim
        invariant
            dim == z@.len(),
            forall|k: int|
                0 <= k < f ==> !(#[trigger] z@[k]).absolute().above(
                    Double { bits: Z_SINGLE_STRONG },
                ),
    {
        if z[f].abs().gt(Double { bits: Z_SINGLE_STRONG }) {
            assert(z@[f as int].absolute().above(Double { bits: Z_SINGLE_STRONG }));
            return true;
        }
    }
    let ghost p = |g: int| strong_group(z@, z_thr, g);
    let mut strong_groups: usize = 0;
    for g in 0..dim - 1
        invariant
            dim == z@.len(),
            dim > 0,
            p == |g: int| strong_group(z@, z_thr, g),
            strong_groups == count(g as nat, p),
            strong_groups <= g,
    {
        let mut strong = (Double { bits: 0 }).gt(z_thr);
        for f in 0..dim
            invariant
                dim == z@.len(),
                strong == ((Double { bits: 0 }).above(z_thr) || exists|k: int|
                    0 <= k < f && group_of(k) == g && (#[trigger] z@[k]).absolute().above(z_thr)),
        {
            let group: usize = if f == 5 {
                1
            } else if f > 5 {
                f - 1
            } else {
                f
            };
            let over = z[f].abs().gt(z_thr);
            if group == g && over {
                assert(z@[f as int].absolute().above(z_thr));
                strong = true;
            }
        }
        assert(strong == p(g as int));
        if strong {
            strong_groups = strong_groups + 1;
        }
    }
    strong_groups >= 2
}

/// A deviation, clipped to four standard deviations on either side.
pub open spec fn clipped(z: Double) -> Double {
    if (Double { bits: (SIGN + Z_CLIP) as u64 }).above(z) {
        Double { bits: (SIGN + Z_CLIP) as u64 }
    } else if z.above(Double { bits: Z_CLIP }) {
        Double { bits: Z_CLIP }
    } else {
        z
    }
}

/// Clips the deviations of a line.
pub fn clip(z: &Vec<Double>) -> (r: Vec<Double>)
    ensures
        r@.len() == z@.len(),
        forall|f: int| 0 <= f < z@.len() ==> (#[trigger] r@[f]) == clipped(z@[f]),
{
    let mut r: Vec<Double> = Vec::new();
    for f in 0..z.len()
        invariant
            r@.len() == f,
            forall|k: int| 0 <= k < f ==> (#[trigger] r@[k]) == clipped(z@[k]),
    {
        let low = Double { bits: SIGN + Z_CLIP };
        let high = Double { bits: Z_CLIP };
        r.push(
            if low.gt(z[f]) {
                low
            } else if z[f].gt(high) {
                high
            } else {
                z[f]
            },
        );
    }
    r
}

/// The points that carry a label.
pub open spec fn labelled(labels: Seq<u32>, label: u32) -> spec_fn(int) -> bool {
    |j: int| labels[j] == label
}

/// How many points carry a label.
pub open spec fn label_count(labels: Seq<u32>, label: u32) -> nat {
    count(labels.len(), labelled(labels, label))
}

/// No cluster is larger than `label`'s. Label 0 marks noise and is no cluster.
pub open spec fn largest_cluster(labels: Seq<u32>, label: u32) -> bool {
    &&& label > 0
    &&& labels.contains(label)
    &&& forall|other: u32|
        other > 0 ==> #[trigger] label_count(labels, other) <= label_count(labels, label)
}

/// The dominant cluster is one of the largest; there is none exactly if every point is noise.
pub open spec fn dominant_of(labels: Seq<u32>, dominant: Option<u32>) -> bool {
    match dominant {
        Some(d) => largest_cluster(labels, d),
        None => forall|j: int| 0 <= j < labels.len() ==> labels[j] == 0,
    }
}

/// The dominant cluster, the one with the smallest label if several are equally large.
pub open spec fn first_dominant(labels: Seq<u32>, dominant: Option<u32>) -> bool {
    &&& dominant_of(labels, dominant)
    &&& dominant matches Some(d) ==> forall|other: u32|
        other > 0 && #[trigger] label_count(labels, other) == label_count(labels, d) ==> d <= other
}

fn count_label(labels: &Vec<u32>, label: u32) -> (r: usize)
    ensures
        r == label_count(labels@, label),
{
    let ghost p = labelled(labels@, label);
    let n = labels.len();
    let mut r: usize = 0;
    for j in 0..n
        invariant
            n == labels@.len(),
            p == labelled(labels@, label),
            r == count(j as nat, p),
            r <= j,
    {
        if labels[j] == label {
            r = r + 1;
        }
    }
    r
}

/// The dominant cluster: the largest, and of several that are equally large the one with the
/// smallest label.
pub fn dominant_cluster(labels: &Vec<u32>) -> (r: Option<u32>)
    ensures
        first_dominant(labels@, r),
{
    let mut best: Option<u32> = None;
    let mut best_size: usize = 0;
    for j in 0..labels.len()
        invariant
            best is None ==> forall|k: int| 0 <= k < j ==> labels@[k] == 0,
            best matches Some(d) ==> {
                &&& d > 0
                &&& labels@.contains(d)
                &&& best_size == label_count(labels@, d)
                &&& forall|k: int|
                    0 <= k < j && (#[trigger] labels@[k]) > 0 ==> {
                        ||| label_count(labels@, labels@[k]) < best_size
                        ||| label_count(labels@, labels@[k]) == best_size && d <= labels@[k]
                    }
            },
    {
        let label = labels[j];
        if label > 0 {
            let size = count_label(labels, label);
            let better = match best {
                None => true,
                Some(d) => size > best_size || (size == best_size && label < d),
            };
            if better {
                best = Some(label);
                best_size = size;
            }
        }
    }
    proof {
        if let Some(d) = best {
            let q = choose|q: int| 0 <= q < labels@.len() && labels@[q] == d;
            assert(labels@[q] == d);
            assert forall|other: u32| other > 0 implies {
                &&& #[trigger] label_count(labels@, other) <= label_count(labels@, d)
                &&& label_count(labels@, other) == label_count(labels@, d) ==> d <= other
            } by {
                let p = labelled(labels@, other);
                let own = labelled(labels@, d);
                lemma_count_some(labels@.len(), p);
                lemma_count_some(labels@.len(), own);
                assert(own(q));
                if label_count(labels@, other) > 0 {
                    let k = choose|k: int| 0 <= k < labels@.len() && #[trigger] p(k);
                    assert(labels@[k] == other);
                }
            }
        }
    }
    best
}

/// The size up to which a cluster counts as small, among `n` points.
pub open spec fn small_cluster_max(n: nat) -> nat {
    if n / 6 > 10 {
        n / 6
    } else {
        10
    }
}

/// A small cluster beside the dominant one.
pub open spec fn small_cluster(labels: Seq<u32>, dominant: Option<u32>, label: u32) -> bool {
    &&& label > 0
    &&& dominant != Some(label)
    &&& label_count(labels, label) <= small_cluster_max(labels.len())
}

/// A point is off the dominant cluster: noise, in a small cluster, or far from the centre.
pub open spec fn off_cluster(
    labels: Seq<u32>,
    dominant: Option<u32>,
    dists: Seq<Double>,
    j: int,
) -> bool {
    ||| labels[j] == 0
    ||| small_cluster(labels, dominant, labels[j])
    ||| dists[j].above(Double { bits: Z_TYPICAL_DIST })
}

/// The largest deviation of a line, at least zero.
pub open spec fn largest_z(z: Seq<Double>) -> Double
    decreases z.len(),
{
    if z.len() == 0 {
        Double { bits: 0 }
    } else {
        largest_z(z.drop_last()).larger(z.last().absolute())
    }
}

/// The points that are no candidates.
pub open spec fn unsuspected(candidates: Seq<bool>) -> spec_fn(int) -> bool {
    |j: int| !candidates[j]
}

/// What is known of a user's points: deviations, candidates, labels, the dominant cluster, the
/// distances to its centre and the times.
pub struct Evidence {
    pub z: Vec<Vec<Double>>,
    pub candidates: Vec<bool>,
    pub labels: Vec<u32>,
    pub dominant: Option<u32>,
    pub dists: Vec<Double>,
    pub times: Vec<i64>,
}

impl Evidence {
    pub open spec fn valid(&self) -> bool {
        let n = self.labels@.len();
        &&& self.z@.len() == n
        &&& self.candidates@.len() == n
        &&& self.dists@.len() == n
        &&& self.times@.len() == n
        &&& dominant_of(self.labels@, self.dominant)
    }

    pub open spec fn hit(&self, j: int) -> bool {
        off_cluster(self.labels@, self.dominant, self.dists@, j)
    }

    /// A candidate off the dominant cluster.
    pub open spec fn confirmed(&self, j: int) -> bool {
        self.candidates@[j] && self.hit(j)
    }

    /// Confirmed, or in a small cluster with a confirmed point.
    pub open spec fn expanded(&self, j: int) -> bool {
        ||| self.confirmed(j)
        ||| {
            &&& self.dominant is Some
            &&& small_cluster(self.labels@, self.dominant, self.labels@[j])
            &&& exists|k: int|
                0 <= k < self.labels@.len() && self.labels@[k] == self.labels@[j]
                    && #[trigger] self.confirmed(k)
        }
    }

    /// Deviates enough to be bridged.
    pub open spec fn bridgeable(&self, j: int) -> bool {
        let max_z = largest_z(self.z@[j]@);
        ||| max_z.above(Double { bits: Z_THRESHOLD })
        ||| self.hit(j) && max_z.above(Double { bits: Z_BRIDGE_MIN })
    }

    /// At most a minute from an anomaly.
    pub open spec fn near_anomaly(&self, j: int) -> bool {
        exists|k: int|
            0 <= k < self.labels@.len() && #[trigger] self.expanded(k) && -BRIDGE_SECS
                <= self.times@[j] - self.times@[k] <= BRIDGE_SECS
    }

    /// Reported: expanded, or close in time to a point that is and able to be bridged.
    pub open spec fn anomalous(&self, j: int) -> bool {
        self.expanded(j) || self.bridgeable(j) && self.near_anomaly(j)
    }

    /// What is said of a point.
    pub open spec fn verdict(&self, j: int, out: HybOut) -> bool {
        &&& out.anom == self.anomalous(j)
        &&& out.dbscan_hit == self.hit(j)
        &&& out.max_z == largest_z(self.z@[j]@)
        &&& out.z@ == self.z@[j]@
        &&& out.dbscan_label == self.labels@[j]
    }

    /// The points that stand for the user's ordinary behaviour: the dominant cluster; without
    /// one, the points that are no candidates; and all points if there are none of these.
    pub open spec fn ordinary(&self) -> Seq<usize> {
        let n = self.labels@.len();
        let chosen = match self.dominant {
            Some(d) => picked(n, labelled(self.labels@, d)),
            None => picked(n, unsuspected(self.candidates@)),
        };
        if chosen.len() > 0 {
            chosen
        } else {
            Seq::new(n, |j: int| j as usize)
        }
    }
}

/// What the hybrid detector says of a line.
#[derive(Debug)]
pub struct HybOut {
    pub anom: bool,
    pub dbscan_hit: bool,
    pub max_z: Double,
    pub z: Vec<Double>,
    /// The label of the cluster; 0 for noise.
    pub dbscan_label: u32,
}

fn max_abs(z: &Vec<Double>) -> (r: Double)
    ensures
        r == largest_z(z@),
{
    let mut r = Double { bits: 0 };
    for f in 0..z.len()
        invariant
            r == largest_z(z@.take(f as int)),
            f <= z@.len(),
    {
        assert(z@.take(f + 1).drop_last() =~= z@.take(f as int));
        r = r.max(z[f].abs());
    }
    assert(z@.take(z@.len() as int) =~= z@);
    r
}

fn is_small_cluster(labels: &Vec<u32>, dominant: Option<u32>, label: u32) -> (r: bool)
    ensures
        r == small_cluster(labels@, dominant, label),
{
    let n = labels.len();
    let limit = if n / 6 > 10 { n / 6 } else { 10 };
    let is_dominant = match dominant {
        Some(d) => d == label,
        None => false,
    };
    label > 0 && !is_dominant && count_label(labels, label) <= limit
}

impl Evidence {
    /// The evidence on a user: deviations, the threshold that two groups of them must exceed,
    /// cluster labels, distances to the centre of the dominant cluster, and times.
    pub fn new(
        z: Vec<Vec<Double>>,
        z_thr: Double,
        labels: Vec<u32>,
        dists: Vec<Double>,
        times: Vec<i64>,
    ) -> (r: Evidence)
        requires
            z@.len() == labels@.len(),
            dists@.len() == labels@.len(),
            times@.len() == labels@.len(),
            forall|j: int| 0 <= j < z@.len() ==> (#[trigger] z@[j])@.len() > 0,
        ensures
            r.valid(),
            r.z == z,
            r.labels == labels,
            r.dists == dists,
            r.times == times,
            first_dominant(labels@, r.dominant),
            forall|j: int|
                0 <= j < z@.len() ==> (#[trigger] r.candidates@[j]) == candidate(z@[j]@, z_thr),
    {
        let mut candidates: Vec<bool> = Vec::new();
        for j in 0..z.len()
            invariant
                forall|j: int| 0 <= j < z@.len() ==> (#[trigger] z@[j])@.len() > 0,
                candidates@.len() == j,
                forall|k: int|
                    0 <= k < j ==> (#[trigger] candidates@[k]) == candidate(z@[k]@, z_thr),
        {
            candidates.push(is_candidate(&z[j], z_thr));
        }
        let dominant = dominant_cluster(&labels);
        Evidence { z, candidates, labels, dominant, dists, times }
    }

    fn hits(&self) -> (r: Vec<bool>)
        requires
            self.valid(),
        ensures
            r@.len() == self.labels@.len(),
            forall|j: int| 0 <= j < r@.len() ==> (#[trigger] r@[j]) == self.hit(j),
    {
        let mut r: Vec<bool> = Vec::new();
        for j in 0..self.labels.len()
            invariant
                self.valid(),
                r@.len() == j,
                forall|k: int| 0 <= k < j ==> (#[trigger] r@[k]) == self.hit(k),
        {
            let hit = self.labels[j] == 0 || is_small_cluster(
                &self.labels,
                self.dominant,
                self.labels[j],
            ) || self.dists[j].gt(Double { bits: Z_TYPICAL_DIST });
            r.push(hit);
        }
        r
    }

    /// Is there a confirmed point with this label?
    fn label_confirmed(&self, hits: &Vec<bool>, label: u32) -> (r: bool)
        requires
            self.valid(),
            hits@.len() == self.labels@.len(),
            forall|j: int| 0 <= j < hits@.len() ==> (#[trigger] hits@[j]) == self.hit(j),
        ensures
            r == exists|k: int|
                0 <= k < self.labels@.len() && self.labels@[k] == label
                    && #[trigger] self.confirmed(k),
    {
        for k in 0..self.labels.len()
            invariant
                self.valid(),
                hits@.len() == self.labels@.len(),
                forall|j: int| 0 <= j < hits@.len() ==> (#[trigger] hits@[j]) == self.hit(j),
                forall|i: int|
                    0 <= i < k && self.labels@[i] == label ==> !#[trigger] self.confirmed(i),
        {
            if self.labels[k] == label && self.candidates[k] && hits[k] {
                assert(self.confirmed(k as int));
                return true;
            }
        }
        false
    }

    fn expansion(&self, hits: &Vec<bool>) -> (r: Vec<bool>)
        requires
            self.valid(),
            hits@.len() == self.labels@.len(),
            forall|j: int| 0 <= j < hits@.len() ==> (#[trigger] hits@[j]) == self.hit(j),
        ensures
            r@.len() == self.labels@.len(),
            forall|j: int| 0 <= j < r@.len() ==> (#[trigger] r@[j]) == self.expanded(j),
    {
        let mut r: Vec<bool> = Vec::new();
        for j in 0..self.labels.len()
            invariant
                self.valid(),
                hits@.len() == self.labels@.len(),
                forall|j: int| 0 <= j < hits@.len() ==> (#[trigger] hits@[j]) == self.hit(j),
                r@.len() == j,
                forall|k: int| 0 <= k < j ==> (#[trigger] r@[k]) == self.expanded(k),
        {
            let label = self.labels[j];
            let confirmed = self.candidates[j] && hits[j];
            let through_cluster = self.dominant.is_some() && is_small_cluster(
                &self.labels,
                self.dominant,
                label,
            ) && self.label_confirmed(hits, label);
            r.push(confirmed || through_cluster);
        }
        r
    }

    /// Is there an anomaly at most a minute away?
    fn anomaly_near(&self, expanded: &Vec<bool>, j: usize) -> (r: bool)
        requires
            self.valid(),
            j < self.labels@.len(),
            expanded@.len() == self.labels@.len(),
            forall|k: int|
                0 <= k < expanded@.len() ==> (#[trigger] expanded@[k]) == self.expanded(k),
        ensures
            r == self.near_anomaly(j as int),
    {
        for k in 0..self.labels.len()
            invariant
                self.valid(),
                j < self.labels@.len(),
                expanded@.len() == self.labels@.len(),
                forall|k: int|
                    0 <= k < expanded@.len() ==> (#[trigger] expanded@[k]) == self.expanded(k),
                forall|i: int|
                    0 <= i < k && #[trigger] self.expanded(i) ==> !(-BRIDGE_SECS
                        <= self.times@[j as int] - self.times@[i] <= BRIDGE_SECS),
        {
            if expanded[k] {
                let gap = self.times[j] as i128 - self.times[k] as i128;
                if -(BRIDGE_SECS as i128) <= gap && gap <= BRIDGE_SECS as i128 {
                    assert(self.expanded(k as int));
                    return true;
                }
            }
        }
        false
    }

    /// The verdicts on a user's points.
    pub fn judge(&self) -> (r: Vec<HybOut>)
        requires
            self.valid(),
        ensures
            r@.len() == self.labels@.len(),
            forall|j: int| 0 <= j < r@.len() ==> self.verdict(j, #[trigger] r@[j]),
    {
        let hits = self.hits();
        let expanded = self.expansion(&hits);
        let mut r: Vec<HybOut> = Vec::new();
        for j in 0..self.labels.len()
            invariant
                self.valid(),
                hits@.len() == self.labels@.len(),
                forall|j: int| 0 <= j < hits@.len() ==> (#[trigger] hits@[j]) == self.hit(j),
                expanded@.len() == self.labels@.len(),
                forall|k: int|
                    0 <= k < expanded@.len() ==> (#[trigger] expanded@[k]) == self.expanded(k),
                r@.len() == j,
                forall|k: int| 0 <= k < j ==> self.verdict(k, #[trigger] r@[k]),
        {
            let max_z = max_abs(&self.z[j]);
            let bridgeable = max_z.gt(Double { bits: Z_THRESHOLD }) || (hits[j] && max_z.gt(
                Double { bits: Z_BRIDGE_MIN },
            ));
            let anom = expanded[j] || (bridgeable && self.anomaly_near(&expanded, j));
            r.push(
                HybOut {
                    anom,
                    dbscan_hit: hits[j],
                    max_z,
                    z: copy_doubles(&self.z[j]),
                    dbscan_label: self.labels[j],
                },
            );
        }
        r
    }
}

/// The points that carry a label.
pub fn points_labelled(labels: &Vec<u32>, label: u32) -> (r: Vec<usize>)
    ensures
        r@ == picked(labels@.len(), labelled(labels@, label)),
{
    let ghost p = labelled(labels@, label);
    let n = labels.len();
    let mut r: Vec<usize> = Vec::new();
    for j in 0..n
        invariant
            n == labels@.len(),
            p == labelled(labels@, label),
            r@ == picked(j as nat, p),
    {
        if labels[j] == label {
            r.push(j);
        }
    }
    r
}

fn points_unsuspected(candidates: &Vec<bool>) -> (r: Vec<usize>)
    ensures
        r@ == picked(candidates@.len(), unsuspected(candidates@)),
{
    let ghost p = unsuspected(candidates@);
    let n = candidates.len();
    let mut r: Vec<usize> = Vec::new();
    for j in 0..n
        invariant
            n == candidates@.len(),
            p == unsuspected(candidates@),
            r@ == picked(j as nat, p),
    {
        if !candidates[j] {
            r.push(j);
        }
    }
    r
}

impl Evidence {
    /// The points that stand for the user's ordinary behaviour.
    pub fn ordinary_points(&self) -> (r: Vec<usize>)
        requires
            self.valid(),
        ensures
            r@ == self.ordinary(),
    {
        let chosen = match self.dominant {
            Some(d) => points_labelled(&self.labels, d),
            None => points_unsuspected(&self.candidates),
        };
        if chosen.len() > 0 {
            chosen
        } else {
            let mut all: Vec<usize> = Vec::new();
            for j in 0..self.labels.len()
                invariant
                    all@.len() == j,
                    forall|k: int| 0 <= k < j ==> all@[k] == k,
            {
                all.push(j);
            }
            assert(all@ =~= self.ordinary());
            all
        }
    }
}

/// The lines that stand for each user's ordinary behaviour, in the order of the groups.
pub fn baseline_lines(groups: &Vec<UserGroup>, evidence: &Vec<Evidence>) -> (r: Vec<Vec<usize>>)
    requires
        evidence@.len() == groups@.len(),
        forall|g: int|
            0 <= g < groups@.len() ==> (#[trigger] evidence@[g]).valid()
                && evidence@[g].labels@.len() == groups@[g].members@.len(),
    ensures
        r@.len() == groups@.len(),
        forall|g: int|
            0 <= g < groups@.len() ==> (#[trigger] r@[g])@ == own(
                groups@[g].members@,
                evidence@[g].ordinary(),
            ),
{
    let mut r: Vec<Vec<usize>> = Vec::new();
    for g in 0..groups.len()
        invariant
            evidence@.len() == groups@.len(),
            forall|g: int|
                0 <= g < groups@.len() ==> (#[trigger] evidence@[g]).valid()
                    && evidence@[g].labels@.len() == groups@[g].members@.len(),
            r@.len() == g,
            forall|h: int|
                0 <= h < g ==> (#[trigger] r@[h])@ == own(
                    groups@[h].members@,
                    evidence@[h].ordinary(),
                ),
    {
        let found = &evidence[g];
        assert(evidence@[g as int].valid());
        proof {
            assert(found.labels@.len() == found.labels.len());
            if found.labels@.len() > 0 {
                law_ordinary_points(*found);
            }
        }
        r.push(lines_at(&groups[g].members, &found.ordinary_points()));
    }
    r
}

/// The verdict on each line follows from the evidence on its user.
pub open spec fn judged(
    groups: Seq<UserGroup>,
    evidence: Seq<Evidence>,
    verdicts: Seq<HybOut>,
) -> bool {
    forall|g: int, k: int|
        0 <= g < groups.len() && 0 <= k < groups[g].members@.len() ==> evidence[g].verdict(
            k,
            verdicts[#[trigger] groups[g].members@[k] as int],
        )
}

/// The verdicts on all lines of a log, in its order, from the evidence on each user.
pub fn judge_log(
    logs: &Vec<LogRecord>,
    groups: &Vec<UserGroup>,
    evidence: &Vec<Evidence>,
) -> (r: Vec<HybOut>)
    requires
        grouping(logs@, groups@),
        evidence@.len() == groups@.len(),
        forall|g: int|
            0 <= g < groups@.len() ==> (#[trigger] evidence@[g]).valid()
                && evidence@[g].labels@.len() == groups@[g].members@.len(),
    ensures
        r@.len() == logs@.len(),
        judged(groups@, evidence@, r@),
{
    let mut verdicts: Vec<Vec<HybOut>> = Vec::new();
    for g in 0..evidence.len()
        invariant
            evidence@.len() == groups@.len(),
            forall|g: int|
                0 <= g < groups@.len() ==> (#[trigger] evidence@[g]).valid()
                    && evidence@[g].labels@.len() == groups@[g].members@.len(),
            verdicts@.len() == g,
            forall|h: int|
                0 <= h < g ==> (#[trigger] verdicts@[h])@.len() == groups@[h].members@.len(),
            forall|h: int, k: int|
                0 <= h < g && 0 <= k < groups@[h].members@.len() ==> evidence@[h].verdict(
                    k,
                    #[trigger] verdicts@[h]@[k],
                ),
    {
        assert(evidence@[g as int].valid());
        verdicts.push(evidence[g].judge());
    }
    let mut r: Vec<HybOut> = Vec::new();
    for i in 0..logs.len()
        invariant
            grouping(logs@, groups@),
            verdicts@.len() == groups@.len(),
            forall|h: int|
                0 <= h < groups@.len() ==> (#[trigger] verdicts@[h])@.len()
                    == groups@[h].members@.len(),
            forall|h: int, k: int|
                0 <= h < groups@.len() && 0 <= k < groups@[h].members@.len()
                    ==> evidence@[h].verdict(k, #[trigger] verdicts@[h]@[k]),
            r@.len() == i,
            forall|g: int, k: int|
                0 <= g < groups@.len() && 0 <= k < groups@[g].members@.len()
                    && groups@[g].members@[k] < i ==> evidence@[g].verdict(
                    k,
                    r@[#[trigger] groups@[g].members@[k] as int],
                ),
    {
        let (g, k) = place_of(logs, groups, i);
        assert(verdicts@[g as int]@.len() == groups@[g as int].members@.len());
        let v = &verdicts[g][k];
        let out = HybOut {
            anom: v.anom,
            dbscan_hit: v.dbscan_hit,
            max_z: v.max_z,
            z: copy_doubles(&v.z),
            dbscan_label: v.dbscan_label,
        };
        assert(evidence@[g as int].verdict(k as int, verdicts@[g as int]@[k as int]));
        assert(evidence@[g as int].verdict(k as int, out));
        r.push(out);
        proof {
            assert forall|h: int, l: int|
                0 <= h < groups@.len() && 0 <= l < groups@[h].members@.len()
                    && groups@[h].members@[l] < i + 1 implies evidence@[h].verdict(
                l,
                r@[#[trigger] groups@[h].members@[l] as int],
            ) by {
                if groups@[h].members@[l] == i {
                    lemma_places_differ(logs@, groups@, g as int, k as int, h, l);
                }
            }
        }
    }
    proof {
        lemma_members_in_log(logs@, groups@);
    }
    r
}

/// What a user ordinarily does.
#[derive(Clone, Copy, Debug, PartialEq, Eq, Structural)]
pub struct UserBaseline {
    /// The earliest hour.
    pub work_start_hour: u32,
    /// The latest hour.
    pub work_end_hour: u32,
    pub mean_file_size_kb: Double,
    /// The most operations in five minutes.
    pub max_count_5min: usize,
    /// The highest sensitivity.
    pub max_sensitivity: u8,
}

/// The least and the largest figures over some lines. Over no lines, the day starts at 23 and
/// the other figures are 0.
pub open spec fn baseline_of(
    logs: Seq<LogRecord>,
    enriched: Seq<Enriched>,
    lines: Seq<usize>,
    base: UserBaseline,
) -> bool {
    &&& base.work_start_hour <= 23
    &&& forall|k: int|
        0 <= k < lines.len() ==> {
            &&& base.work_start_hour <= logs[#[trigger] lines[k] as int].timestamp.hour
            &&& logs[lines[k] as int].timestamp.hour <= base.work_end_hour
            &&& enriched[lines[k] as int].count5 <= base.max_count_5min
            &&& logs[lines[k] as int].sensitivity <= base.max_sensitivity
        }
    &&& base.work_start_hour == 23 || exists|k: int|
        0 <= k < lines.len() && logs[#[trigger] lines[k] as int].timestamp.hour
            == base.work_start_hour
    &&& base.work_end_hour == 0 || exists|k: int|
        0 <= k < lines.len() && logs[#[trigger] lines[k] as int].timestamp.hour
            == base.work_end_hour
    &&& base.max_count_5min == 0 || exists|k: int|
        0 <= k < lines.len() && enriched[#[trigger] lines[k] as int].count5 == base.max_count_5min
    &&& base.max_sensitivity == 0 || exists|k: int|
        0 <= k < lines.len() && logs[#[trigger] lines[k] as int].sensitivity
            == base.max_sensitivity
}

/// The baseline of a user, from the lines that stand for the user's ordinary behaviour and
/// their mean size.
pub fn user_baseline(
    logs: &Vec<LogRecord>,
    enriched: &Vec<Enriched>,
    lines: &Vec<usize>,
    mean: Double,
) -> (r: UserBaseline)
    requires
        enriched@.len() == logs@.len(),
        forall|k: int| 0 <= k < lines@.len() ==> (#[trigger] lines@[k]) < logs@.len(),
    ensures
        baseline_of(logs@, enriched@, lines@, r),
        r.mean_file_size_kb == mean,
{
    let mut r = UserBaseline {
        work_start_hour: 23,
        work_end_hour: 0,
        mean_file_size_kb: mean,
        max_count_5min: 0,
        max_sensitivity: 0,
    };
    assert(baseline_of(logs@, enriched@, lines@.take(0), r));
    for k in 0..lines.len()
        invariant
            enriched@.len() == logs@.len(),
            forall|k: int| 0 <= k < lines@.len() ==> (#[trigger] lines@[k]) < logs@.len(),
            baseline_of(logs@, enriched@, lines@.take(k as int), r),
            r.mean_file_size_kb == mean,
            k <= lines@.len(),
    {
        let ghost old_lines = lines@.take(k as int);
        let ghost new_lines = lines@.take(k + 1);
        let line = lines[k];
        assert(line < logs@.len());
        let hour = logs[line].timestamp.hour;
        if hour < r.work_start_hour {
            r.work_start_hour = hour;
        }
        if hour > r.work_end_hour {
            r.work_end_hour = hour;
        }
        if enriched[line].count5 > r.max_count_5min {
            r.max_count_5min = enriched[line].count5;
        }
        if logs[line].sensitivity > r.max_sensitivity {
            r.max_sensitivity = logs[line].sensitivity;
        }
        proof {
            assert(new_lines[k as int] == line);
            assert forall|q: int| 0 <= q < k implies #[trigger] new_lines[q] == old_lines[q] by {}
            assert forall|q: int| 0 <= q < k implies #[trigger] old_lines[q] == new_lines[q] by {}
        }
    }
    assert(lines@.take(lines@.len() as int) =~= lines@);
    r
}

/// The size of a file and its ratio to the mean are one piece of evidence: however far both
/// exceed the threshold, they make no candidate unless one of them deviates strongly.
pub proof fn law_sizes_count_once(z: Seq<Double>, z_thr: Double)
    requires
        z.len() > 5,
        !(Double { bits: 0 }).above(z_thr),
        forall|f: int|
            0 <= f < z.len() && f != 1 && f != 5 ==> !(#[trigger] z[f]).absolute().above(z_thr),
        forall|f: int|
            0 <= f < z.len() ==> !(#[trigger] z[f]).absolute().above(
                Double { bits: Z_SINGLE_STRONG },
            ),
    ensures
        !candidate(z, z_thr),
{
    let n = (z.len() - 1) as nat;
    let p = |g: int| strong_group(z, z_thr, g);
    let one = |g: int| 1 <= g < 2;
    assert forall|g: int| 0 <= g < n && #[trigger] p(g) implies one(g) by {
        let f = choose|f: int|
            0 <= f < z.len() && group_of(f) == g && (#[trigger] z[f]).absolute().above(z_thr);
        assert(z[f].absolute().above(z_thr));
    }
    lemma_count_more(n, p, one);
    lemma_count_range(n, 1, 2);
}

/// A candidate stays one if its features deviate more or the threshold is lower.
pub proof fn law_candidates_grow(z: Seq<Double>, w: Seq<Double>, z_thr: Double, lower: Double)
    requires
        z.len() > 0,
        w.len() == z.len(),
        forall|f: int|
            0 <= f < z.len() ==> (#[trigger] w[f]).absolute().at_least(z[f].absolute()),
        z_thr.at_least(lower),
        candidate(z, z_thr),
    ensures
        candidate(w, lower),
{
    if exists|f: int|
        0 <= f < z.len() && (#[trigger] z[f]).absolute().above(Double { bits: Z_SINGLE_STRONG }) {
        let f = choose|f: int|
            0 <= f < z.len() && (#[trigger] z[f]).absolute().above(
                Double { bits: Z_SINGLE_STRONG },
            );
        assert(w[f].absolute().above(Double { bits: Z_SINGLE_STRONG }));
    } else {
        let n = (z.len() - 1) as nat;
        let p = |g: int| strong_group(z, z_thr, g);
        let q = |g: int| strong_group(w, lower, g);
        assert forall|g: int| 0 <= g < n && #[trigger] p(g) implies q(g) by {
            if !(Double { bits: 0 }).above(z_thr) {
                let f = choose|f: int|
                    0 <= f < z.len() && group_of(f) == g && (#[trigger] z[f]).absolute().above(
                        z_thr,
                    );
                assert(w[f].absolute().above(lower));
            }
        }
        lemma_count_more(n, p, q);
    }
}

/// Clipped deviations lie between -4 and 4.
pub proof fn law_clipped_is_bounded(z: Double)
    requires
        !z.nan(),
    ensures
        !clipped(z).nan(),
        clipped(z).value() <= (Double { bits: Z_CLIP }).value(),
        clipped(z).value() >= -(Double { bits: Z_CLIP }).value(),
{
}

/// What is a confirmed anomaly stays one: the later rules only add. What they add in time is
/// close to an anomaly and deviates by more than 2.4 itself.
pub proof fn law_rules_only_add(e: Evidence, j: int)
    ensures
        e.confirmed(j) ==> e.expanded(j),
        e.expanded(j) ==> e.anomalous(j),
        e.anomalous(j) && !e.expanded(j) ==> e.near_anomaly(j) && largest_z(e.z@[j]@).above(
            Double { bits: Z_BRIDGE_MIN },
        ),
{
    lemma_order_key(Double { bits: Z_BRIDGE_MIN }, Double { bits: Z_THRESHOLD });
}

/// Without a confirmed anomaly nothing is reported.
pub proof fn law_nothing_from_nothing(e: Evidence)
    requires
        forall|k: int| 0 <= k < e.labels@.len() ==> !e.confirmed(k),
    ensures
        forall|j: int| 0 <= j < e.labels@.len() ==> !e.anomalous(j),
{
    assert forall|j: int| 0 <= j < e.labels@.len() implies !e.anomalous(j) by {
        assert(!e.confirmed(j));
        if e.near_anomaly(j) {
            let k = choose|k: int|
                0 <= k < e.labels@.len() && #[trigger] e.expanded(k) && -BRIDGE_SECS
                    <= e.times@[j] - e.times@[k] <= BRIDGE_SECS;
            assert(!e.confirmed(k));
        }
    }
}

/// A small cluster beside the dominant one is an anomaly as a whole as soon as one of its points
/// is confirmed.
pub proof fn law_small_cluster_as_a_whole(e: Evidence, j: int, k: int)
    requires
        e.dominant is Some,
        0 <= j < e.labels@.len(),
        0 <= k < e.labels@.len(),
        e.labels@[j] == e.labels@[k],
        small_cluster(e.labels@, e.dominant, e.labels@[j]),
        e.confirmed(k),
    ensures
        e.anomalous(j),
{
}

/// A point of the dominant cluster that is near its centre, and does not deviate by more than
/// the threshold, is not reported.
pub proof fn law_typical_points_pass(e: Evidence, j: int)
    requires
        e.valid(),
        0 <= j < e.labels@.len(),
        e.dominant == Some(e.labels@[j]),
        !e.dists@[j].above(Double { bits: Z_TYPICAL_DIST }),
        !largest_z(e.z@[j]@).above(Double { bits: Z_THRESHOLD }),
    ensures
        !e.hit(j),
        !e.anomalous(j),
{
}

/// The points of a large cluster are not off the clusters merely because another is larger.
pub proof fn law_large_cluster_is_ordinary(e: Evidence, j: int)
    requires
        e.valid(),
        0 <= j < e.labels@.len(),
        e.labels@[j] > 0,
        label_count(e.labels@, e.labels@[j]) > small_cluster_max(e.labels@.len()),
    ensures
        e.hit(j) == e.dists@[j].above(Double { bits: Z_TYPICAL_DIST }),
{
}

/// A user with a line has ordinary points, and they are points of the user. With a dominant
/// cluster they are its points.
pub proof fn law_ordinary_points(e: Evidence)
    requires
        e.valid(),
        0 < e.labels@.len() <= usize::MAX,
    ensures
        e.ordinary().len() > 0,
        forall|k: int|
            0 <= k < e.ordinary().len() ==> (#[trigger] e.ordinary()[k]) < e.labels@.len(),
        e.dominant matches Some(d) ==> forall|k: int|
            0 <= k < e.ordinary().len() ==> e.labels@[#[trigger] e.ordinary()[k] as int] == d,
{
    let n = e.labels@.len();
    match e.dominant {
        Some(d) => {
            let p = labelled(e.labels@, d);
            let j = choose|j: int| 0 <= j < n && e.labels@[j] == d;
            assert(e.labels@.contains(d));
            assert(p(j));
            lemma_picked(n, p);
            lemma_count_some(n, p);
        },
        None => {
            lemma_picked(n, unsuspected(e.candidates@));
        },
    }
}

/// The evidence gathered from the same deviations, threshold, labels, distances and times is the
/// same.
pub proof fn law_evidence_is_determined(e: Evidence, f: Evidence, z_thr: Double)
    requires
        e.valid(),
        f.valid(),
        f.z@ == e.z@,
        f.labels@ == e.labels@,
        first_dominant(e.labels@, e.dominant),
        first_dominant(f.labels@, f.dominant),
        forall|j: int|
            0 <= j < e.z@.len() ==> (#[trigger] e.candidates@[j]) == candidate(e.z@[j]@, z_thr),
        forall|j: int|
            0 <= j < f.z@.len() ==> (#[trigger] f.candidates@[j]) == candidate(f.z@[j]@, z_thr),
    ensures
        f.candidates@ == e.candidates@,
        f.dominant == e.dominant,
{
    assert(f.candidates@ =~= e.candidates@);
    if let Some(d) = e.dominant {
        if let Some(c) = f.dominant {
            assert(label_count(e.labels@, c) <= label_count(e.labels@, d));
            assert(label_count(e.labels@, d) <= label_count(e.labels@, c));
        }
    }
}

/// Other users have no influence: with the same evidence on a user, the verdicts on the user's
/// lines are those given in the log of the user alone.
pub proof fn law_verdicts_of_the_user_alone(
    logs: Seq<LogRecord>,
    groups: Seq<UserGroup>,
    evidence: Seq<Evidence>,
    verdicts: Seq<HybOut>,
    g: int,
    alone: Seq<UserGroup>,
    verdicts_alone: Seq<HybOut>,
    k: int,
)
    requires
        logs.len() <= usize::MAX,
        grouping(logs, groups),
        0 <= g < groups.len(),
        evidence.len() == groups.len(),
        judged(groups, evidence, verdicts),
        grouping(own(logs, groups[g].members@), alone),
        judged(alone, seq![evidence[g]], verdicts_alone),
        0 <= k < groups[g].members@.len(),
    ensures
        ({
            let here = verdicts[groups[g].members@[k] as int];
            let there = verdicts_alone[k];
            &&& there.anom == here.anom
            &&& there.dbscan_hit == here.dbscan_hit
            &&& there.max_z == here.max_z
            &&& there.z@ == here.z@
            &&& there.dbscan_label == here.dbscan_label
        }),
{
    law_user_alone_is_one_group(logs, groups, g, alone);
    assert(alone[0].members@[k] == k);
    assert(seq![evidence[g]][0].verdict(k, verdicts_alone[alone[0].members@[k] as int]));
    assert(evidence[g].verdict(k, verdicts[groups[g].members@[k] as int]));
}

/// The baseline over some of a user's lines is the baseline over the same lines in the log of the
/// user alone.
pub proof fn law_baseline_of_the_user_alone(
    logs: Seq<LogRecord>,
    enriched: Seq<Enriched>,
    members: Seq<usize>,
    points: Seq<usize>,
    base: UserBaseline,
    base_alone: UserBaseline,
)
    requires
        forall|k: int| 0 <= k < points.len() ==> (#[trigger] points[k]) < members.len(),
        baseline_of(logs, enriched, own(members, points), base),
        baseline_of(own(logs, members), own(enriched, members), points, base_alone),
    ensures
        base_alone.work_start_hour == base.work_start_hour,
        base_alone.work_end_hour == base.work_end_hour,
        base_alone.max_count_5min == base.max_count_5min,
        base_alone.max_sensitivity == base.max_sensitivity,
{
    let lines = own(members, points);
    let (logs1, rows1) = (own(logs, members), own(enriched, members));
    assert forall|k: int| 0 <= k < points.len() implies {
        &&& logs1[#[trigger] points[k] as int] == logs[lines[k] as int]
        &&& rows1[points[k] as int] == enriched[lines[k] as int]
    } by {}
    assert forall|k: int| 0 <= k < lines.len() implies {
        &&& logs[#[trigger] lines[k] as int] == logs1[points[k] as int]
        &&& enriched[lines[k] as int] == rows1[points[k] as int]
    } by {}
}

proof fn lemma_two_counted(n: nat, p: spec_fn(int) -> bool, a: int, b: int)
    requires
        0 <= a < b < n,
        p(a),
        p(b),
    ensures
        count(n, p) >= 2,
    decreases n,
{
    if b < n - 1 {
        lemma_two_counted((n - 1) as nat, p, a, b);
    } else {
        lemma_count_some((n - 1) as nat, p);
        assert(0 <= a < n - 1 && p(a));
    }
}

proof fn lemma_counted_two(n: nat, p: spec_fn(int) -> bool) -> (r: (int, int))
    requires
        count(n, p) >= 2,
    ensures
        0 <= r.0 < r.1 < n,
        p(r.0),
        p(r.1),
    decreases n,
{
    if p(n - 1) {
        lemma_count_some((n - 1) as nat, p);
        let a = choose|a: int| 0 <= a < n - 1 && #[trigger] p(a);
        (a, n - 1)
    } else {
        lemma_counted_two((n - 1) as nat, p)
    }
}

/// Two different features that both deviate by more than the threshold make a candidate, unless
/// the two are the size and its ratio. (The last of fewer than six features is no evidence.)
pub proof fn law_two_features_make_a_candidate(z: Seq<Double>, z_thr: Double, f: int, g: int)
    requires
        0 <= f < z.len(),
        0 <= g < z.len(),
        f != g,
        !(f == 1 && g == 5),
        !(f == 5 && g == 1),
        z.len() >= 6 || f < z.len() - 1 && g < z.len() - 1,
        z[f].absolute().above(z_thr),
        z[g].absolute().above(z_thr),
    ensures
        candidate(z, z_thr),
{
    let n = (z.len() - 1) as nat;
    let p = |k: int| strong_group(z, z_thr, k);
    assert(p(group_of(f)) && p(group_of(g)));
    if group_of(f) < group_of(g) {
        lemma_two_counted(n, p, group_of(f), group_of(g));
    } else {
        lemma_two_counted(n, p, group_of(g), group_of(f));
    }
}

/// One feature that deviates by more than five standard deviations, either way, makes a candidate
/// by itself.
pub proof fn law_one_strong_feature_makes_a_candidate(z: Seq<Double>, z_thr: Double, f: int)
    requires
        0 <= f < z.len(),
        z[f].absolute().above(Double { bits: 0x4014_0000_0000_0000 }),
    ensures
        candidate(z, z_thr),
{
}

/// Nothing else does: a candidate without a feature beyond five standard deviations has two
/// different features beyond the threshold that are not the size and its ratio. (Below zero every
/// deviation is beyond the threshold.)
pub proof fn law_a_candidate_has_evidence(z: Seq<Double>, z_thr: Double)
    requires
        candidate(z, z_thr),
        !(Double { bits: 0 }).above(z_thr),
        forall|f: int|
            0 <= f < z.len() ==> !(#[trigger] z[f]).absolute().above(
                Double { bits: 0x4014_0000_0000_0000 },
            ),
    ensures
        exists|f: int, g: int|
            0 <= f < z.len() && 0 <= g < z.len() && f != g && !(f == 1 && g == 5) && !(f == 5 && g
                == 1) && (#[trigger] z[f]).absolute().above(z_thr) && (
            #[trigger] z[g]).absolute().above(z_thr),
{
    let p = |k: int| strong_group(z, z_thr, k);
    let (a, b) = lemma_counted_two((z.len() - 1) as nat, p);
    let f = choose|f: int|
        0 <= f < z.len() && group_of(f) == a && (#[trigger] z[f]).absolute().above(z_thr);
    let g = choose|g: int|
        0 <= g < z.len() && group_of(g) == b && (#[trigger] z[g]).absolute().above(z_thr);
    assert(z[f].absolute().above(z_thr) && z[g].absolute().above(z_thr));
}

/// With a threshold below zero every line of three features or more is a candidate.
pub proof fn law_a_negative_threshold_suspects_all(z: Seq<Double>, z_thr: Double)
    requires
        z.len() >= 3,
        (Double { bits: 0 }).above(z_thr),
    ensures
        candidate(z, z_thr),
{
    let p = |k: int| strong_group(z, z_thr, k);
    lemma_two_counted((z.len() - 1) as nat, p, 0, 1);
}

/// A candidate goes by how far its features deviate, not by the direction.
pub proof fn law_direction_does_not_matter(z: Seq<Double>, w: Seq<Double>, z_thr: Double)
    requires
        z.len() == w.len(),
        forall|f: int| 0 <= f < z.len() ==> (#[trigger] z[f]).absolute() == w[f].absolute(),
        candidate(z, z_thr),
    ensures
        candidate(w, z_thr),
{
    if exists|f: int|
        0 <= f < z.len() && (#[trigger] z[f]).absolute().above(Double { bits: Z_SINGLE_STRONG }) {
        let f = choose|f: int|
            0 <= f < z.len() && (#[trigger] z[f]).absolute().above(
                Double { bits: Z_SINGLE_STRONG },
            );
        assert(w[f].absolute().above(Double { bits: Z_SINGLE_STRONG }));
    } else {
        let n = (z.len() - 1) as nat;
        let p = |g: int| strong_group(z, z_thr, g);
        let q = |g: int| strong_group(w, z_thr, g);
        assert forall|g: int| 0 <= g < n && #[trigger] p(g) implies q(g) by {
            if !(Double { bits: 0 }).above(z_thr) {
                let f = choose|f: int|
                    0 <= f < z.len() && group_of(f) == g && (#[trigger] z[f]).absolute().above(
                        z_thr,
                    );
                assert(w[f].absolute().above(z_thr));
            }
        }
        lemma_count_more(n, p, q);
    }
}

/// A spread that exceeds the least one of its feature is taken as it is, and the least one takes
/// the place of a smaller spread: 0.5 for the hour and the sensitivity, 0.1 for the size and its
/// ratio, 1.0 for the operation, 0.15 beyond them; for the frequency the adaptive one or 0.06,
/// whichever is larger.
pub proof fn law_least_spreads(feat: int, scaled_mad: Double, adaptive: Double)
    requires
        feat >= 0,
    ensures
        ({
            let r = scaled_mad.larger(sigma_floor(feat, adaptive));
            let least = |bits: u64| {
                &&& scaled_mad.above(Double { bits }) ==> r == scaled_mad
                &&& !scaled_mad.at_least(Double { bits }) ==> r == Double { bits }
            };
            &&& feat == 0 || feat == 2 ==> least(0x3fe0_0000_0000_0000)
            &&& feat == 1 || feat == 5 ==> least(0x3fb9_9999_9999_999a)
            &&& feat == 3 ==> least(0x3ff0_0000_0000_0000)
            &&& feat > 5 ==> least(0x3fc3_3333_3333_3333)
            &&& feat == 4 && adaptive.above(Double { bits: 0x3fae_b851_eb85_1eb8 }) ==> least(
                adaptive.bits,
            )
            &&& feat == 4 && !adaptive.at_least(Double { bits: 0x3fae_b851_eb85_1eb8 }) ==> least(
                0x3fae_b851_eb85_1eb8,
            )
        }),
{
}

/// A deviation within four standard deviations is left as it is; a larger one becomes four, with
/// its sign.
pub proof fn law_clipping(z: Double, w: Double)
    requires
        !z.nan(),
        !w.nan(),
    ensures
        z.above(Double { bits: 0x4010_0000_0000_0000 }) ==> clipped(z) == (Double {
            bits: 0x4010_0000_0000_0000,
        }),
        (Double { bits: 0xc010_0000_0000_0000 }).above(z) ==> clipped(z) == (Double {
            bits: 0xc010_0000_0000_0000,
        }),
        !z.above(Double { bits: 0x4010_0000_0000_0000 }) && !(Double {
            bits: 0xc010_0000_0000_0000,
        }).above(z) ==> clipped(z) == z,
        z.at_least(w) ==> clipped(z).at_least(clipped(w)),
{
    lemma_order_key(Double { bits: 0xc010_0000_0000_0000 }, Double { bits: 0x4010_0000_0000_0000 });
}

/// The dominant cluster is one whose label occurs, as often as any label but that of noise, and
/// it is the smallest such label. There is none exactly if every point is noise.
pub proof fn law_dominant_cluster(labels: Seq<u32>, dominant: Option<u32>, other: u32)
    requires
        first_dominant(labels, dominant),
        other > 0,
    ensures
        dominant matches Some(d) ==> {
            let own = count(labels.len(), |j: int| labels[j] == d);
            let theirs = count(labels.len(), |j: int| labels[j] == other);
            &&& d > 0
            &&& labels.contains(d)
            &&& theirs <= own
            &&& theirs == own ==> d <= other
        },
        dominant is None ==> !labels.contains(other),
{
    if let Some(d) = dominant {
        lemma_count_same(labels.len(), |j: int| labels[j] == d, labelled(labels, d));
        lemma_count_same(labels.len(), |j: int| labels[j] == other, labelled(labels, other));
        assert(label_count(labels, other) <= label_count(labels, d));
    }
}

/// The largest deviation of a line is no smaller than any of its features' deviations, either way,
/// and is one of them, or zero. A NaN is passed over.
pub proof fn law_largest_deviation(z: Seq<Double>)
    ensures
        !largest_z(z).nan(),
        largest_z(z).at_least(Double { bits: 0 }),
        forall|f: int|
            0 <= f < z.len() && !(#[trigger] z[f]).nan() ==> largest_z(z).at_least(
                z[f].absolute(),
            ),
        largest_z(z).bits == 0 || exists|f: int|
            0 <= f < z.len() && largest_z(z) == (#[trigger] z[f]).absolute(),
    decreases z.len(),
{
    if z.len() > 0 {
        let short = z.drop_last();
        law_largest_deviation(short);
        assert forall|f: int| 0 <= f < z.len() && !(#[trigger] z[f]).nan() implies largest_z(
            z,
        ).at_least(z[f].absolute()) by {
            if f < short.len() {
                assert(short[f] == z[f]);
            }
        }
        if largest_z(z) == largest_z(short) && largest_z(z).bits != 0 {
            let f = choose|f: int|
                0 <= f < short.len() && largest_z(short) == (#[trigger] short[f]).absolute();
            assert(z[f] == short[f]);
        } else if largest_z(z).bits != 0 {
            assert(z[z.len() - 1] == z.last());
        }
    }
}

/// The points of the cluster of point `j` are few, and the cluster is not the dominant one: ten
/// points at most, or one in six.
pub open spec fn few_alike(e: Evidence, j: int) -> bool {
    let n = e.labels@.len();
    let alike = count(n, |k: int| e.labels@[k] == e.labels@[j]);
    e.labels@[j] > 0 && e.dominant != Some(e.labels@[j]) && (alike <= 10 || 6 * alike <= n)
}

proof fn lemma_few_alike(e: Evidence, j: int)
    ensures
        few_alike(e, j) == small_cluster(e.labels@, e.dominant, e.labels@[j]),
{
    lemma_count_same(
        e.labels@.len(),
        |k: int| e.labels@[k] == e.labels@[j],
        labelled(e.labels@, e.labels@[j]),
    );
}

/// A point is off the clusters if it is noise, if its cluster is small and not the dominant one,
/// or if it lies further than 4.0 from the centre; a point of the dominant cluster, or of a large
/// one, that lies no further is not.
pub proof fn law_points_off_the_clusters(e: Evidence, j: int, out: HybOut)
    requires
        0 <= j < e.labels@.len(),
        e.verdict(j, out),
    ensures
        e.labels@[j] == 0 ==> out.dbscan_hit,
        e.dists@[j].above(Double { bits: 0x4010_0000_0000_0000 }) ==> out.dbscan_hit,
        ({
            let n = e.labels@.len();
            let alike = count(n, |k: int| e.labels@[k] == e.labels@[j]);
            let far = e.dists@[j].above(Double { bits: 0x4010_0000_0000_0000 });
            &&& e.labels@[j] > 0 && e.dominant != Some(e.labels@[j]) && alike <= 10
                ==> out.dbscan_hit
            &&& e.labels@[j] > 0 && e.dominant != Some(e.labels@[j]) && 6 * alike <= n
                ==> out.dbscan_hit
            &&& e.labels@[j] > 0 && e.dominant == Some(e.labels@[j]) && !far ==> !out.dbscan_hit
            &&& e.labels@[j] > 0 && alike > 10 && 6 * alike > n && !far ==> !out.dbscan_hit
        }),
{
    lemma_few_alike(e, j);
}

/// A verdict carries the deviations, the largest of them and the label of its point.
pub proof fn law_verdicts_carry_the_evidence(e: Evidence, j: int, out: HybOut, f: int)
    requires
        e.verdict(j, out),
        0 <= f < e.z@[j]@.len(),
        !e.z@[j]@[f].nan(),
    ensures
        out.z@ == e.z@[j]@,
        out.dbscan_label == e.labels@[j],
        out.max_z.at_least(e.z@[j]@[f].absolute()),
        out.max_z.bits == 0 || exists|g: int|
            0 <= g < e.z@[j]@.len() && out.max_z == (#[trigger] e.z@[j]@[g]).absolute(),
{
    law_largest_deviation(e.z@[j]@);
}

/// A candidate off the clusters is reported, and so is every point of its cluster if that is small
/// and there is a dominant one beside it.
pub proof fn law_confirmed_points_are_reported(
    e: Evidence,
    outs: Seq<HybOut>,
    j: int,
    k: int,
)
    requires
        outs.len() == e.labels@.len(),
        forall|i: int| 0 <= i < outs.len() ==> e.verdict(i, #[trigger] outs[i]),
        0 <= j < outs.len(),
        0 <= k < outs.len(),
        e.candidates@[k],
        outs[k].dbscan_hit,
    ensures
        outs[k].anom,
        e.dominant is Some && e.labels@[j] == e.labels@[k] && few_alike(e, j) ==> outs[j].anom,
{
    assert(e.verdict(j, outs[j]) && e.verdict(k, outs[k]));
    assert(e.confirmed(k));
    lemma_few_alike(e, j);
}

/// Point `k` is confirmed: it is a candidate off the clusters itself, or it is in a small cluster,
/// beside a dominant one, with a point that is.
pub open spec fn confirmed_by(e: Evidence, outs: Seq<HybOut>, k: int, m: int) -> bool {
    &&& 0 <= k < outs.len()
    &&& 0 <= m < outs.len()
    &&& e.candidates@[m]
    &&& outs[m].dbscan_hit
    &&& m == k || e.dominant is Some && e.labels@[m] == e.labels@[k] && few_alike(e, k)
}

proof fn lemma_confirmed_by(e: Evidence, outs: Seq<HybOut>, k: int) -> (m: int)
    requires
        outs.len() == e.labels@.len(),
        forall|i: int| 0 <= i < outs.len() ==> e.verdict(i, #[trigger] outs[i]),
        0 <= k < outs.len(),
        e.expanded(k),
    ensures
        confirmed_by(e, outs, k, m),
{
    lemma_few_alike(e, k);
    assert(e.verdict(k, outs[k]));
    if e.confirmed(k) {
        k
    } else {
        let m = choose|m: int|
            0 <= m < e.labels@.len() && e.labels@[m] == e.labels@[k] && #[trigger] e.confirmed(m);
        assert(e.verdict(m, outs[m]));
        m
    }
}

/// A point within a minute of a confirmed one is reported too if its largest deviation exceeds
/// 3.0, or exceeds 2.4 and the point is off the clusters.
pub proof fn law_near_points_are_bridged(
    e: Evidence,
    outs: Seq<HybOut>,
    j: int,
    k: int,
    m: int,
)
    requires
        outs.len() == e.labels@.len(),
        forall|i: int| 0 <= i < outs.len() ==> e.verdict(i, #[trigger] outs[i]),
        0 <= j < outs.len(),
        confirmed_by(e, outs, k, m),
        -60 <= e.times@[j] - e.times@[k] <= 60,
        outs[j].max_z.above(Double { bits: 0x4008_0000_0000_0000 }) || outs[j].dbscan_hit
            && outs[j].max_z.above(Double { bits: 0x4003_3333_3333_3333 }),
    ensures
        outs[j].anom,
{
    assert(e.verdict(j, outs[j]) && e.verdict(k, outs[k]) && e.verdict(m, outs[m]));
    lemma_few_alike(e, k);
    assert(e.confirmed(m));
    assert(e.expanded(k));
}

/// Nothing else is reported: a reported point is confirmed, or lies within a minute of a confirmed
/// one and deviates by more than 3.0, or by more than 2.4 off the clusters.
pub proof fn law_reports_have_a_cause(e: Evidence, outs: Seq<HybOut>, j: int)
    requires
        outs.len() == e.labels@.len(),
        forall|i: int| 0 <= i < outs.len() ==> e.verdict(i, #[trigger] outs[i]),
        0 <= j < outs.len(),
        outs[j].anom,
    ensures
        exists|k: int, m: int| #[trigger]
            confirmed_by(e, outs, k, m) && (k == j || -60 <= e.times@[j] - e.times@[k] <= 60 && (
            outs[j].max_z.above(Double { bits: 0x4008_0000_0000_0000 }) || outs[j].dbscan_hit
                && outs[j].max_z.above(Double { bits: 0x4003_3333_3333_3333 }))),
{
    assert(e.verdict(j, outs[j]));
    if e.expanded(j) {
        let m = lemma_confirmed_by(e, outs, j);
    } else {
        let k = choose|k: int|
            0 <= k < e.labels@.len() && #[trigger] e.expanded(k) && -BRIDGE_SECS <= e.times@[j]
                - e.times@[k] <= BRIDGE_SECS;
        let m = lemma_confirmed_by(e, outs, k);
    }
}

/// The verdicts on a log stand at the lines of the users they are about: each line has the
/// deviations and the label of its own point.
pub proof fn law_verdicts_stand_at_their_lines(
    groups: Seq<UserGroup>,
    evidence: Seq<Evidence>,
    verdicts: Seq<HybOut>,
    g: int,
    k: int,
)
    requires
        judged(groups, evidence, verdicts),
        0 <= g < groups.len(),
        0 <= k < groups[g].members@.len(),
    ensures
        evidence[g].verdict(k, verdicts[groups[g].members@[k] as int]),
        verdicts[groups[g].members@[k] as int].z@ == evidence[g].z@[k]@,
        verdicts[groups[g].members@[k] as int].dbscan_label == evidence[g].labels@[k],
{
    let i = groups[g].members@[k];
}

/// With a dominant cluster, a point is ordinary exactly if it is in that cluster. Without one it is
/// exactly if it is no candidate; if all are candidates, all are ordinary. The points ascend.
pub proof fn law_which_points_are_ordinary(e: Evidence, j: int)
    requires
        e.valid(),
        e.labels@.len() <= usize::MAX,
        0 <= j < e.labels@.len(),
    ensures
        e.dominant matches Some(d) ==> (e.ordinary().contains(j as usize) <==> e.labels@[j] == d),
        e.dominant is None && !e.candidates@[j] ==> e.ordinary().contains(j as usize),
        e.dominant is None && e.candidates@[j] ==> (e.ordinary().contains(j as usize) <==> forall|
            k: int,
        |
            0 <= k < e.labels@.len() ==> e.candidates@[k]),
        forall|a: int, b: int|
            0 <= a < b < e.ordinary().len() ==> e.ordinary()[a] < e.ordinary()[b],
{
    let n = e.labels@.len();
    let all = Seq::new(n, |i: int| i as usize);
    match e.dominant {
        Some(d) => {
            let p = labelled(e.labels@, d);
            lemma_picked(n, p);
            lemma_count_some(n, p);
            let i = choose|i: int| 0 <= i < n && e.labels@[i] == d;
            assert(e.labels@.contains(d));
            assert(p(i));
            assert(p(j) == (e.labels@[j] == d));
        },
        None => {
            let p = unsuspected(e.candidates@);
            lemma_picked(n, p);
            lemma_count_some(n, p);
            assert(p(j) == !e.candidates@[j]);
            assert(all[j] == j as usize);
            if forall|k: int| 0 <= k < n ==> e.candidates@[k] {
                if picked(n, p).len() > 0 {
                    assert(p(picked(n, p)[0] as int));
                }
            } else {
                let k = choose|k: int| 0 <= k < n && !e.candidates@[k];
                assert(p(k));
            }
        },
    }
}

/// A feature's column holds, line by line, the feature of the line.
pub proof fn law_columns(enriched: Seq<Enriched>, members: Seq<usize>, feat: int, k: int)
    requires
        0 <= k < members.len(),
    ensures
        column_of(enriched, members, feat).len() == members.len(),
        column_of(enriched, members, feat)[k] == enriched[members[k] as int].features@[feat],
{
}

/// The baseline spans its lines and is reached by them: no line lies outside its hours or exceeds
/// its largest figures, and some line has the earliest hour, some the latest, some the most
/// operations and some the highest sensitivity.
pub proof fn law_baseline_spans_its_lines(
    logs: Seq<LogRecord>,
    enriched: Seq<Enriched>,
    lines: Seq<usize>,
    base: UserBaseline,
    k: int,
)
    requires
        baseline_of(logs, enriched, lines, base),
        0 <= k < lines.len(),
        forall|q: int|
            0 <= q < lines.len() ==> logs[#[trigger] lines[q] as int].timestamp.hour < 24,
    ensures
        base.work_start_hour <= logs[lines[k] as int].timestamp.hour <= base.work_end_hour,
        enriched[lines[k] as int].count5 <= base.max_count_5min,
        logs[lines[k] as int].sensitivity <= base.max_sensitivity,
        exists|q: int|
            0 <= q < lines.len() && logs[#[trigger] lines[q] as int].timestamp.hour
                == base.work_start_hour,
        exists|q: int|
            0 <= q < lines.len() && logs[#[trigger] lines[q] as int].timestamp.hour
                == base.work_end_hour,
        exists|q: int|
            0 <= q < lines.len() && enriched[#[trigger] lines[q] as int].count5
                == base.max_count_5min,
        exists|q: int|
            0 <= q < lines.len() && logs[#[trigger] lines[q] as int].sensitivity
                == base.max_sensitivity,
{
    assert(logs[lines[k] as int].timestamp.hour < 24);
}

/// Over no lines the baseline is the narrowest: the day starts at 23 and the other figures are 0.
pub proof fn law_baseline_over_no_lines(
    logs: Seq<LogRecord>,
    enriched: Seq<Enriched>,
    base: UserBaseline,
)
    requires
        baseline_of(logs, enriched, Seq::empty(), base),
    ensures
        base.work_start_hour == 23,
        base.work_end_hour == 0,
        base.max_count_5min == 0,
        base.max_sensitivity == 0,
{
}

} // verus!
