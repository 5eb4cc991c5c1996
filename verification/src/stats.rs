//! The network quality scorecard: origin-destination flow counts bucketed
//! by each road's current classification, with an "off network" bucket for
//! unclaimed roads. Flow counting itself is an external collaborator; this
//! aggregates whatever counts it hands over.
use vstd::prelude::*;
use crate::{infra_for, InfraType, MapModel};

verus! {

/// Flow totals per bucket. A bucket's fraction of the total is its count
/// over `total`, read as zero when `total` is zero.
pub struct Stats {
    /// One entry per bucket: the claimed infrastructure type, or `None`
    /// for roads off the edited network, with the flow that bucket drew.
    pub od_counts: Vec<(Option<InfraType>, u64)>,
    /// The flow over all roads.
    pub total: u64,
}

/// The fixed bucket order of the scorecard.
pub open spec fn bucket_at(k: int) -> Option<InfraType> {
    if k == 0 {
        None
    } else if k == 1 {
        Some(InfraType::SegregatedWide)
    } else if k == 2 {
        Some(InfraType::OffRoad)
    } else if k == 3 {
        Some(InfraType::SegregatedNarrow)
    } else if k == 4 {
        Some(InfraType::SharedFootway)
    } else if k == 5 {
        Some(InfraType::CycleLane)
    } else if k == 6 {
        Some(InfraType::MixedTraffic)
    } else {
        Some(InfraType::Unknown)
    }
}

/// The flow drawn by one bucket over the first `n` roads.
pub open spec fn bucket_sum(
    rs: Seq<(usize, crate::Route)>,
    od: Seq<u64>,
    bucket: Option<InfraType>,
    n: int,
) -> int
    decreases n,
{
    if n <= 0 {
        0
    } else {
        bucket_sum(rs, od, bucket, n - 1) + if infra_for(rs, (n - 1) as usize) == bucket {
            od[n - 1] as int
        } else {
            0int
        }
    }
}

/// The flow over the first `n` roads.
pub open spec fn total_sum(od: Seq<u64>, n: int) -> int
    decreases n,
{
    if n <= 0 {
        0
    } else {
        total_sum(od, n - 1) + od[n - 1] as int
    }
}

/// Every bucket draws between none and all of the flow.
pub proof fn lemma_bucket_le_total(
    rs: Seq<(usize, crate::Route)>,
    od: Seq<u64>,
    bucket: Option<InfraType>,
    n: int,
)
    ensures
        0 <= bucket_sum(rs, od, bucket, n) <= total_sum(od, n),
    decreases n,
{
    if n > 0 {
        lemma_bucket_le_total(rs, od, bucket, n - 1);
    }
}

/// The flow only grows with the number of roads counted.
pub proof fn lemma_total_monotone(od: Seq<u64>, i: int, j: int)
    requires
        i <= j,
    ensures
        total_sum(od, i) <= total_sum(od, j),
    decreases j - i,
{
    if i < j {
        lemma_total_monotone(od, i, j - 1);
    }
}

/// The eight buckets' flows added up.
pub open spec fn buckets_total(rs: Seq<(usize, crate::Route)>, od: Seq<u64>, n: int) -> int {
    bucket_sum(rs, od, bucket_at(0), n) + bucket_sum(rs, od, bucket_at(1), n) + bucket_sum(
        rs,
        od,
        bucket_at(2),
        n,
    ) + bucket_sum(rs, od, bucket_at(3), n) + bucket_sum(rs, od, bucket_at(4), n) + bucket_sum(
        rs,
        od,
        bucket_at(5),
        n,
    ) + bucket_sum(rs, od, bucket_at(6), n) + bucket_sum(rs, od, bucket_at(7), n)
}

/// Every road's flow lands in exactly one bucket, so the buckets partition
/// the total flow.
pub proof fn lemma_buckets_partition_total(rs: Seq<(usize, crate::Route)>, od: Seq<u64>, n: int)
    ensures
        buckets_total(rs, od, n) == total_sum(od, n),
    decreases n,
{
    if n > 0 {
        lemma_buckets_partition_total(rs, od, n - 1);
        let it = infra_for(rs, (n - 1) as usize);
        assert(match it {
            None => it == bucket_at(0),
            Some(InfraType::SegregatedWide) => it == bucket_at(1),
            Some(InfraType::OffRoad) => it == bucket_at(2),
            Some(InfraType::SegregatedNarrow) => it == bucket_at(3),
            Some(InfraType::SharedFootway) => it == bucket_at(4),
            Some(InfraType::CycleLane) => it == bucket_at(5),
            Some(InfraType::MixedTraffic) => it == bucket_at(6),
            Some(InfraType::Unknown) => it == bucket_at(7),
        });
    }
}

impl MapModel {
    /// Aggregates per-road flow counts into the scorecard: each road's flow
    /// lands in the bucket of its current classification, or off network
    /// when unclaimed. With no flow at all, every bucket reports zero.
    pub fn recalculate_stats(&self, od: &Vec<u64>) -> (result: Stats)
        requires
            self.wf(),
            od@.len() == self.num_roads,
            total_sum(od@, self.num_roads as int) <= u64::MAX,
        ensures
            result.total == total_sum(od@, self.num_roads as int),
            result.od_counts@.len() == 8,
            forall|k: int|
                0 <= k < 8 ==> (#[trigger] result.od_counts@[k]) == (
                bucket_at(k),
                bucket_sum(
                    self.routes_seq(),
                    od@,
                    bucket_at(k),
                    self.num_roads as int,
                ) as u64,
            ),
            result.total == 0 ==> forall|k: int| 0 <= k < 8 ==> (#[trigger] result.od_counts@[k]).1
                == 0,
            result.od_counts@[0].1 + result.od_counts@[1].1 + result.od_counts@[2].1
                + result.od_counts@[3].1 + result.od_counts@[4].1 + result.od_counts@[5].1
                + result.od_counts@[6].1 + result.od_counts@[7].1 == result.total,
    {
        let buckets: [Option<InfraType>; 8] = [
            None,
            Some(InfraType::SegregatedWide),
            Some(InfraType::OffRoad),
            Some(InfraType::SegregatedNarrow),
            Some(InfraType::SharedFootway),
            Some(InfraType::CycleLane),
            Some(InfraType::MixedTraffic),
            Some(InfraType::Unknown),
        ];
        let mut od_counts: Vec<(Option<InfraType>, u64)> = Vec::new();
        let mut k: usize = 0;
        while k < 8
            invariant
                self.wf(),
                od@.len() == self.num_roads,
                total_sum(od@, self.num_roads as int) <= u64::MAX,
                forall|j: int| 0 <= j < 8 ==> buckets@[j] == bucket_at(j),
                k <= 8,
                od_counts@.len() == k,
                forall|j: int|
                    0 <= j < k ==> (#[trigger] od_counts@[j]) == (
                    bucket_at(j),
                    bucket_sum(
                        self.routes_seq(),
                        od@,
                        bucket_at(j),
                        self.num_roads as int,
                    ) as u64,
                ),
            decreases 8 - k,
        {
            let count = self.bucket_count(od, buckets[k]);
            od_counts.push((buckets[k], count));
            k += 1;
        }
        let total = self.od_total(od);
        proof {
            lemma_buckets_partition_total(self.routes_seq(), od@, self.num_roads as int);
            assert forall|k: int| 0 <= k < 8 implies 0 <= bucket_sum(
                self.routes_seq(),
                od@,
                bucket_at(k),
                self.num_roads as int,
            ) by {
                lemma_bucket_le_total(self.routes_seq(), od@, bucket_at(k), self.num_roads as int);
            }
            if total == 0 {
                assert forall|j: int| 0 <= j < 8 implies (#[trigger] od_counts@[j]).1 == 0 by {
                    lemma_bucket_le_total(
                        self.routes_seq(),
                        od@,
                        bucket_at(j),
                        self.num_roads as int,
                    );
                }
            }
        }
        Stats { od_counts, total }
    }

    /// Sums the flow of the roads whose classification is `bucket`.
    fn bucket_count(&self, od: &Vec<u64>, bucket: Option<InfraType>) -> (result: u64)
        requires
            self.wf(),
            od@.len() == self.num_roads,
            total_sum(od@, self.num_roads as int) <= u64::MAX,
        ensures
            result == bucket_sum(self.routes_seq(), od@, bucket, self.num_roads as int),
    {
        let mut sum: u64 = 0;
        let mut r: usize = 0;
        while r < self.num_roads
            invariant
                self.wf(),
                od@.len() == self.num_roads,
                total_sum(od@, self.num_roads as int) <= u64::MAX,
                r <= self.num_roads,
                sum == bucket_sum(self.routes_seq(), od@, bucket, r as int),
            decreases self.num_roads - r,
        {
            proof {
                lemma_bucket_le_total(self.routes_seq(), od@, bucket, r + 1);
                lemma_total_monotone(od@, r + 1, self.num_roads as int);
            }
            let it = self.infra_type_lookup(r);
            let same = match (it, bucket) {
                (Option::None, Option::None) => true,
                (Some(p), Some(q)) => crate::routes::infra_eq(p, q),
                _ => false,
            };
            if same {
                sum = sum + od[r];
            }
            r += 1;
        }
        sum
    }

    /// Sums the flow over every road.
    fn od_total(&self, od: &Vec<u64>) -> (result: u64)
        requires
            od@.len() == self.num_roads,
            total_sum(od@, self.num_roads as int) <= u64::MAX,
        ensures
            result == total_sum(od@, self.num_roads as int),
    {
        let mut sum: u64 = 0;
        let mut r: usize = 0;
        while r < self.num_roads
            invariant
                od@.len() == self.num_roads,
                total_sum(od@, self.num_roads as int) <= u64::MAX,
                r <= self.num_roads,
                sum == total_sum(od@, r as int),
            decreases self.num_roads - r,
        {
            proof {
                lemma_total_monotone(od@, r + 1, self.num_roads as int);
            }
            sum = sum + od[r];
            r += 1;
        }
        sum
    }
}

} // verus!
