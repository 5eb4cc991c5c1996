//! Chain collapsing: merges independent same-key road segments into minimal
//! continuous chains, joining only where a shared intersection has exactly
//! two incident segments within the candidate set. Adjacency is judged on
//! the candidate subset alone, never on the full network graph.
use vstd::prelude::*;
use vstd::multiset::Multiset;
use vstd::seq_lib::group_to_multiset_ensures;
use crate::InfraType;

verus! {

/// Traversal direction of a road within a chain.
#[derive(Clone, Copy, PartialEq, Eq, Structural, Debug)]
pub enum Dir {
    Forwards,
    Backwards,
}

pub open spec fn spec_flip(d: Dir) -> Dir {
    match d {
        Dir::Forwards => Dir::Backwards,
        Dir::Backwards => Dir::Forwards,
    }
}

fn flip(d: Dir) -> (result: Dir)
    ensures
        result == spec_flip(d),
{
    match d {
        Dir::Forwards => Dir::Backwards,
        Dir::Backwards => Dir::Forwards,
    }
}

/// A candidate road segment: its road, its endpoint intersections in
/// forward traversal order, and its grouping key.
#[derive(Clone, Copy)]
pub struct Segment {
    pub road: usize,
    /// Source intersection when traversed forwards.
    pub a: usize,
    /// Destination intersection when traversed forwards.
    pub b: usize,
    pub key: InfraType,
}

/// An ordered run of roads sharing one grouping key. The members stand in
/// head-to-tail traversal order, and `nodes` records the intersections the
/// run passes through, one more than the members: concatenating each
/// member's own-direction geometry yields one continuous line.
pub struct KeyedLineString {
    pub ids: Vec<(usize, Dir)>,
    pub nodes: Vec<usize>,
    pub key: InfraType,
}

/// How many candidate segments are incident to intersection `v`.
pub open spec fn seg_degree(segs: Seq<Segment>, v: usize) -> int
    decreases segs.len(),
{
    if segs.len() == 0 {
        0
    } else {
        seg_degree(segs.drop_last(), v) + if segs.last().a == v || segs.last().b == v {
            1int
        } else {
            0int
        }
    }
}

/// Whether the candidate set holds road `r` with key `k` such that
/// traversing it in direction `d` runs from intersection `u` to `w`.
pub open spec fn input_has(
    segs: Seq<Segment>,
    r: usize,
    d: Dir,
    u: usize,
    w: usize,
    k: InfraType,
) -> bool {
    exists|i: int|
        0 <= i < segs.len() && (#[trigger] segs[i]).road == r && segs[i].key == k && (match d {
            Dir::Forwards => u == segs[i].a && w == segs[i].b,
            Dir::Backwards => u == segs[i].b && w == segs[i].a,
        })
}

/// Structural well-formedness: at least one member, and one more node than
/// members.
pub open spec fn chain_wf(c: KeyedLineString) -> bool {
    &&& c.ids@.len() >= 1
    &&& c.nodes@.len() == c.ids@.len() + 1
}

/// Every member's span is a candidate segment of the chain's key, traversed
/// in the member's own direction between consecutive chain nodes.
pub open spec fn chain_spans_input(c: KeyedLineString, segs: Seq<Segment>) -> bool {
    forall|i: int|
        0 <= i < c.ids@.len() ==> input_has(
            segs,
            (#[trigger] c.ids@[i]).0,
            c.ids@[i].1,
            c.nodes@[i],
            c.nodes@[i + 1],
            c.key,
        )
}

/// Every interior node of the chain has exactly two incident candidate
/// segments: merging never crossed a junction of higher degree.
pub open spec fn chain_interior_deg2(c: KeyedLineString, segs: Seq<Segment>) -> bool {
    forall|i: int| 1 <= i < c.ids@.len() ==> seg_degree(segs, #[trigger] c.nodes@[i]) == 2
}

pub open spec fn chain_ok(c: KeyedLineString, segs: Seq<Segment>) -> bool {
    &&& chain_wf(c)
    &&& chain_spans_input(c, segs)
    &&& chain_interior_deg2(c, segs)
}

/// The roads of a chain's members, in order.
pub open spec fn chain_roads(c: KeyedLineString) -> Seq<usize> {
    c.ids@.map_values(|p: (usize, Dir)| p.0)
}

/// The roads of every chain, as a multiset.
pub open spec fn all_roads(cs: Seq<KeyedLineString>) -> Multiset<usize>
    decreases cs.len(),
{
    if cs.len() == 0 {
        Multiset::empty()
    } else {
        all_roads(cs.drop_last()).add(chain_roads(cs.last()).to_multiset())
    }
}

/// The roads of the candidate segments, in order.
pub open spec fn seg_roads(segs: Seq<Segment>) -> Seq<usize> {
    segs.map_values(|s: Segment| s.road)
}

/// Removing one chain removes exactly its roads from the total.
proof fn lemma_all_roads_remove(cs: Seq<KeyedLineString>, i: int)
    requires
        0 <= i < cs.len(),
    ensures
        all_roads(cs) =~= all_roads(cs.remove(i)).add(chain_roads(cs[i]).to_multiset()),
    decreases cs.len(),
{
    if i == cs.len() - 1 {
        assert(cs.remove(i) =~= cs.drop_last());
    } else {
        lemma_all_roads_remove(cs.drop_last(), i);
        assert(cs.remove(i).drop_last() =~= cs.drop_last().remove(i));
        assert(cs.remove(i).last() == cs.last());
        assert(cs.drop_last()[i] == cs[i]);
    }
}

/// A road on some chain is counted in the total.
pub proof fn lemma_all_roads_member(cs: Seq<KeyedLineString>, i: int, r: usize)
    requires
        0 <= i < cs.len(),
        chain_roads(cs[i]).contains(r),
    ensures
        all_roads(cs).count(r) >= 1,
    decreases cs.len(),
{
    chain_roads(cs[i]).to_multiset_ensures();
    if i == cs.len() - 1 {
        lemma_all_roads_nonneg(cs.drop_last(), r);
    } else {
        assert(cs.drop_last()[i] == cs[i]);
        lemma_all_roads_member(cs.drop_last(), i, r);
        chain_roads(cs.last()).to_multiset_ensures();
    }
}

proof fn lemma_all_roads_nonneg(cs: Seq<KeyedLineString>, r: usize)
    ensures
        all_roads(cs).count(r) >= 0,
{
}

/// A road counted on the chains lies on some chain.
pub proof fn lemma_all_roads_source(cs: Seq<KeyedLineString>, r: usize)
    requires
        all_roads(cs).count(r) >= 1,
    ensures
        exists|i: int| 0 <= i < cs.len() && chain_roads(#[trigger] cs[i]).contains(r),
    decreases cs.len(),
{
    if cs.len() > 0 {
        chain_roads(cs.last()).to_multiset_ensures();
        if chain_roads(cs.last()).to_multiset().count(r) >= 1 {
            assert(chain_roads(cs[cs.len() - 1]).contains(r));
        } else {
            lemma_all_roads_source(cs.drop_last(), r);
            let i = choose|i: int|
                0 <= i < cs.drop_last().len() && chain_roads(#[trigger] cs.drop_last()[i]).contains(
                    r,
                );
            assert(cs.drop_last()[i] == cs[i]);
            assert(chain_roads(cs[i]).contains(r));
        }
    }
}

/// One chain's roads are counted within the total.
pub proof fn lemma_chain_le_all(cs: Seq<KeyedLineString>, i: int)
    requires
        0 <= i < cs.len(),
    ensures
        forall|r: usize|
            #[trigger] chain_roads(cs[i]).to_multiset().count(r) <= all_roads(cs).count(r),
{
    lemma_all_roads_remove(cs, i);
}

/// A road on two different chains is counted at least twice.
pub proof fn lemma_all_roads_two(cs: Seq<KeyedLineString>, i: int, j: int, r: usize)
    requires
        0 <= i < cs.len(),
        0 <= j < cs.len(),
        i != j,
        chain_roads(cs[i]).contains(r),
        chain_roads(cs[j]).contains(r),
    ensures
        all_roads(cs).count(r) >= 2,
{
    let a = if i < j {
        i
    } else {
        j
    };
    let b = if i < j {
        j
    } else {
        i
    };
    lemma_all_roads_remove(cs, b);
    assert(cs.remove(b)[a] == cs[a]);
    lemma_all_roads_member(cs.remove(b), a, r);
    chain_roads(cs[b]).to_multiset_ensures();
}

/// There are no more chains than roads on them.
pub proof fn lemma_chain_count_le_roads(cs: Seq<KeyedLineString>)
    requires
        forall|i: int| 0 <= i < cs.len() ==> chain_wf(#[trigger] cs[i]),
    ensures
        cs.len() <= all_roads(cs).len(),
    decreases cs.len(),
{
    if cs.len() > 0 {
        lemma_chain_count_le_roads(cs.drop_last());
        chain_roads(cs.last()).to_multiset_ensures();
        assert(chain_wf(cs[cs.len() - 1]));
        assert(chain_roads(cs.last()).to_multiset().len() >= 1);
    }
}

/// Counts the candidate segments incident to intersection `v`.
fn degree_of(segments: &Vec<Segment>, v: usize) -> (result: usize)
    ensures
        result == seg_degree(segments@, v),
{
    let mut count: usize = 0;
    let mut i: usize = 0;
    while i < segments.len()
        invariant
            i <= segments@.len(),
            count == seg_degree(segments@.subrange(0, i as int), v),
            count <= i,
        decreases segments@.len() - i,
    {
        proof {
            assert(segments@.subrange(0, i + 1).drop_last() =~= segments@.subrange(0, i as int));
        }
        if segments[i].a == v || segments[i].b == v {
            count += 1;
        }
        i += 1;
    }
    proof {
        assert(segments@.subrange(0, segments@.len() as int) =~= segments@);
    }
    count
}

/// The same chain walked end to start, every member's direction flipped.
fn reverse_chain(c: &KeyedLineString, Ghost(segs): Ghost<Seq<Segment>>) -> (result:
    KeyedLineString)
    requires
        chain_ok(*c, segs),
    ensures
        chain_ok(result, segs),
        result.key == c.key,
        result.ids@.len() == c.ids@.len(),
        result.nodes@[0] == c.nodes@[c.nodes@.len() - 1],
        result.nodes@[result.nodes@.len() - 1] == c.nodes@[0],
        chain_roads(result).to_multiset() == chain_roads(*c).to_multiset(),
{
    let n = c.ids.len();
    let mut ids: Vec<(usize, Dir)> = Vec::new();
    let mut i: usize = 0;
    while i < n
        invariant
            n == c.ids@.len(),
            i <= n,
            ids@.len() == i,
            forall|j: int|
                0 <= j < i ==> #[trigger] ids@[j] == (
                c.ids@[n - 1 - j].0,
                spec_flip(c.ids@[n - 1 - j].1),
            ),
        decreases n - i,
    {
        let (road, d) = c.ids[n - 1 - i];
        ids.push((road, flip(d)));
        i += 1;
    }
    let m = c.nodes.len();
    let mut nodes: Vec<usize> = Vec::new();
    let mut i: usize = 0;
    while i < m
        invariant
            m == c.nodes@.len(),
            i <= m,
            nodes@.len() == i,
            forall|j: int| 0 <= j < i ==> #[trigger] nodes@[j] == c.nodes@[m - 1 - j],
        decreases m - i,
    {
        nodes.push(c.nodes[m - 1 - i]);
        i += 1;
    }
    let result = KeyedLineString { ids, nodes, key: c.key };
    proof {
        assert(chain_wf(result));
        assert forall|i: int| 0 <= i < result.ids@.len() implies input_has(
            segs,
            (#[trigger] result.ids@[i]).0,
            result.ids@[i].1,
            result.nodes@[i],
            result.nodes@[i + 1],
            result.key,
        ) by {
            let j = n - 1 - i;
            assert(input_has(segs, c.ids@[j].0, c.ids@[j].1, c.nodes@[j], c.nodes@[j + 1], c.key));
            assert(result.ids@[i].0 == c.ids@[j].0);
            assert(result.ids@[i].1 == spec_flip(c.ids@[j].1));
            assert(result.nodes@[i] == c.nodes@[m - 1 - i]);
            assert(m - 1 - i == j + 1);
            assert(result.nodes@[i + 1] == c.nodes@[j]);
        }
        assert forall|i: int| 1 <= i < result.ids@.len() implies seg_degree(
            segs,
            #[trigger] result.nodes@[i],
        ) == 2 by {
            assert(result.nodes@[i] == c.nodes@[m - 1 - i]);
            assert(1 <= m - 1 - i < c.ids@.len());
        }
        assert(chain_roads(result) =~= chain_roads(*c).reverse());
        chain_roads(*c).lemma_reverse_to_multiset();
    }
    result
}

/// Concatenates two chains of one key that meet head to tail at a shared
/// intersection of degree two.
fn concat_chains(x: KeyedLineString, y: KeyedLineString, Ghost(segs): Ghost<Seq<Segment>>) -> (
    result: KeyedLineString)
    requires
        chain_ok(x, segs),
        chain_ok(y, segs),
        x.key == y.key,
        x.nodes@[x.nodes@.len() - 1] == y.nodes@[0],
        seg_degree(segs, y.nodes@[0]) == 2,
    ensures
        chain_ok(result, segs),
        result.key == x.key,
        chain_roads(result).to_multiset() == chain_roads(x).to_multiset().add(
            chain_roads(y).to_multiset(),
        ),
{
    let ghost xids = x.ids@;
    let ghost yids = y.ids@;
    let ghost xnodes = x.nodes@;
    let ghost ynodes = y.nodes@;
    let mut ids = x.ids;
    let mut y_ids = y.ids;
    ids.append(&mut y_ids);
    let mut nodes = x.nodes;
    let mut k: usize = 1;
    while k < y.nodes.len()
        invariant
            1 <= k <= ynodes.len(),
            ynodes == y.nodes@,
            nodes@ == xnodes + ynodes.subrange(1, k as int),
        decreases ynodes.len() - k,
    {
        nodes.push(y.nodes[k]);
        proof {
            assert(nodes@ =~= xnodes + ynodes.subrange(1, k + 1));
        }
        k += 1;
    }
    let result = KeyedLineString { ids, nodes, key: x.key };
    proof {
        let n = xids.len() as int;
        assert(ynodes.subrange(1, ynodes.len() as int).len() == ynodes.len() - 1);
        assert(chain_wf(result));
        assert forall|i: int| 0 <= i < result.ids@.len() implies input_has(
            segs,
            (#[trigger] result.ids@[i]).0,
            result.ids@[i].1,
            result.nodes@[i],
            result.nodes@[i + 1],
            result.key,
        ) by {
            if i < n {
                assert(result.ids@[i] == xids[i]);
                assert(result.nodes@[i] == xnodes[i]);
                if i + 1 <= n {
                    assert(result.nodes@[i + 1] == xnodes[i + 1]);
                } else {
                    assert(result.nodes@[i + 1] == ynodes[1]);
                }
                assert(input_has(segs, xids[i].0, xids[i].1, xnodes[i], xnodes[i + 1], x.key));
                assert(xnodes[n] == ynodes[0]);
            } else {
                let j = i - n;
                assert(result.ids@[i] == yids[j]);
                assert(input_has(segs, yids[j].0, yids[j].1, ynodes[j], ynodes[j + 1], y.key));
                if j == 0 {
                    assert(result.nodes@[i] == xnodes[n] == ynodes[0]);
                } else {
                    assert(result.nodes@[i] == ynodes.subrange(1, ynodes.len() as int)[j - 1]);
                    assert(result.nodes@[i] == ynodes[j]);
                }
                assert(result.nodes@[i + 1] == ynodes.subrange(1, ynodes.len() as int)[j]);
                assert(result.nodes@[i + 1] == ynodes[j + 1]);
            }
        }
        assert forall|i: int| 1 <= i < result.ids@.len() implies seg_degree(
            segs,
            #[trigger] result.nodes@[i],
        ) == 2 by {
            if i < n {
                assert(result.nodes@[i] == xnodes[i]);
            } else if i == n {
                assert(result.nodes@[i] == xnodes[n] == ynodes[0]);
                assert(seg_degree(segs, ynodes[0]) == 2);
            } else {
                assert(result.nodes@[i] == ynodes.subrange(1, ynodes.len() as int)[i - n - 1]);
                assert(result.nodes@[i] == ynodes[i - n]);
                assert(1 <= i - n < yids.len());
            }
        }
        assert(chain_roads(result) =~= chain_roads(x) + chain_roads(y)) by {
            assert(result.ids@ =~= xids + yids);
            assert forall|i: int| 0 <= i < result.ids@.len() implies #[trigger] chain_roads(
                result,
            )[i] == (chain_roads(x) + chain_roads(y))[i] by {
                if i < n {
                    assert(result.ids@[i] == xids[i]);
                } else {
                    assert(result.ids@[i] == yids[i - n]);
                }
            }
        }
        vstd::seq_lib::lemma_seq_union_to_multiset_commutative(chain_roads(x), chain_roads(y));
        assert((chain_roads(x) + chain_roads(y)).to_multiset() =~= chain_roads(x).to_multiset().add(
            chain_roads(y).to_multiset(),
        )) by {
            vstd::seq_lib::lemma_multiset_commutative(chain_roads(x), chain_roads(y));
        }
    }
    result
}

/// Whether two chains could still merge: their keys are equal and some
/// end of one meets some end of the other at an intersection with exactly
/// two incident candidate segments.
pub open spec fn mergeable(x: KeyedLineString, y: KeyedLineString, segs: Seq<Segment>) -> bool {
    let xf = x.nodes@[0];
    let xl = x.nodes@[x.nodes@.len() - 1];
    let yf = y.nodes@[0];
    let yl = y.nodes@[y.nodes@.len() - 1];
    x.key == y.key && ((xl == yf && seg_degree(segs, xl) == 2) || (xl == yl && seg_degree(segs, xl)
        == 2) || (xf == yf && seg_degree(segs, xf) == 2) || (xf == yl && seg_degree(segs, xf)
        == 2))
}

/// How a mergeable pair of chains meets: which end of the first touches
/// which end of the second.
#[derive(Clone, Copy, PartialEq, Eq, Structural, Debug)]
enum MergeKind {
    LastFirst,
    LastLast,
    FirstFirst,
    FirstLast,
}

spec fn merge_ok(x: KeyedLineString, y: KeyedLineString, kind: MergeKind, segs: Seq<Segment>) -> bool {
    let xf = x.nodes@[0];
    let xl = x.nodes@[x.nodes@.len() - 1];
    let yf = y.nodes@[0];
    let yl = y.nodes@[y.nodes@.len() - 1];
    &&& x.key == y.key
    &&& match kind {
        MergeKind::LastFirst => xl == yf && seg_degree(segs, xl) == 2,
        MergeKind::LastLast => xl == yl && seg_degree(segs, xl) == 2,
        MergeKind::FirstFirst => xf == yf && seg_degree(segs, xf) == 2,
        MergeKind::FirstLast => xf == yl && seg_degree(segs, xf) == 2,
    }
}

/// Looks for any two chains that may merge: equal keys, meeting at an
/// intersection with exactly two incident candidate segments.
fn find_merge(chains: &Vec<KeyedLineString>, segments: &Vec<Segment>) -> (result: Option<
    (usize, usize, MergeKind),
>)
    requires
        forall|i: int| 0 <= i < chains@.len() ==> chain_wf(#[trigger] chains@[i]),
    ensures
        match result {
            Some((i, j, kind)) => i < j < chains@.len() && merge_ok(
                chains@[i as int],
                chains@[j as int],
                kind,
                segments@,
            ),
            None => forall|a: int, b: int|
                0 <= a < b < chains@.len() ==> !mergeable(
                    #[trigger] chains@[a],
                    #[trigger] chains@[b],
                    segments@,
                ),
        },
{
    let n = chains.len();
    let mut i: usize = 0;
    while i < n
        invariant
            n == chains@.len(),
            forall|k: int| 0 <= k < chains@.len() ==> chain_wf(#[trigger] chains@[k]),
            forall|a: int, b: int|
                0 <= a < i && a < b < chains@.len() ==> !mergeable(
                    #[trigger] chains@[a],
                    #[trigger] chains@[b],
                    segments@,
                ),
        decreases n - i,
    {
        let mut j: usize = i + 1;
        while j < n
            invariant
                i < j || j == i + 1,
                n == chains@.len(),
                i < n,
                forall|k: int| 0 <= k < chains@.len() ==> chain_wf(#[trigger] chains@[k]),
                forall|a: int, b: int|
                    0 <= a < i && a < b < chains@.len() ==> !mergeable(
                        #[trigger] chains@[a],
                        #[trigger] chains@[b],
                        segments@,
                    ),
                forall|b: int|
                    i < b < j ==> !mergeable(
                        chains@[i as int],
                        #[trigger] chains@[b],
                        segments@,
                    ),
            decreases n - j,
        {
            if chains[i].key == chains[j].key {
                let xf = chains[i].nodes[0];
                let xl = chains[i].nodes[chains[i].nodes.len() - 1];
                let yf = chains[j].nodes[0];
                let yl = chains[j].nodes[chains[j].nodes.len() - 1];
                if xl == yf && degree_of(segments, xl) == 2 {
                    return Some((i, j, MergeKind::LastFirst));
                }
                if xl == yl && degree_of(segments, xl) == 2 {
                    return Some((i, j, MergeKind::LastLast));
                }
                if xf == yf && degree_of(segments, xf) == 2 {
                    return Some((i, j, MergeKind::FirstFirst));
                }
                if xf == yl && degree_of(segments, xf) == 2 {
                    return Some((i, j, MergeKind::FirstLast));
                }
            }
            j += 1;
        }
        i += 1;
    }
    None
}

/// Collapses the candidate segments into minimal continuous chains: two
/// candidates merge, transitively, exactly when their keys are equal and
/// their shared intersection has exactly two incident candidates. The
/// result covers each input road once, every chain is continuous in
/// head-to-tail order over candidate spans of its own key, and no chain
/// crosses a key change or an intersection of degree three or more.
pub fn collapse_degree_2(segments: Vec<Segment>) -> (result: Vec<KeyedLineString>)
    ensures
        all_roads(result@) == seg_roads(segments@).to_multiset(),
        forall|i: int| 0 <= i < result@.len() ==> chain_ok(#[trigger] result@[i], segments@),
        forall|i: int, j: int|
            0 <= i < result@.len() && 0 <= j < result@.len() && i != j ==> !mergeable(
                #[trigger] result@[i],
                #[trigger] result@[j],
                segments@,
            ),
{
    broadcast use group_to_multiset_ensures;

    // One single-member chain per candidate segment.
    let mut chains: Vec<KeyedLineString> = Vec::new();
    let mut s: usize = 0;
    while s < segments.len()
        invariant
            s <= segments@.len(),
            all_roads(chains@) == seg_roads(segments@.subrange(0, s as int)).to_multiset(),
            forall|i: int| 0 <= i < chains@.len() ==> chain_ok(#[trigger] chains@[i], segments@),
        decreases segments@.len() - s,
    {
        let seg = segments[s];
        let mut ids: Vec<(usize, Dir)> = Vec::new();
        ids.push((seg.road, Dir::Forwards));
        let mut nodes: Vec<usize> = Vec::new();
        nodes.push(seg.a);
        nodes.push(seg.b);
        let c = KeyedLineString { ids, nodes, key: seg.key };
        proof {
            assert(input_has(segments@, seg.road, Dir::Forwards, seg.a, seg.b, seg.key));
            assert(chain_ok(c, segments@));
        }
        let ghost pre = chains@;
        chains.push(c);
        proof {
            assert(chains@.drop_last() =~= pre);
            let e = Seq::<usize>::empty();
            assert(chain_roads(c) =~= e.push(seg.road));
            assert(seg_roads(segments@.subrange(0, s + 1)) =~= seg_roads(
                segments@.subrange(0, s as int),
            ).push(seg.road));
            assert forall|x: usize| e.to_multiset().count(x) == 0 by {
                e.to_multiset_ensures();
                assert(!e.contains(x));
            }
            vstd::seq_lib::to_multiset_build(e, seg.road);
            assert(chain_roads(c).to_multiset() == e.push(seg.road).to_multiset());
            let prefix = seg_roads(segments@.subrange(0, s as int));
            vstd::seq_lib::to_multiset_build(prefix, seg.road);
            assert(all_roads(chains@) == prefix.to_multiset().add(chain_roads(c).to_multiset()));
            assert(all_roads(chains@) =~= seg_roads(segments@.subrange(0, s + 1)).to_multiset());
        }
        s += 1;
    }
    proof {
        assert(segments@.subrange(0, segments@.len() as int) =~= segments@);
    }

    // Merge while any two chains may: each merge removes one chain.
    loop
        invariant
            all_roads(chains@) == seg_roads(segments@).to_multiset(),
            forall|i: int| 0 <= i < chains@.len() ==> chain_ok(#[trigger] chains@[i], segments@),
        decreases chains@.len(),
    {
        match find_merge(&chains, &segments) {
            Some((i, j, kind)) => {
                let ghost pre = chains@;
                let y = chains.remove(j);
                let x = chains.remove(i);
                proof {
                    lemma_all_roads_remove(pre, j as int);
                    lemma_all_roads_remove(pre.remove(j as int), i as int);
                    assert(pre.remove(j as int)[i as int] == pre[i as int]);
                }
                let merged = match kind {
                    MergeKind::LastFirst => concat_chains(x, y, Ghost(segments@)),
                    MergeKind::LastLast => {
                        let yr = reverse_chain(&y, Ghost(segments@));
                        concat_chains(x, yr, Ghost(segments@))
                    },
                    MergeKind::FirstFirst => {
                        let xr = reverse_chain(&x, Ghost(segments@));
                        concat_chains(xr, y, Ghost(segments@))
                    },
                    MergeKind::FirstLast => concat_chains(y, x, Ghost(segments@)),
                };
                let ghost mid = chains@;
                chains.push(merged);
                proof {
                    assert(chains@.drop_last() =~= mid);
                    assert(all_roads(chains@) =~= seg_roads(segments@).to_multiset()) by {
                        assert(all_roads(chains@) == all_roads(mid).add(
                            chain_roads(merged).to_multiset(),
                        ));
                        assert(chain_roads(merged).to_multiset() == chain_roads(
                            pre[i as int],
                        ).to_multiset().add(chain_roads(pre[j as int]).to_multiset())
                            || chain_roads(merged).to_multiset() == chain_roads(
                            pre[j as int],
                        ).to_multiset().add(chain_roads(pre[i as int]).to_multiset()));
                    }
                }
            },
            None => {
                proof {
                    assert forall|a: int, b: int|
                        0 <= a < chains@.len() && 0 <= b < chains@.len() && a != b implies
                        !mergeable(#[trigger] chains@[a], #[trigger] chains@[b], segments@) by {
                        if a < b {
                            assert(!mergeable(chains@[a], chains@[b], segments@));
                        } else {
                            assert(!mergeable(chains@[b], chains@[a], segments@));
                        }
                    }
                }
                return chains;
            },
        }
    }
}

} // verus!
