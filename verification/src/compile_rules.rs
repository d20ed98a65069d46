//! Structure of an evolved network as the rule listing reads it: which nodes feed an
//! output, and how deep each node sits.
use std::collections::{HashMap, HashSet};
use vstd::prelude::*;
use crate::constants::{BIAS_ID, FIRST_HIDDEN_ID, OUTPUT_COUNT, OUTPUT_START};

verus! {

broadcast use vstd::std_specs::hash::group_hash_axioms;

/// A connection of a network genome: node `src` feeds node `dst` while it is enabled.
#[derive(Clone, Copy, Debug)]
pub struct ConnGene {
    pub src: usize,
    pub dst: usize,
    pub enabled: bool,
}

/// Node `n` is one of the network's outputs.
pub open spec fn is_output(n: int) -> bool {
    OUTPUT_START <= n < OUTPUT_START + OUTPUT_COUNT
}

/// Node `a` feeds node `b` through an enabled connection.
pub open spec fn feeds(conns: Seq<ConnGene>, a: int, b: int) -> bool {
    exists|i: int| 0 <= i < conns.len() && #[trigger] conns[i].enabled && conns[i].src == a && conns[i].dst == b
}

/// Node `n` reaches an output through at most `k` enabled connections.
pub open spec fn reaches_within(conns: Seq<ConnGene>, n: int, k: nat) -> bool
    decreases k,
{
    is_output(n) || (k > 0 && exists|m: int| #[trigger] feeds(conns, n, m) && reaches_within(conns, m, (k - 1) as nat))
}

/// Node `n` reaches an output through enabled connections.
pub open spec fn reaches_output(conns: Seq<ConnGene>, n: int) -> bool {
    exists|k: nat| #[trigger] reaches_within(conns, n, k)
}

/// The number of connections below `n` whose source is not in `s`.
pub open spec fn unmarked(conns: Seq<ConnGene>, s: Set<usize>, n: int) -> nat
    decreases n,
{
    if n <= 0 {
        0
    } else {
        unmarked(conns, s, n - 1) + if s.contains(conns[n - 1].src) {
            0nat
        } else {
            1nat
        }
    }
}

/// Marking more sources leaves no more connections unmarked, and strictly fewer when a
/// connection's source gets marked.
proof fn lemma_unmarked_shrinks(conns: Seq<ConnGene>, s: Set<usize>, t: Set<usize>, n: int)
    requires
        s.subset_of(t),
    ensures
        unmarked(conns, t, n) <= unmarked(conns, s, n),
        (exists|i: int| 0 <= i < n && !s.contains(#[trigger] conns[i].src) && t.contains(conns[i].src))
            ==> unmarked(conns, t, n) < unmarked(conns, s, n),
    decreases n,
{
    if n > 0 {
        lemma_unmarked_shrinks(conns, s, t, n - 1);
        if exists|i: int| 0 <= i < n && !s.contains(#[trigger] conns[i].src) && t.contains(conns[i].src) {
            let i = choose|i: int| 0 <= i < n && !s.contains(#[trigger] conns[i].src) && t.contains(conns[i].src);
            if i < n - 1 {
                assert(exists|i2: int| 0 <= i2 < n - 1 && !s.contains(#[trigger] conns[i2].src) && t.contains(conns[i2].src));
            }
        }
    }
}

/// A set that holds the outputs and, with each node, every node feeding it, holds every
/// node that reaches an output.
proof fn lemma_closed_set_complete(conns: Seq<ConnGene>, s: Set<usize>, n: int, k: nat)
    requires
        forall|o: usize| is_output(o as int) ==> s.contains(o),
        forall|i: int| 0 <= i < conns.len() && #[trigger] conns[i].enabled && s.contains(conns[i].dst)
            ==> s.contains(conns[i].src),
        reaches_within(conns, n, k),
        0 <= n <= usize::MAX,
    ensures
        s.contains(n as usize),
    decreases k,
{
    if !is_output(n) {
        let m = choose|m: int| #[trigger] feeds(conns, n, m) && reaches_within(conns, m, (k - 1) as nat);
        let i = choose|i: int| 0 <= i < conns.len() && #[trigger] conns[i].enabled && conns[i].src == n && conns[i].dst == m;
        lemma_closed_set_complete(conns, s, m, (k - 1) as nat);
    }
}

/// The nodes that reach an output through enabled connections, outputs included.
pub fn get_reachable_nodes(conns: &[ConnGene]) -> (reachable: HashSet<usize>)
    ensures
        forall|n: usize| reachable@.contains(n) <==> reaches_output(conns@, n as int),
{
    let ghost cs = conns@;
    let mut reachable: HashSet<usize> = HashSet::new();
    let mut queue: Vec<usize> = Vec::new();
    let mut o: usize = OUTPUT_START;
    while o < OUTPUT_START + OUTPUT_COUNT
        invariant
            OUTPUT_START <= o <= OUTPUT_START + OUTPUT_COUNT,
            forall|x: usize| reachable@.contains(x) <==> OUTPUT_START <= x < o,
            queue@.len() == o - OUTPUT_START,
            forall|q: int| 0 <= q < queue@.len() ==> #[trigger] queue@[q] == OUTPUT_START + q,
        decreases OUTPUT_START + OUTPUT_COUNT - o,
    {
        reachable.insert(o);
        queue.push(o);
        o = o + 1;
    }
    proof {
        assert forall|x: usize| reachable@.contains(x) implies reaches_output(cs, x as int) by {
            assert(reaches_within(cs, x as int, 0));
        }
        assert forall|q: int| 0 <= q < queue@.len() implies reachable@.contains(#[trigger] queue@[q]) by {
            assert(queue@[q] == OUTPUT_START + q);
        }
        assert forall|i: int| 0 <= i < cs.len() && #[trigger] cs[i].enabled && reachable@.contains(cs[i].dst)
            && !queue@.contains(cs[i].dst) implies reachable@.contains(cs[i].src) by {
            let d = cs[i].dst;
            assert(queue@[(d - OUTPUT_START) as int] == d);
        }
    }
    while queue.len() > 0
        invariant
            cs == conns@,
            forall|x: usize| reachable@.contains(x) ==> reaches_output(cs, x as int),
            forall|x: usize| is_output(x as int) ==> reachable@.contains(x),
            forall|q: int| 0 <= q < queue@.len() ==> reachable@.contains(#[trigger] queue@[q]),
            forall|i: int| 0 <= i < cs.len() && #[trigger] cs[i].enabled && reachable@.contains(cs[i].dst)
                && !queue@.contains(cs[i].dst) ==> reachable@.contains(cs[i].src),
        decreases unmarked(cs, reachable@, cs.len() as int), queue@.len(),
    {
        let ghost qfull = queue@;
        let curr = queue.pop().unwrap();
        let ghost s0 = reachable@;
        let ghost q0 = queue@;
        proof {
            assert(q0 =~= qfull.drop_last());
            assert(curr == qfull.last());
            assert(s0.contains(curr)) by {
                assert(qfull[qfull.len() - 1] == curr);
            }
            assert forall|q: int| 0 <= q < q0.len() implies s0.contains(#[trigger] q0[q]) by {
                assert(q0[q] == qfull[q]);
            }
            assert forall|i: int| 0 <= i < cs.len() && #[trigger] cs[i].enabled && s0.contains(cs[i].dst)
                && cs[i].dst != curr && !q0.contains(cs[i].dst) implies s0.contains(cs[i].src) by {
                let d = cs[i].dst;
                if qfull.contains(d) {
                    let q = choose|q: int| 0 <= q < qfull.len() && qfull[q] == d;
                    if q < qfull.len() - 1 {
                        assert(q0[q] == d);
                    }
                }
            }
        }
        let ghost mut grew = false;
        let mut j: usize = 0;
        while j < conns.len()
            invariant
                cs == conns@,
                j <= cs.len(),
                s0.subset_of(reachable@),
                s0.contains(curr),
                forall|x: usize| reachable@.contains(x) ==> reaches_output(cs, x as int),
                forall|x: usize| is_output(x as int) ==> reachable@.contains(x),
                forall|q: int| 0 <= q < queue@.len() ==> reachable@.contains(#[trigger] queue@[q]),
                queue@.len() >= q0.len(),
                queue@.subrange(0, q0.len() as int) == q0,
                forall|i: int| 0 <= i < cs.len() && #[trigger] cs[i].enabled && s0.contains(cs[i].dst)
                    && cs[i].dst != curr && !q0.contains(cs[i].dst) ==> s0.contains(cs[i].src),
                forall|i: int| 0 <= i < j && #[trigger] cs[i].enabled && cs[i].dst == curr ==> reachable@.contains(cs[i].src),
                forall|q: int| q0.len() <= q < queue@.len() ==> !s0.contains(#[trigger] queue@[q]),
                forall|x: usize| reachable@.contains(x) && !s0.contains(x) ==> queue@.contains(x),
                grew ==> unmarked(cs, reachable@, cs.len() as int) < unmarked(cs, s0, cs.len() as int),
                !grew ==> reachable@ == s0 && queue@ == q0,
            decreases cs.len() - j,
        {
            let c = conns[j];
            if c.enabled && c.dst == curr {
                let ghost before = reachable@;
                if reachable.insert(c.src) {
                    proof {
                        let m = curr as int;
                        assert(cs[j as int].enabled);
                        assert(feeds(cs, c.src as int, m));
                        assert(reaches_output(cs, m));
                        let k = choose|k: nat| #[trigger] reaches_within(cs, m, k);
                        let k1: nat = k + 1;
                        assert(reaches_within(cs, c.src as int, k1));
                        lemma_unmarked_shrinks(cs, s0, reachable@, cs.len() as int);
                        assert(!s0.contains(cs[j as int].src) && reachable@.contains(cs[j as int].src));
                        grew = true;
                    }
                    let ghost qb = queue@;
                    queue.push(c.src);
                    proof {
                        assert(queue@.subrange(0, q0.len() as int) =~= qb.subrange(0, q0.len() as int));
                        assert forall|x: usize| reachable@.contains(x) && !s0.contains(x) implies queue@.contains(x) by {
                            if x == c.src {
                                assert(queue@[qb.len() as int] == x);
                            } else {
                                let q = choose|q: int| 0 <= q < qb.len() && qb[q] == x;
                                assert(queue@[q] == x);
                            }
                        }
                    }
                } else {
                    proof {
                        assert(reachable@ =~= before);
                    }
                }
            }
            j = j + 1;
        }
        proof {
            lemma_unmarked_shrinks(cs, s0, reachable@, cs.len() as int);
            assert forall|i: int| 0 <= i < cs.len() && #[trigger] cs[i].enabled && reachable@.contains(cs[i].dst)
                && !queue@.contains(cs[i].dst) implies reachable@.contains(cs[i].src) by {
                let d = cs[i].dst;
                if d != curr {
                    if s0.contains(d) {
                        if q0.contains(d) {
                            let q = choose|q: int| 0 <= q < q0.len() && q0[q] == d;
                            assert(queue@.subrange(0, q0.len() as int)[q] == d);
                            assert(queue@[q] == d);
                        }
                    } else {
                        assert(queue@.contains(d));
                    }
                }
            }
        }
    }
    proof {
        assert forall|n: usize| reaches_output(cs, n as int) implies reachable@.contains(n) by {
            let k = choose|k: nat| #[trigger] reaches_within(cs, n as int, k);
            assert forall|i: int| 0 <= i < cs.len() && #[trigger] cs[i].enabled && reachable@.contains(cs[i].dst)
                implies reachable@.contains(cs[i].src) by {
                assert(!queue@.contains(cs[i].dst));
            }
            lemma_closed_set_complete(cs, reachable@, n as int, k);
        }
    }
    reachable
}


/// The depth recorded for `k`, 0 when none is.
pub open spec fn get_or_zero(m: Map<usize, usize>, k: usize) -> int {
    if m.contains_key(k) {
        m[k] as int
    } else {
        0
    }
}

/// The greatest recorded depth among the sources of the enabled connections below `n`
/// into `nid`, 0 when there are none.
pub open spec fn max_src_depth(conns: Seq<ConnGene>, m: Map<usize, usize>, nid: usize, n: int) -> int
    decreases n,
{
    if n <= 0 {
        0
    } else {
        let prev = max_src_depth(conns, m, nid, n - 1);
        let c = conns[n - 1];
        if c.enabled && c.dst == nid && get_or_zero(m, c.src) > prev {
            get_or_zero(m, c.src)
        } else {
            prev
        }
    }
}

/// Inputs and the bias sit at depth 0.
pub open spec fn initial_depths() -> Map<usize, usize> {
    Map::new(|k: usize| k <= BIAS_ID, |k: usize| 0usize)
}

/// The depths after visiting the first `k` nodes of `order`: an input or bias node gets
/// depth 0; a reachable output or hidden node gets one more than the deepest node
/// feeding it (1 when nothing feeds it); other nodes are skipped.
pub open spec fn depth_map(conns: Seq<ConnGene>, order: Seq<usize>, reach: Set<usize>, k: int) -> Map<usize, usize>
    decreases k,
{
    if k <= 0 {
        initial_depths()
    } else {
        let m = depth_map(conns, order, reach, k - 1);
        let nid = order[k - 1];
        if nid < FIRST_HIDDEN_ID && !is_output(nid as int) {
            m.insert(nid, 0)
        } else if !reach.contains(nid) {
            m
        } else {
            m.insert(nid, (1 + max_src_depth(conns, m, nid, conns.len() as int)) as usize)
        }
    }
}

/// Every depth recorded after `k` visits is at most `k`, and only the inputs, the bias
/// and visited nodes have one.
proof fn lemma_depth_map_bounds(conns: Seq<ConnGene>, order: Seq<usize>, reach: Set<usize>, k: int)
    requires
        0 <= k <= order.len(),
    ensures
        forall|x: usize| #[trigger] depth_map(conns, order, reach, k).contains_key(x) ==> depth_map(conns, order, reach, k)[x] <= k,
        forall|x: usize| #[trigger] depth_map(conns, order, reach, k).contains_key(x) ==> x <= BIAS_ID
            || exists|j: int| 0 <= j < k && order[j] == x,
    decreases k,
{
    if k > 0 {
        lemma_depth_map_bounds(conns, order, reach, k - 1);
        let m = depth_map(conns, order, reach, k - 1);
        let nid = order[k - 1];
        lemma_max_src_depth_bound(conns, m, nid, conns.len() as int, k - 1);
        let m2 = depth_map(conns, order, reach, k);
        assert forall|x: usize| #[trigger] m2.contains_key(x) implies x <= BIAS_ID || exists|j: int| 0 <= j < k && order[j] == x by {
            if x != nid {
                assert(m.contains_key(x));
                if x > BIAS_ID {
                    let j = choose|j: int| 0 <= j < k - 1 && order[j] == x;
                    assert(order[j] == x);
                }
            } else {
                assert(order[k - 1] == x);
            }
        }
    }
}

proof fn lemma_max_src_depth_bound(conns: Seq<ConnGene>, m: Map<usize, usize>, nid: usize, n: int, b: int)
    requires
        b >= 0,
        forall|x: usize| #[trigger] m.contains_key(x) ==> m[x] <= b,
    ensures
        0 <= max_src_depth(conns, m, nid, n) <= b,
    decreases n,
{
    if n > 0 {
        lemma_max_src_depth_bound(conns, m, nid, n - 1, b);
    }
}

/// The deepest feeder's depth is at least the depth of each enabled feeder.
proof fn lemma_max_src_depth_ge(conns: Seq<ConnGene>, m: Map<usize, usize>, nid: usize, n: int, i: int)
    requires
        0 <= i < n <= conns.len(),
        conns[i].enabled,
        conns[i].dst == nid,
    ensures
        get_or_zero(m, conns[i].src) <= max_src_depth(conns, m, nid, n),
    decreases n,
{
    if i < n - 1 {
        lemma_max_src_depth_ge(conns, m, nid, n - 1, i);
    }
}

/// Visits of other nodes leave the depth of `x` as it was.
proof fn lemma_depth_map_keeps(conns: Seq<ConnGene>, order: Seq<usize>, reach: Set<usize>, a: int, b: int, x: usize)
    requires
        0 <= a <= b <= order.len(),
        forall|t: int| a <= t < b ==> order[t] != x,
    ensures
        get_or_zero(depth_map(conns, order, reach, b), x) == get_or_zero(depth_map(conns, order, reach, a), x),
    decreases b - a,
{
    if b > a {
        lemma_depth_map_keeps(conns, order, reach, a, b - 1, x);
        assert(order[b - 1] != x);
    }
}

/// A reachable hidden or output node lies deeper than every node feeding it through an
/// enabled connection that `order` visits before it (each node visited once): the depth
/// of a node is more than the depth of each of its feeders, not only of one of them.
pub proof fn lemma_depth_exceeds_feeders(conns: Seq<ConnGene>, order: Seq<usize>, reach: Set<usize>, i: int, l: int, j: int)
    requires
        order.len() < usize::MAX,
        order.no_duplicates(),
        0 <= i < conns.len(),
        conns[i].enabled,
        0 <= l < j < order.len(),
        order[l] == conns[i].src,
        order[j] == conns[i].dst,
        reach.contains(conns[i].dst),
        conns[i].dst >= FIRST_HIDDEN_ID || is_output(conns[i].dst as int),
    ensures
        get_or_zero(depth_map(conns, order, reach, order.len() as int), conns[i].src)
            < get_or_zero(depth_map(conns, order, reach, order.len() as int), conns[i].dst),
{
    let src = conns[i].src;
    let dst = conns[i].dst;
    let mj = depth_map(conns, order, reach, j);
    lemma_depth_map_bounds(conns, order, reach, j);
    lemma_max_src_depth_bound(conns, mj, dst, conns.len() as int, j);
    lemma_max_src_depth_ge(conns, mj, dst, conns.len() as int, i);
    assert(src != dst);
    let mj1 = depth_map(conns, order, reach, j + 1);
    assert(!(dst < FIRST_HIDDEN_ID && !is_output(dst as int)));
    assert(mj1 == mj.insert(dst, (1 + max_src_depth(conns, mj, dst, conns.len() as int)) as usize));
    assert(get_or_zero(mj1, dst) == 1 + max_src_depth(conns, mj, dst, conns.len() as int));
    assert(get_or_zero(mj1, src) == get_or_zero(mj, src));
    assert forall|t: int| j + 1 <= t < order.len() implies order[t] != src && order[t] != dst by {
        assert(order[l] != order[t]);
        assert(order[j] != order[t]);
    }
    lemma_depth_map_keeps(conns, order, reach, j + 1, order.len() as int, src);
    lemma_depth_map_keeps(conns, order, reach, j + 1, order.len() as int, dst);
}

/// The deepest feeder's depth is 0 or the depth of one of the enabled feeders.
proof fn lemma_max_src_depth_attained(conns: Seq<ConnGene>, m: Map<usize, usize>, nid: usize, n: int)
    requires
        0 <= n <= conns.len(),
    ensures
        max_src_depth(conns, m, nid, n) == 0 || exists|i: int| 0 <= i < n && #[trigger] conns[i].enabled
            && conns[i].dst == nid && get_or_zero(m, conns[i].src) == max_src_depth(conns, m, nid, n),
    decreases n,
{
    if n > 0 {
        lemma_max_src_depth_attained(conns, m, nid, n - 1);
        if max_src_depth(conns, m, nid, n) != 0 && max_src_depth(conns, m, nid, n) == max_src_depth(conns, m, nid, n - 1) {
            let i = choose|i: int| 0 <= i < n - 1 && #[trigger] conns[i].enabled && conns[i].dst == nid
                && get_or_zero(m, conns[i].src) == max_src_depth(conns, m, nid, n - 1);
            assert(conns[i].enabled);
        } else if max_src_depth(conns, m, nid, n) != 0 {
            assert(conns[n - 1].enabled);
        }
    }
}

/// Where `order` visits each node once and every enabled feeder of `dst` comes before
/// it (or is never visited), the depth of a reachable hidden or output node `dst`
/// visited at `j` is one more than the depth of its deepest feeder: more than the depth
/// of every enabled feeder, and exactly one more than one of them (or 1 when nothing
/// feeds it).
pub proof fn lemma_depth_one_below_deepest_feeder(conns: Seq<ConnGene>, order: Seq<usize>, reach: Set<usize>, j: int)
    requires
        order.len() < usize::MAX,
        order.no_duplicates(),
        0 <= j < order.len(),
        reach.contains(order[j]),
        order[j] >= FIRST_HIDDEN_ID || is_output(order[j] as int),
        forall|i: int, t: int| 0 <= i < conns.len() && conns[i].enabled && conns[i].dst == order[j] && j <= t < order.len()
            ==> #[trigger] order[t] != #[trigger] conns[i].src,
    ensures
        ({
            let m = depth_map(conns, order, reach, order.len() as int);
            let dst = order[j];
            &&& forall|i: int| 0 <= i < conns.len() && #[trigger] conns[i].enabled && conns[i].dst == dst
                ==> get_or_zero(m, conns[i].src) < get_or_zero(m, dst)
            &&& get_or_zero(m, dst) == 1 || exists|i: int| 0 <= i < conns.len() && #[trigger] conns[i].enabled
                && conns[i].dst == dst && get_or_zero(m, dst) == get_or_zero(m, conns[i].src) + 1
        }),
{
    let dst = order[j];
    let mj = depth_map(conns, order, reach, j);
    let mf = depth_map(conns, order, reach, order.len() as int);
    let mx = max_src_depth(conns, mj, dst, conns.len() as int);
    lemma_depth_map_bounds(conns, order, reach, j);
    lemma_max_src_depth_bound(conns, mj, dst, conns.len() as int, j);
    let mj1 = depth_map(conns, order, reach, j + 1);
    assert(!(dst < FIRST_HIDDEN_ID && !is_output(dst as int)));
    assert(mj1 == mj.insert(dst, (1 + mx) as usize));
    assert forall|t: int| j + 1 <= t < order.len() implies order[t] != dst by {
        assert(order[j] != order[t]);
    }
    lemma_depth_map_keeps(conns, order, reach, j + 1, order.len() as int, dst);
    assert forall|i: int| 0 <= i < conns.len() && #[trigger] conns[i].enabled && conns[i].dst == dst
        implies get_or_zero(mf, conns[i].src) == get_or_zero(mj, conns[i].src) by {
        let src = conns[i].src;
        assert forall|t: int| j <= t < order.len() implies order[t] != src by {
            assert(order[t] != conns[i].src);
        }
        assert(src != dst) by {
            assert(order[j] != conns[i].src);
        }
        lemma_depth_map_keeps(conns, order, reach, j + 1, order.len() as int, src);
    }
    assert forall|i: int| 0 <= i < conns.len() && #[trigger] conns[i].enabled && conns[i].dst == dst
        implies get_or_zero(mf, conns[i].src) < get_or_zero(mf, dst) by {
        lemma_max_src_depth_ge(conns, mj, dst, conns.len() as int, i);
    }
    lemma_max_src_depth_attained(conns, mj, dst, conns.len() as int);
    if mx != 0 {
        let i = choose|i: int| 0 <= i < conns.len() && #[trigger] conns[i].enabled && conns[i].dst == dst
            && get_or_zero(mj, conns[i].src) == mx;
        assert(get_or_zero(mf, conns[i].src) == get_or_zero(mj, conns[i].src));
    }
}

/// The depth of every node the rule listing draws: inputs and bias at 0, each reachable
/// hidden or output node visited in `order` one below its deepest feeder, and then every
/// output one below the deepest reachable hidden node.
pub fn compute_depths(conns: &[ConnGene], order: &[usize], reachable: &HashSet<usize>) -> (depths: HashMap<usize, usize>)
    requires
        order@.len() < usize::MAX,
    ensures
        ({
            let m = depth_map(conns@, order@, reachable@, order@.len() as int);
            let hidden = |n: usize| reachable@.contains(n) && n >= FIRST_HIDDEN_ID;
            &&& forall|k: usize| depths@.contains_key(k) <==> (m.contains_key(k) || is_output(k as int))
            &&& forall|k: usize| #[trigger] depths@.contains_key(k) && !is_output(k as int) ==> depths@[k] == m[k]
            &&& forall|n: usize| hidden(n) ==> #[trigger] get_or_zero(m, n) < depths@[OUTPUT_START]
            &&& depths@[OUTPUT_START] == 1 || exists|n: usize| hidden(n) && #[trigger] get_or_zero(m, n) + 1 == depths@[OUTPUT_START]
            &&& forall|k: usize| #[trigger] is_output(k as int) ==> depths@[k] == depths@[OUTPUT_START]
        }),
        order@.no_duplicates() ==> forall|i: int, l: int, j: int|
            #![trigger conns@[i], order@[l], order@[j]]
            0 <= i < conns@.len() && conns@[i].enabled && 0 <= l < j < order@.len() && order@[l] == conns@[i].src
                && order@[j] == conns@[i].dst && reachable@.contains(conns@[i].dst) && conns@[i].dst >= FIRST_HIDDEN_ID
                && !is_output(conns@[i].src as int) ==> get_or_zero(depths@, conns@[i].src) < get_or_zero(depths@,
                conns@[i].dst),
{
    let ghost cs = conns@;
    let ghost os = order@;
    let ghost reach = reachable@;
    let mut depths: HashMap<usize, usize> = HashMap::new();
    let mut nid: usize = 0;
    while nid < BIAS_ID
        invariant
            nid <= BIAS_ID,
            depths@ == Map::new(|k: usize| k < nid, |k: usize| 0usize),
        decreases BIAS_ID - nid,
    {
        depths.insert(nid, 0);
        nid = nid + 1;
        proof {
            assert(depths@ =~= Map::new(|k: usize| k < nid, |k: usize| 0usize));
        }
    }
    depths.insert(BIAS_ID, 0);
    proof {
        assert(depths@ =~= initial_depths());
    }
    let mut i: usize = 0;
    while i < order.len()
        invariant
            i <= order@.len(),
            order@.len() < usize::MAX,
            cs == conns@,
            os == order@,
            reach == reachable@,
            depths@ == depth_map(cs, os, reach, i as int),
        decreases order@.len() - i,
    {
        let nid = order[i];
        proof {
            lemma_depth_map_bounds(cs, os, reach, i as int);
        }
        if nid < FIRST_HIDDEN_ID && !(OUTPUT_START <= nid && nid < OUTPUT_START + OUTPUT_COUNT) {
            depths.insert(nid, 0);
        } else if reachable.contains(&nid) {
            let ghost m = depths@;
            let mut any = false;
            let mut max_d: usize = 0;
            let mut j: usize = 0;
            while j < conns.len()
                invariant
                    j <= conns@.len(),
                    cs == conns@,
                    depths@ == m,
                    forall|x: usize| #[trigger] m.contains_key(x) ==> m[x] <= i,
                    max_d == max_src_depth(cs, m, nid, j as int),
                    max_d <= i,
                    !any ==> max_d == 0,
                decreases conns@.len() - j,
            {
                let c = conns[j];
                if c.enabled && c.dst == nid {
                    any = true;
                    let d = match depths.get(&c.src) {
                        Some(v) => *v,
                        None => 0,
                    };
                    proof {
                        assert(d == get_or_zero(m, c.src));
                    }
                    if d > max_d {
                        max_d = d;
                    }
                }
                j = j + 1;
            }
            if !any {
                depths.insert(nid, 1);
            } else {
                depths.insert(nid, 1 + max_d);
            }
            proof {
                assert(reach.contains(nid));
                assert(depths@ =~= depth_map(cs, os, reach, i + 1));
            }
        } else {
            proof {
                assert(!reach.contains(nid));
                assert(depths@ =~= depth_map(cs, os, reach, i + 1));
            }
        }
        i = i + 1;
    }
    let ghost m = depths@;
    proof {
        lemma_depth_map_bounds(cs, os, reach, os.len() as int);
    }
    let mut max_hidden: usize = 0;
    let mut k: usize = 0;
    while k < order.len()
        invariant
            k <= order@.len(),
            order@.len() < usize::MAX,
            os == order@,
            reach == reachable@,
            depths@ == m,
            forall|x: usize| #[trigger] m.contains_key(x) ==> m[x] <= os.len(),
            max_hidden <= os.len(),
            forall|j: int| 0 <= j < k && reach.contains(#[trigger] os[j]) && os[j] >= FIRST_HIDDEN_ID
                ==> get_or_zero(m, os[j]) <= max_hidden,
            max_hidden == 0 || exists|n: usize| reach.contains(n) && n >= FIRST_HIDDEN_ID && #[trigger] get_or_zero(m, n) == max_hidden,
        decreases order@.len() - k,
    {
        let n = order[k];
        if n >= FIRST_HIDDEN_ID && reachable.contains(&n) {
            let d = match depths.get(&n) {
                Some(v) => *v,
                None => 0,
            };
            proof {
                assert(d == get_or_zero(m, n));
                assert(reach.contains(n));
            }
            if d > max_hidden {
                max_hidden = d;
            }
        }
        k = k + 1;
    }
    let mut out: usize = OUTPUT_START;
    while out < OUTPUT_START + OUTPUT_COUNT
        invariant
            OUTPUT_START <= out <= OUTPUT_START + OUTPUT_COUNT,
            max_hidden < usize::MAX,
            forall|x: usize| depths@.contains_key(x) <==> (m.contains_key(x) || (OUTPUT_START <= x < out)),
            forall|x: usize| #[trigger] depths@.contains_key(x) && !(OUTPUT_START <= x < out) ==> depths@[x] == m[x],
            forall|x: usize| OUTPUT_START <= x < out ==> #[trigger] depths@[x] == max_hidden + 1,
        decreases OUTPUT_START + OUTPUT_COUNT - out,
    {
        depths.insert(out, max_hidden + 1);
        out = out + 1;
    }
    proof {
        if os.no_duplicates() {
            assert forall|i: int, l: int, j: int|
                #![trigger cs[i], os[l], os[j]]
                0 <= i < cs.len() && cs[i].enabled && 0 <= l < j < os.len() && os[l] == cs[i].src
                    && os[j] == cs[i].dst && reach.contains(cs[i].dst) && cs[i].dst >= FIRST_HIDDEN_ID
                    && !is_output(cs[i].src as int) implies get_or_zero(depths@, cs[i].src) < get_or_zero(depths@,
                    cs[i].dst) by {
                lemma_depth_exceeds_feeders(cs, os, reach, i, l, j);
                assert(!is_output(cs[i].dst as int));
            }
        }
        assert forall|n: usize| reach.contains(n) && n >= FIRST_HIDDEN_ID implies #[trigger] get_or_zero(m, n) < depths@[OUTPUT_START] by {
            if m.contains_key(n) {
                let j = choose|j: int| 0 <= j < os.len() && os[j] == n;
                assert(reach.contains(os[j]));
            }
        }
    }
    depths
}

/// The number of enabled connections among the first `n` that feed `nid`.
pub open spec fn in_count(conns: Seq<ConnGene>, nid: usize, n: int) -> nat
    decreases n,
{
    if n <= 0 {
        0
    } else {
        in_count(conns, nid, n - 1) + if conns[n - 1].enabled && conns[n - 1].dst == nid {
            1nat
        } else {
            0nat
        }
    }
}

/// The source and sign of the first enabled connection among the first `n` that feeds
/// `nid`, if any.
pub open spec fn first_in(conns: Seq<ConnGene>, signs: Seq<i8>, nid: usize, n: int) -> Option<(usize, i8)>
    decreases n,
{
    if n <= 0 {
        None
    } else {
        let p = first_in(conns, signs, nid, n - 1);
        if p is Some {
            p
        } else if conns[n - 1].enabled && conns[n - 1].dst == nid {
            Some((conns[n - 1].src, signs[n - 1]))
        } else {
            None
        }
    }
}

/// The aliases after visiting the first `k` nodes of `order`: a hidden node that is not a
/// folded constant, passes its input through unchanged (`identity`) and has exactly one
/// enabled input, whose source is not a constant either, is an alias of that source,
/// negated when the connection's sign is -1; when the source is itself an alias, the
/// node resolves to the source's own target with the negations combined.
pub open spec fn alias_map(
    conns: Seq<ConnGene>,
    signs: Seq<i8>,
    order: Seq<usize>,
    identity: Set<usize>,
    consts: Set<usize>,
    k: int,
) -> Map<usize, (usize, bool)>
    decreases k,
{
    if k <= 0 {
        Map::empty()
    } else {
        let m = alias_map(conns, signs, order, identity, consts, k - 1);
        let nid = order[k - 1];
        if nid < FIRST_HIDDEN_ID || consts.contains(nid) || !identity.contains(nid)
            || in_count(conns, nid, conns.len() as int) != 1 {
            m
        } else {
            match first_in(conns, signs, nid, conns.len() as int) {
                Some((src, sign)) => {
                    if consts.contains(src) {
                        m
                    } else if m.contains_key(src) {
                        m.insert(nid, (m[src].0, (sign == -1) != m[src].1))
                    } else {
                        m.insert(nid, (src, sign == -1))
                    }
                },
                None => m,
            }
        }
    }
}

/// The alias map of the rule listing: each pass-through hidden node with a single input
/// mapped to the node it ultimately copies and whether an odd number of negations lies
/// on the way, resolved in `order`. Aliases only hold at the unit weight; at any other
/// weight the map is empty. `identity` holds the hidden nodes whose activation passes
/// the input through, `consts` the nodes folded to constants, `signs` the sign of each
/// connection.
pub fn compute_aliases(
    conns: &[ConnGene],
    signs: &[i8],
    order: &[usize],
    identity: &HashSet<usize>,
    consts: &HashSet<usize>,
    unit_weight: bool,
) -> (aliases: HashMap<usize, (usize, bool)>)
    requires
        signs@.len() == conns@.len(),
    ensures
        !unit_weight ==> aliases@ == Map::<usize, (usize, bool)>::empty(),
        unit_weight ==> aliases@ == alias_map(conns@, signs@, order@, identity@, consts@, order@.len() as int),
{
    let mut aliases: HashMap<usize, (usize, bool)> = HashMap::new();
    if !unit_weight {
        proof {
            assert(aliases@ =~= Map::<usize, (usize, bool)>::empty());
        }
        return aliases;
    }
    let ghost cs = conns@;
    let ghost ss = signs@;
    let ghost os = order@;
    proof {
        assert(aliases@ =~= alias_map(cs, ss, os, identity@, consts@, 0));
    }
    let mut i: usize = 0;
    while i < order.len()
        invariant
            i <= order@.len(),
            cs == conns@,
            ss == signs@,
            os == order@,
            signs@.len() == conns@.len(),
            aliases@ == alias_map(cs, ss, os, identity@, consts@, i as int),
        decreases order@.len() - i,
    {
        let nid = order[i];
        if nid >= FIRST_HIDDEN_ID && !consts.contains(&nid) && identity.contains(&nid) {
            let mut n_in: usize = 0;
            let mut src: usize = 0;
            let mut sign: i8 = 0;
            let mut j: usize = 0;
            while j < conns.len()
                invariant
                    j <= conns@.len(),
                    cs == conns@,
                    ss == signs@,
                    signs@.len() == conns@.len(),
                    n_in == in_count(cs, nid, j as int),
                    n_in <= j,
                    n_in > 0 ==> first_in(cs, ss, nid, j as int) == Some((src, sign)),
                    n_in == 0 ==> first_in(cs, ss, nid, j as int) is None,
                decreases conns@.len() - j,
            {
                let c = conns[j];
                if c.enabled && c.dst == nid {
                    if n_in == 0 {
                        src = c.src;
                        sign = signs[j];
                    }
                    n_in = n_in + 1;
                }
                j = j + 1;
            }
            if n_in == 1 && !consts.contains(&src) {
                let resolved = match aliases.get(&src) {
                    Some(r) => (r.0, (sign == -1) != r.1),
                    None => (src, sign == -1),
                };
                aliases.insert(nid, resolved);
            }
            proof {
                assert(aliases@ =~= alias_map(cs, ss, os, identity@, consts@, i + 1));
            }
        } else {
            proof {
                assert(aliases@ =~= alias_map(cs, ss, os, identity@, consts@, i + 1));
            }
        }
        i = i + 1;
    }
    aliases
}
} // verus!
