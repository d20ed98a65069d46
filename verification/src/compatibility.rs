//! How far apart two network genomes are, for grouping them into species: connections
//! matched by innovation number, and hidden nodes matched by id.
use std::collections::{HashMap, HashSet};
use vstd::prelude::*;

verus! {

broadcast use vstd::std_specs::hash::group_hash_axioms;

/// A genome as the compatibility measure reads it: its connections (innovation number,
/// sign, enabled) and its nodes (id, type, activation, aggregation), each as parallel
/// lists.
pub struct PyCompatibilityGenome {
    pub conn_innovations: Vec<usize>,
    pub conn_signs: Vec<i8>,
    pub conn_enableds: Vec<bool>,
    pub node_ids: Vec<usize>,
    pub node_types: Vec<u8>,
    pub node_activations: Vec<u8>,
    pub node_aggregations: Vec<u8>,
}

/// The integer part of the compatibility distance.
#[derive(Clone, Copy, Debug)]
pub struct CompatibilityCounts {
    /// Connections each genome lists.
    pub conns_a: usize,
    pub conns_b: usize,
    /// Connections with the same innovation number in both.
    pub shared: usize,
    /// Unmatched connections within the other genome's innovation range.
    pub disjoint: usize,
    /// Unmatched connections beyond it.
    pub excess: usize,
    /// Over the shared connections, two per differing sign and one per differing enabled
    /// flag.
    pub sign_diff_halves: usize,
    /// Over the hidden node ids of either genome, two per id only one genome has, and
    /// one per differing activation or aggregation otherwise.
    pub node_diff_halves: usize,
}

/// The node type of hidden nodes.
pub const HIDDEN_NODE: u8 = 2;

/// The connections of a genome, the lists zipped as far as all three go.
pub open spec fn conn_triples(g: PyCompatibilityGenome) -> Seq<(usize, i8, bool)> {
    let n = vstd::math::min(vstd::math::min(g.conn_innovations@.len() as int, g.conn_signs@.len() as int),
        g.conn_enableds@.len() as int);
    Seq::new(n as nat, |k: int| (g.conn_innovations@[k], g.conn_signs@[k], g.conn_enableds@[k]))
}

/// `t` is `s` sorted by innovation number, equal numbers keeping their order.
pub open spec fn stable_sorted_of(s: Seq<(usize, i8, bool)>, t: Seq<(usize, i8, bool)>) -> bool {
    &&& t.len() == s.len()
    &&& forall|i: int, j: int| 0 <= i < j < t.len() ==> (#[trigger] t[i]).0 <= (#[trigger] t[j]).0
    &&& exists|pi: Seq<int>| {
        &&& pi.len() == s.len()
        &&& forall|i: int| 0 <= i < t.len() ==> 0 <= #[trigger] pi[i] < s.len() && t[i] == s[pi[i]]
        &&& forall|i: int, j: int| 0 <= i < j < t.len() ==> #[trigger] pi[i] != #[trigger] pi[j]
        &&& forall|i: int, j: int| 0 <= i < j < t.len() && t[i].0 == t[j].0 ==> #[trigger] pi[i] < #[trigger] pi[j]
    }
}

/// Sorts the connections by innovation number, keeping the order of connections with
/// equal numbers: each connection in turn is inserted after every connection already
/// placed whose number is not larger.
fn sort_by_innovation(v: &mut Vec<(usize, i8, bool)>)
    ensures
        stable_sorted_of(old(v)@, final(v)@),
{
    let ghost src = v@;
    let mut t: Vec<(usize, i8, bool)> = Vec::new();
    let ghost mut pi: Seq<int> = Seq::empty();
    let mut k: usize = 0;
    while k < v.len()
        invariant
            v@ == src,
            k <= src.len(),
            t@.len() == k,
            pi.len() == k,
            forall|i: int, j: int| 0 <= i < j < t@.len() ==> (#[trigger] t@[i]).0 <= (#[trigger] t@[j]).0,
            forall|i: int| 0 <= i < t@.len() ==> 0 <= #[trigger] pi[i] < k && t@[i] == src[pi[i]],
            forall|i: int, j: int| 0 <= i < j < t@.len() ==> #[trigger] pi[i] != #[trigger] pi[j],
            forall|i: int, j: int| 0 <= i < j < t@.len() && t@[i].0 == t@[j].0 ==> #[trigger] pi[i] < #[trigger] pi[j],
        decreases src.len() - k,
    {
        let x = v[k];
        let mut p: usize = 0;
        while p < t.len() && t[p].0 <= x.0
            invariant
                p <= t@.len(),
                forall|i: int| 0 <= i < p ==> (#[trigger] t@[i]).0 <= x.0,
            decreases t@.len() - p,
        {
            p = p + 1;
        }
        let ghost t0 = t@;
        let ghost pi0 = pi;
        proof {
            assert forall|i: int| p <= i < t0.len() implies (#[trigger] t0[i]).0 > x.0 by {
                assert(t0[p as int].0 > x.0);
                if i > p {
                    assert(t0[p as int].0 <= t0[i].0);
                }
            }
        }
        t.insert(p, x);
        proof {
            pi = pi0.insert(p as int, k as int);
            assert forall|i: int| 0 <= i < t@.len() implies 0 <= #[trigger] pi[i] < k + 1 && t@[i] == src[pi[i]] by {
                if i < p {
                    assert(pi[i] == pi0[i] && t@[i] == t0[i]);
                } else if i > p {
                    assert(pi[i] == pi0[i - 1] && t@[i] == t0[i - 1]);
                }
            }
            assert forall|i: int, j: int| 0 <= i < j < t@.len() implies (#[trigger] t@[i]).0 <= (#[trigger] t@[j]).0 by {
                if j < p {
                } else if j == p {
                    assert(t@[i] == t0[i]);
                } else if i < p {
                    assert(t@[i] == t0[i] && t@[j] == t0[j - 1]);
                } else if i == p {
                    assert(t@[j] == t0[j - 1]);
                } else {
                    assert(t@[i] == t0[i - 1] && t@[j] == t0[j - 1]);
                }
            }
            assert forall|i: int, j: int| 0 <= i < j < t@.len() implies #[trigger] pi[i] != #[trigger] pi[j] && (t@[i].0
                == t@[j].0 ==> pi[i] < pi[j]) by {
                if j < p {
                } else if j == p {
                    assert(pi[i] == pi0[i] && t@[i] == t0[i]);
                } else if i < p {
                    assert(pi[i] == pi0[i] && pi[j] == pi0[j - 1] && t@[i] == t0[i] && t@[j] == t0[j - 1]);
                } else if i == p {
                    assert(pi[j] == pi0[j - 1] && t@[j] == t0[j - 1]);
                } else {
                    assert(pi[i] == pi0[i - 1] && pi[j] == pi0[j - 1]);
                    assert(t@[i] == t0[i - 1] && t@[j] == t0[j - 1]);
                }
            }
        }
        k = k + 1;
    }
    proof {
        assert(pi.len() == src.len());
    }
    *v = t;
}

/// `(shared, disjoint, excess, sign_diff_halves)` of merging the sorted connection lists
/// from positions `i` and `j`, given each list's largest innovation number.
pub open spec fn merge_counts(
    sa: Seq<(usize, i8, bool)>,
    sb: Seq<(usize, i8, bool)>,
    i: int,
    j: int,
    max_a: int,
    max_b: int,
) -> (int, int, int, int)
    decreases sa.len() - i + sb.len() - j,
{
    if i < 0 || j < 0 || i > sa.len() || j > sb.len() || (i == sa.len() && j == sb.len()) {
        (0, 0, 0, 0)
    } else if i < sa.len() && j < sb.len() {
        let x = sa[i];
        let y = sb[j];
        if x.0 == y.0 {
            let r = merge_counts(sa, sb, i + 1, j + 1, max_a, max_b);
            (r.0 + 1, r.1, r.2, r.3 + (if x.1 != y.1 { 2int } else { 0int }) + (if x.2 != y.2 { 1int } else { 0int }))
        } else if x.0 < y.0 {
            let r = merge_counts(sa, sb, i + 1, j, max_a, max_b);
            if x.0 <= max_b {
                (r.0, r.1 + 1, r.2, r.3)
            } else {
                (r.0, r.1, r.2 + 1, r.3)
            }
        } else {
            let r = merge_counts(sa, sb, i, j + 1, max_a, max_b);
            if y.0 <= max_a {
                (r.0, r.1 + 1, r.2, r.3)
            } else {
                (r.0, r.1, r.2 + 1, r.3)
            }
        }
    } else if i < sa.len() {
        let r = merge_counts(sa, sb, i + 1, j, max_a, max_b);
        if sa[i].0 <= max_b {
            (r.0, r.1 + 1, r.2, r.3)
        } else {
            (r.0, r.1, r.2 + 1, r.3)
        }
    } else {
        let r = merge_counts(sa, sb, i, j + 1, max_a, max_b);
        if sb[j].0 <= max_a {
            (r.0, r.1 + 1, r.2, r.3)
        } else {
            (r.0, r.1, r.2 + 1, r.3)
        }
    }
}

/// The largest innovation number of a sorted list, 0 when it is empty.
pub open spec fn max_innovation(s: Seq<(usize, i8, bool)>) -> int {
    if s.len() > 0 {
        s.last().0 as int
    } else {
        0
    }
}

fn zip_conns(g: &PyCompatibilityGenome) -> (v: Vec<(usize, i8, bool)>)
    ensures
        v@ == conn_triples(*g),
{
    let mut n = g.conn_innovations.len();
    if g.conn_signs.len() < n {
        n = g.conn_signs.len();
    }
    if g.conn_enableds.len() < n {
        n = g.conn_enableds.len();
    }
    let mut v: Vec<(usize, i8, bool)> = Vec::new();
    let mut k: usize = 0;
    while k < n
        invariant
            k <= n,
            n <= g.conn_innovations@.len(),
            n <= g.conn_signs@.len(),
            n <= g.conn_enableds@.len(),
            n == conn_triples(*g).len(),
            v@ == conn_triples(*g).subrange(0, k as int),
        decreases n - k,
    {
        v.push((g.conn_innovations[k], g.conn_signs[k], g.conn_enableds[k]));
        k = k + 1;
        proof {
            assert(v@ =~= conn_triples(*g).subrange(0, k as int));
        }
    }
    proof {
        assert(v@ =~= conn_triples(*g));
    }
    v
}

/// Counts matched and unmatched connections of two sorted lists.
fn merge_conns(sa: &Vec<(usize, i8, bool)>, sb: &Vec<(usize, i8, bool)>) -> (r: (usize, usize, usize, usize))
    requires
        3 * (sa@.len() + sb@.len()) <= usize::MAX,
    ensures
        (r.0 as int, r.1 as int, r.2 as int, r.3 as int) == merge_counts(sa@, sb@, 0, 0, max_innovation(sa@), max_innovation(sb@)),
{
    let ghost ma = max_innovation(sa@);
    let ghost mb = max_innovation(sb@);
    let max_innov_a: usize = if sa.len() > 0 {
        sa[sa.len() - 1].0
    } else {
        0
    };
    let max_innov_b: usize = if sb.len() > 0 {
        sb[sb.len() - 1].0
    } else {
        0
    };
    let mut i_a: usize = 0;
    let mut i_b: usize = 0;
    let mut shared: usize = 0;
    let mut disjoint: usize = 0;
    let mut excess: usize = 0;
    let mut halves: usize = 0;
    while i_a < sa.len() || i_b < sb.len()
        invariant
            i_a <= sa@.len(),
            i_b <= sb@.len(),
            3 * (sa@.len() + sb@.len()) <= usize::MAX,
            max_innov_a == ma,
            max_innov_b == mb,
            shared + disjoint + excess <= i_a + i_b,
            halves <= 3 * shared,
            ({
                let rest = merge_counts(sa@, sb@, i_a as int, i_b as int, ma, mb);
                let all = merge_counts(sa@, sb@, 0, 0, ma, mb);
                &&& shared + rest.0 == all.0
                &&& disjoint + rest.1 == all.1
                &&& excess + rest.2 == all.2
                &&& halves + rest.3 == all.3
            }),
        decreases sa@.len() - i_a + sb@.len() - i_b,
    {
        if i_a < sa.len() && i_b < sb.len() {
            let innov_a = sa[i_a].0;
            let innov_b = sb[i_b].0;
            if innov_a == innov_b {
                shared = shared + 1;
                if sa[i_a].1 != sb[i_b].1 {
                    halves = halves + 2;
                }
                if sa[i_a].2 != sb[i_b].2 {
                    halves = halves + 1;
                }
                i_a = i_a + 1;
                i_b = i_b + 1;
            } else if innov_a < innov_b {
                if innov_a <= max_innov_b {
                    disjoint = disjoint + 1;
                } else {
                    excess = excess + 1;
                }
                i_a = i_a + 1;
            } else {
                if innov_b <= max_innov_a {
                    disjoint = disjoint + 1;
                } else {
                    excess = excess + 1;
                }
                i_b = i_b + 1;
            }
        } else if i_a < sa.len() {
            if sa[i_a].0 <= max_innov_b {
                disjoint = disjoint + 1;
            } else {
                excess = excess + 1;
            }
            i_a = i_a + 1;
        } else {
            if sb[i_b].0 <= max_innov_a {
                disjoint = disjoint + 1;
            } else {
                excess = excess + 1;
            }
            i_b = i_b + 1;
        }
    }
    (shared, disjoint, excess, halves)
}


/// The nodes of a genome as `(id, activation, aggregation, type)`, the lists zipped as
/// far as all four go.
pub open spec fn node_entries(g: PyCompatibilityGenome) -> Seq<(usize, u8, u8, u8)> {
    let n = vstd::math::min(vstd::math::min(vstd::math::min(g.node_ids@.len() as int, g.node_activations@.len() as int),
        g.node_aggregations@.len() as int), g.node_types@.len() as int);
    Seq::new(n as nat, |k: int| (g.node_ids@[k], g.node_activations@[k], g.node_aggregations@[k], g.node_types@[k]))
}

/// The hidden nodes among the first `k` entries, by id, a later entry replacing an
/// earlier one with the same id.
pub open spec fn hidden_nodes(e: Seq<(usize, u8, u8, u8)>, k: int) -> Map<usize, (u8, u8)>
    decreases k,
{
    if k <= 0 {
        Map::empty()
    } else {
        let m = hidden_nodes(e, k - 1);
        let x = e[k - 1];
        if x.3 == HIDDEN_NODE {
            m.insert(x.0, (x.1, x.2))
        } else {
            m
        }
    }
}

/// Half-units of difference for hidden node `id`: two when only one genome has it,
/// otherwise one per differing activation or aggregation.
pub open spec fn node_cost(ma: Map<usize, (u8, u8)>, mb: Map<usize, (u8, u8)>, id: usize) -> int {
    if ma.contains_key(id) && mb.contains_key(id) {
        (if ma[id].0 != mb[id].0 { 1int } else { 0int }) + (if ma[id].1 != mb[id].1 { 1int } else { 0int })
    } else {
        2
    }
}

/// Entry `k` is hidden and the first hidden entry with its id.
pub open spec fn first_hidden(e: Seq<(usize, u8, u8, u8)>, k: int) -> bool {
    &&& e[k].3 == HIDDEN_NODE
    &&& forall|i: int| 0 <= i < k ==> !(e[i].3 == HIDDEN_NODE && #[trigger] e[i].0 == e[k].0)
}

/// The costs of the hidden ids of the first genome, each counted at its first entry
/// among the first `k`.
pub open spec fn node_diff_a(e: Seq<(usize, u8, u8, u8)>, ma: Map<usize, (u8, u8)>, mb: Map<usize, (u8, u8)>, k: int) -> int
    decreases k,
{
    if k <= 0 {
        0
    } else {
        node_diff_a(e, ma, mb, k - 1) + if first_hidden(e, k - 1) { node_cost(ma, mb, e[k - 1].0) } else { 0int }
    }
}

/// Two for each hidden id of the second genome that the first lacks, counted at its
/// first entry among the first `k`.
pub open spec fn node_diff_b(e: Seq<(usize, u8, u8, u8)>, ma: Map<usize, (u8, u8)>, k: int) -> int
    decreases k,
{
    if k <= 0 {
        0
    } else {
        node_diff_b(e, ma, k - 1) + if first_hidden(e, k - 1) && !ma.contains_key(e[k - 1].0) { 2int } else { 0int }
    }
}

fn zip_nodes(g: &PyCompatibilityGenome) -> (v: Vec<(usize, u8, u8, u8)>)
    ensures
        v@ == node_entries(*g),
{
    let mut n = g.node_ids.len();
    if g.node_activations.len() < n {
        n = g.node_activations.len();
    }
    if g.node_aggregations.len() < n {
        n = g.node_aggregations.len();
    }
    if g.node_types.len() < n {
        n = g.node_types.len();
    }
    let mut v: Vec<(usize, u8, u8, u8)> = Vec::new();
    let mut k: usize = 0;
    while k < n
        invariant
            k <= n,
            n <= g.node_ids@.len(),
            n <= g.node_activations@.len(),
            n <= g.node_aggregations@.len(),
            n <= g.node_types@.len(),
            n == node_entries(*g).len(),
            v@ == node_entries(*g).subrange(0, k as int),
        decreases n - k,
    {
        v.push((g.node_ids[k], g.node_activations[k], g.node_aggregations[k], g.node_types[k]));
        k = k + 1;
        proof {
            assert(v@ =~= node_entries(*g).subrange(0, k as int));
        }
    }
    proof {
        assert(v@ =~= node_entries(*g));
    }
    v
}

fn hidden_node_map(e: &Vec<(usize, u8, u8, u8)>) -> (m: HashMap<usize, (u8, u8)>)
    ensures
        m@ == hidden_nodes(e@, e@.len() as int),
{
    let mut m: HashMap<usize, (u8, u8)> = HashMap::new();
    let mut k: usize = 0;
    while k < e.len()
        invariant
            k <= e@.len(),
            m@ == hidden_nodes(e@, k as int),
        decreases e@.len() - k,
    {
        let x = e[k];
        if x.3 == HIDDEN_NODE {
            m.insert(x.0, (x.1, x.2));
        }
        k = k + 1;
    }
    m
}

/// The half-units of node difference between two genomes.
fn node_diff(ea: &Vec<(usize, u8, u8, u8)>, eb: &Vec<(usize, u8, u8, u8)>) -> (halves: usize)
    requires
        2 * (ea@.len() + eb@.len()) <= usize::MAX,
    ensures
        ({
            let ma = hidden_nodes(ea@, ea@.len() as int);
            let mb = hidden_nodes(eb@, eb@.len() as int);
            halves == node_diff_a(ea@, ma, mb, ea@.len() as int) + node_diff_b(eb@, ma, eb@.len() as int)
        }),
{
    let map_a = hidden_node_map(ea);
    let map_b = hidden_node_map(eb);
    let ghost ma = map_a@;
    let ghost mb = map_b@;
    let mut halves: usize = 0;
    let mut seen: HashSet<usize> = HashSet::new();
    let mut k: usize = 0;
    while k < ea.len()
        invariant
            k <= ea@.len(),
            2 * (ea@.len() + eb@.len()) <= usize::MAX,
            map_a@ == ma,
            map_b@ == mb,
            forall|x: usize| #[trigger] seen@.contains(x) <==> exists|i: int| 0 <= i < k && ea@[i].3 == HIDDEN_NODE && ea@[i].0 == x,
            halves == node_diff_a(ea@, ma, mb, k as int),
            halves <= 2 * k,
        decreases ea@.len() - k,
    {
        let x = ea[k];
        if x.3 == HIDDEN_NODE {
            let ghost before = seen@;
            let fresh = seen.insert(x.0);
            proof {
                assert(fresh == first_hidden(ea@, k as int)) by {
                    if !fresh {
                        let i = choose|i: int| 0 <= i < k && ea@[i].3 == HIDDEN_NODE && ea@[i].0 == x.0;
                        assert(ea@[i].0 == ea@[k as int].0);
                    } else {
                        assert forall|i: int| 0 <= i < k implies !(ea@[i].3 == HIDDEN_NODE && #[trigger] ea@[i].0 == ea@[k as int].0) by {
                            if ea@[i].3 == HIDDEN_NODE && ea@[i].0 == ea@[k as int].0 {
                                assert(before.contains(x.0));
                            }
                        }
                    }
                }
            }
            if fresh {
                let cost: usize = match (map_a.get(&x.0), map_b.get(&x.0)) {
                    (Some(pa), Some(pb)) => {
                        let (act_a, agg_a) = *pa;
                        let (act_b, agg_b) = *pb;
                        (if act_a != act_b { 1usize } else { 0usize }) + (if agg_a != agg_b { 1usize } else { 0usize })
                    },
                    _ => 2,
                };
                proof {
                    assert(cost == node_cost(ma, mb, x.0));
                }
                halves = halves + cost;
            }
        }
        k = k + 1;
    }
    let mut seen_b: HashSet<usize> = HashSet::new();
    let mut k: usize = 0;
    let ghost half_a = halves as int;
    while k < eb.len()
        invariant
            k <= eb@.len(),
            2 * (ea@.len() + eb@.len()) <= usize::MAX,
            map_a@ == ma,
            half_a == node_diff_a(ea@, ma, mb, ea@.len() as int),
            half_a <= 2 * ea@.len(),
            forall|x: usize| #[trigger] seen_b@.contains(x) <==> exists|i: int| 0 <= i < k && eb@[i].3 == HIDDEN_NODE && eb@[i].0 == x
                && !ma.contains_key(x),
            halves == half_a + node_diff_b(eb@, ma, k as int),
            halves <= half_a + 2 * k,
        decreases eb@.len() - k,
    {
        let x = eb[k];
        if x.3 == HIDDEN_NODE && !map_a.contains_key(&x.0) {
            let ghost before = seen_b@;
            let fresh = seen_b.insert(x.0);
            proof {
                assert(fresh == first_hidden(eb@, k as int)) by {
                    if !fresh {
                        let i = choose|i: int| 0 <= i < k && eb@[i].3 == HIDDEN_NODE && eb@[i].0 == x.0 && !ma.contains_key(x.0);
                        assert(eb@[i].0 == eb@[k as int].0);
                    } else {
                        assert forall|i: int| 0 <= i < k implies !(eb@[i].3 == HIDDEN_NODE && #[trigger] eb@[i].0 == eb@[k as int].0) by {
                            if eb@[i].3 == HIDDEN_NODE && eb@[i].0 == eb@[k as int].0 {
                                assert(before.contains(x.0));
                            }
                        }
                    }
                }
            }
            if fresh {
                halves = halves + 2;
            }
        }
        k = k + 1;
    }
    halves
}

/// The integer part of the compatibility distance of two genomes: the connections of
/// each, sorted by innovation number, are merged into shared, disjoint and excess
/// connections and sign and enabled differences; the hidden nodes, by id, into node
/// differences.
pub fn compatibility_counts(a: &PyCompatibilityGenome, b: &PyCompatibilityGenome) -> (r: CompatibilityCounts)
    requires
        3 * (conn_triples(*a).len() + conn_triples(*b).len()) <= usize::MAX,
        2 * (node_entries(*a).len() + node_entries(*b).len()) <= usize::MAX,
    ensures
        r.conns_a == conn_triples(*a).len(),
        r.conns_b == conn_triples(*b).len(),
        exists|sa: Seq<(usize, i8, bool)>, sb: Seq<(usize, i8, bool)>| {
            &&& #[trigger] stable_sorted_of(conn_triples(*a), sa)
            &&& #[trigger] stable_sorted_of(conn_triples(*b), sb)
            &&& (r.shared as int, r.disjoint as int, r.excess as int, r.sign_diff_halves as int)
                == merge_counts(sa, sb, 0, 0, max_innovation(sa), max_innovation(sb))
        },
        ({
            let ea = node_entries(*a);
            let eb = node_entries(*b);
            let ma = hidden_nodes(ea, ea.len() as int);
            let mb = hidden_nodes(eb, eb.len() as int);
            r.node_diff_halves == node_diff_a(ea, ma, mb, ea.len() as int) + node_diff_b(eb, ma, eb.len() as int)
        }),
{
    let mut conns_a = zip_conns(a);
    sort_by_innovation(&mut conns_a);
    let mut conns_b = zip_conns(b);
    sort_by_innovation(&mut conns_b);
    let (shared, disjoint, excess, sign_diff_halves) = merge_conns(&conns_a, &conns_b);
    let nodes_a = zip_nodes(a);
    let nodes_b = zip_nodes(b);
    let node_diff_halves = node_diff(&nodes_a, &nodes_b);
    CompatibilityCounts {
        conns_a: conns_a.len(),
        conns_b: conns_b.len(),
        shared,
        disjoint,
        excess,
        sign_diff_halves,
        node_diff_halves,
    }
}
} // verus!
