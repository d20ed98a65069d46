//! Non-dominated sorting: the Pareto fronts of a population under a domination relation.
use vstd::prelude::*;

verus! {

broadcast use vstd::seq_lib::lemma_seq_contains_after_push;

/// The number of entries of `s` equal to `j`.
pub open spec fn occurrences(s: Seq<usize>, j: int) -> nat
    decreases s.len(),
{
    if s.len() == 0 {
        0
    } else {
        (if s[0] == j { 1nat } else { 0nat }) + occurrences(s.drop_first(), j)
    }
}

/// The domination edges into `j` from the items `i < m` that `flags` marks.
pub open spec fn edges_from(dom: Seq<Vec<usize>>, flags: Seq<bool>, j: int, m: int) -> nat
    decreases m,
{
    if m <= 0 {
        0
    } else {
        edges_from(dom, flags, j, m - 1) + if flags[m - 1] { occurrences(dom[m - 1]@, j) } else { 0 }
    }
}

/// Every item dominating `j` is marked by `flags`.
pub open spec fn all_dominators_in(dom: Seq<Vec<usize>>, flags: Seq<bool>, j: int) -> bool {
    forall|i: int| 0 <= i < dom.len() && occurrences(#[trigger] dom[i]@, j) > 0 ==> flags[i]
}

/// The items placed in the fronts before front `r`: none before front 0; before front
/// `r + 1`, those before front `r` and those all of whose dominators are.
pub open spec fn placed_before(dom: Seq<Vec<usize>>, r: nat) -> Seq<bool>
    decreases r,
{
    if r == 0 {
        Seq::new(dom.len(), |j: int| false)
    } else {
        let prev = placed_before(dom, (r - 1) as nat);
        Seq::new(dom.len(), |j: int| prev[j] || all_dominators_in(dom, prev, j))
    }
}

/// Item `j` is in front `r`.
pub open spec fn in_front(dom: Seq<Vec<usize>>, j: int, r: nat) -> bool {
    !placed_before(dom, r)[j] && placed_before(dom, r + 1)[j]
}

/// The number of items below `m` not yet marked.
pub open spec fn unmarked_count(flags: Seq<bool>, m: int) -> nat
    decreases m,
{
    if m <= 0 {
        0
    } else {
        unmarked_count(flags, m - 1) + if flags[m - 1] { 0nat } else { 1nat }
    }
}

proof fn lemma_placed_len(dom: Seq<Vec<usize>>, r: nat)
    ensures
        placed_before(dom, r).len() == dom.len(),
    decreases r,
{
    if r > 0 {
        lemma_placed_len(dom, (r - 1) as nat);
    }
}

/// Placed items stay placed.
proof fn lemma_placed_grows(dom: Seq<Vec<usize>>, r: nat, s: nat, j: int)
    requires
        r <= s,
        0 <= j < dom.len(),
        placed_before(dom, r)[j],
    ensures
        placed_before(dom, s)[j],
    decreases s - r,
{
    if r < s {
        lemma_placed_grows(dom, r, (s - 1) as nat, j);
        lemma_placed_len(dom, (s - 1) as nat);
    }
}

/// A placed item's dominators were all placed.
proof fn lemma_placed_dominators(dom: Seq<Vec<usize>>, r: nat, j: int)
    requires
        0 <= j < dom.len(),
        placed_before(dom, r)[j],
    ensures
        all_dominators_in(dom, placed_before(dom, r), j),
    decreases r,
{
    lemma_placed_len(dom, r);
    if r > 0 {
        let prev = placed_before(dom, (r - 1) as nat);
        lemma_placed_len(dom, (r - 1) as nat);
        if prev[j] {
            lemma_placed_dominators(dom, (r - 1) as nat, j);
        }
        assert forall|i: int| 0 <= i < dom.len() && occurrences(#[trigger] dom[i]@, j) > 0 implies placed_before(dom, r)[i] by {
            assert(prev[i]);
        }
    }
}

/// Once a round places nothing new, no later round does.
proof fn lemma_placed_fixed(dom: Seq<Vec<usize>>, r: nat, s: nat)
    requires
        r <= s,
        placed_before(dom, r + 1) == placed_before(dom, r),
    ensures
        placed_before(dom, s) == placed_before(dom, r),
    decreases s - r,
{
    if r < s {
        lemma_placed_fixed(dom, r, (s - 1) as nat);
        assert(placed_before(dom, s) =~= placed_before(dom, (s - 1) as nat + 1));
    }
}

/// Unmarking one marked item adds its edges; edges are counted per marked item.
proof fn lemma_edges_unmark(dom: Seq<Vec<usize>>, flags: Seq<bool>, i: int, j: int, m: int)
    requires
        0 <= i < m <= flags.len(),
        !flags[i],
    ensures
        edges_from(dom, flags.update(i, true), j, m) == edges_from(dom, flags, j, m) + occurrences(dom[i]@, j),
    decreases m,
{
    if m - 1 > i {
        lemma_edges_unmark(dom, flags, i, j, m - 1);
    } else {
        lemma_edges_same(dom, flags, flags.update(i, true), j, m - 1);
    }
}

proof fn lemma_edges_same(dom: Seq<Vec<usize>>, f1: Seq<bool>, f2: Seq<bool>, j: int, m: int)
    requires
        forall|i: int| 0 <= i < m ==> f1[i] == f2[i],
    ensures
        edges_from(dom, f1, j, m) == edges_from(dom, f2, j, m),
    decreases m,
{
    if m > 0 {
        lemma_edges_same(dom, f1, f2, j, m - 1);
    }
}

/// No edges come from the marked items exactly when none of them dominates `j`.
proof fn lemma_edges_zero(dom: Seq<Vec<usize>>, flags: Seq<bool>, j: int, m: int)
    ensures
        edges_from(dom, flags, j, m) == 0 <==> forall|i: int| 0 <= i < m && flags[i] ==> occurrences(#[trigger] dom[i]@, j) == 0,
    decreases m,
{
    if m > 0 {
        lemma_edges_zero(dom, flags, j, m - 1);
    }
}

proof fn lemma_occurrences_step(s: Seq<usize>, k: int, j: int)
    requires
        0 <= k < s.len(),
    ensures
        occurrences(s.subrange(k, s.len() as int), j) == (if s[k] == j { 1nat } else { 0nat })
            + occurrences(s.subrange(k + 1, s.len() as int), j),
{
    assert(s.subrange(k, s.len() as int).drop_first() =~= s.subrange(k + 1, s.len() as int));
}
/// Every flag flipped.
pub open spec fn negate(flags: Seq<bool>) -> Seq<bool> {
    Seq::new(flags.len(), |i: int| !flags[i])
}

/// The number of entries in the first `m` lists.
pub open spec fn total_entries(dom: Seq<Vec<usize>>, m: int) -> nat
    decreases m,
{
    if m <= 0 {
        0
    } else {
        total_entries(dom, m - 1) + dom[m - 1]@.len()
    }
}

/// Every entry of every list names an item.
pub open spec fn entries_in_range(dom: Seq<Vec<usize>>) -> bool {
    forall|i: int, k: int| 0 <= i < dom.len() && 0 <= k < dom[i]@.len() ==> (#[trigger] dom[i]@[k]) < dom.len()
}

proof fn lemma_occurrences_push(s: Seq<usize>, x: usize, j: int)
    ensures
        occurrences(s.push(x), j) == occurrences(s, j) + (if x == j { 1nat } else { 0nat }),
    decreases s.len(),
{
    if s.len() == 0 {
        assert(s.push(x).drop_first() =~= s);
    } else {
        assert(s.push(x).drop_first() =~= s.drop_first().push(x));
        lemma_occurrences_push(s.drop_first(), x, j);
    }
}

proof fn lemma_occurrences_pos(s: Seq<usize>, k: int, j: int)
    requires
        0 <= k < s.len(),
        s[k] == j,
    ensures
        occurrences(s, j) > 0,
    decreases k,
{
    if k > 0 {
        lemma_occurrences_pos(s.drop_first(), k - 1, j);
    }
}

proof fn lemma_total_mono(dom: Seq<Vec<usize>>, a: int, b: int)
    requires
        0 <= a <= b,
    ensures
        total_entries(dom, a) <= total_entries(dom, b),
    decreases b - a,
{
    if a < b {
        lemma_total_mono(dom, a, b - 1);
    }
}

/// No unplaced item dominates `j` exactly when all of its dominators are placed.
proof fn lemma_edges_negate(dom: Seq<Vec<usize>>, placed: Seq<bool>, j: int)
    requires
        placed.len() == dom.len(),
    ensures
        edges_from(dom, negate(placed), j, dom.len() as int) == 0 <==> all_dominators_in(dom, placed, j),
{
    lemma_edges_zero(dom, negate(placed), j, dom.len() as int);
    if edges_from(dom, negate(placed), j, dom.len() as int) == 0 {
        assert forall|i: int| 0 <= i < dom.len() && occurrences(#[trigger] dom[i]@, j) > 0 implies placed[i] by {
            if !placed[i] {
                assert(negate(placed)[i]);
            }
        }
    } else {
        assert(!(forall|i: int| 0 <= i < dom.len() && negate(placed)[i] ==> occurrences(#[trigger] dom[i]@, j) == 0));
        let w = choose|i: int| 0 <= i < dom.len() && negate(placed)[i] && occurrences(#[trigger] dom[i]@, j) != 0;
        assert(!placed[w]);
    }
}

proof fn lemma_unmarked_all(flags: Seq<bool>, m: int)
    requires
        0 <= m <= flags.len(),
        forall|i: int| 0 <= i < m ==> !flags[i],
    ensures
        unmarked_count(flags, m) == m,
    decreases m,
{
    if m > 0 {
        lemma_unmarked_all(flags, m - 1);
    }
}

/// Marking more items leaves fewer unmarked, strictly fewer when one more is marked.
proof fn lemma_unmarked_strict(f1: Seq<bool>, f2: Seq<bool>, m: int, w: int)
    requires
        forall|i: int| 0 <= i < m && f1[i] ==> f2[i],
        0 <= w < m,
        !f1[w],
        f2[w],
    ensures
        unmarked_count(f2, m) < unmarked_count(f1, m),
    decreases m,
{
    if w == m - 1 {
        lemma_unmarked_mono(f1, f2, m - 1);
    } else {
        lemma_unmarked_strict(f1, f2, m - 1, w);
    }
}

proof fn lemma_unmarked_mono(f1: Seq<bool>, f2: Seq<bool>, m: int)
    requires
        forall|i: int| 0 <= i < m && f1[i] ==> f2[i],
    ensures
        unmarked_count(f2, m) <= unmarked_count(f1, m),
    decreases m,
{
    if m > 0 {
        lemma_unmarked_mono(f1, f2, m - 1);
    }
}

/// An item lies in at most one front.
pub proof fn lemma_front_unique(dom: Seq<Vec<usize>>, j: int, r1: nat, r2: nat)
    requires
        0 <= j < dom.len(),
        in_front(dom, j, r1),
        in_front(dom, j, r2),
    ensures
        r1 == r2,
{
    if r1 < r2 {
        lemma_placed_grows(dom, r1 + 1, r2, j);
    } else if r2 < r1 {
        lemma_placed_grows(dom, r2 + 1, r1, j);
    }
}

/// An item placed before front `r` lies in some earlier front.
proof fn lemma_placed_in_front(dom: Seq<Vec<usize>>, r: nat, i: int)
    requires
        0 <= i < dom.len(),
        placed_before(dom, r)[i],
    ensures
        exists|q: nat| q < r && #[trigger] in_front(dom, i, q),
    decreases r,
{
    lemma_placed_len(dom, r);
    if r > 0 {
        let p = (r - 1) as nat;
        lemma_placed_len(dom, p);
        if placed_before(dom, p)[i] {
            lemma_placed_in_front(dom, p, i);
            let q = choose|q: nat| q < p && #[trigger] in_front(dom, i, q);
            assert(in_front(dom, i, q));
        } else {
            assert(in_front(dom, i, p));
        }
    }
}

/// Whatever dominates an item of front `r` lies in a front before `r`; so no two items of
/// one front dominate each other.
pub proof fn lemma_dominators_in_earlier_fronts(dom: Seq<Vec<usize>>, i: int, j: int, r: nat)
    requires
        0 <= i < dom.len(),
        0 <= j < dom.len(),
        occurrences(dom[i]@, j) > 0,
        in_front(dom, j, r),
    ensures
        exists|q: nat| q < r && #[trigger] in_front(dom, i, q),
{
    lemma_placed_len(dom, r);
    lemma_placed_len(dom, r + 1);
    assert(all_dominators_in(dom, placed_before(dom, r), j));
    assert(placed_before(dom, r)[i]);
    lemma_placed_in_front(dom, r, i);
}

/// Item `j` enters front `r + 1` exactly when some dominator was unplaced before front `r`
/// and none is before front `r + 1`.
proof fn lemma_next_front(dom: Seq<Vec<usize>>, r: nat, j: int)
    requires
        0 <= j < dom.len(),
    ensures
        in_front(dom, j, r + 1) <==> (edges_from(dom, negate(placed_before(dom, r)), j, dom.len() as int) > 0
            && edges_from(dom, negate(placed_before(dom, r + 1)), j, dom.len() as int) == 0),
{
    lemma_placed_len(dom, r);
    lemma_placed_len(dom, r + 1);
    lemma_placed_len(dom, r + 2);
    lemma_edges_negate(dom, placed_before(dom, r), j);
    lemma_edges_negate(dom, placed_before(dom, r + 1), j);
    if placed_before(dom, r)[j] {
        lemma_placed_dominators(dom, r, j);
    }
}

/// Counts, for each item, the entries naming it over all the lists.
fn count_dominators(dominated_by: &Vec<Vec<usize>>) -> (count: Vec<usize>)
    requires
        entries_in_range(dominated_by@),
        total_entries(dominated_by@, dominated_by.len() as int) <= usize::MAX,
    ensures
        count.len() == dominated_by.len(),
        forall|j: int| 0 <= j < count.len() ==> count[j] == edges_from(dominated_by@,
            negate(placed_before(dominated_by@, 0)), j, dominated_by.len() as int),
{
    let n = dominated_by.len();
    let ghost dom = dominated_by@;
    let ghost flags = negate(placed_before(dom, 0));
    let mut count: Vec<usize> = Vec::new();
    let mut z: usize = 0;
    while z < n
        invariant
            z <= n,
            count.len() == z,
            forall|j: int| 0 <= j < z ==> count[j] == 0,
        decreases n - z,
    {
        count.push(0);
        z += 1;
    }
    let mut i: usize = 0;
    while i < n
        invariant
            n == dominated_by.len(),
            dom == dominated_by@,
            flags == negate(placed_before(dom, 0)),
            entries_in_range(dom),
            total_entries(dom, n as int) <= usize::MAX,
            i <= n,
            count.len() == n,
            forall|j: int| 0 <= j < n ==> count[j] == edges_from(dom, flags, j, i as int),
            forall|j: int| 0 <= j < n ==> count[j] <= total_entries(dom, i as int),
        decreases n - i,
    {
        let list = &dominated_by[i];
        let mut k: usize = 0;
        proof {
            lemma_total_mono(dom, i + 1, n as int);
        }
        while k < list.len()
            invariant
                n == dominated_by.len(),
                dom == dominated_by@,
                list@ == dom[i as int]@,
                entries_in_range(dom),
                i < n,
                k <= list.len(),
                count.len() == n,
                total_entries(dom, i + 1) <= usize::MAX,
                forall|j: int| 0 <= j < n ==> count[j] == edges_from(dom, flags, j, i as int)
                    + occurrences(list@.subrange(0, k as int), j),
                forall|j: int| 0 <= j < n ==> count[j] <= total_entries(dom, i as int) + k,
            decreases list.len() - k,
        {
            let j = list[k];
            assert(j < n) by {
                assert(dom[i as int]@[k as int] == j);
            }
            proof {
                assert(list@.subrange(0, k + 1) =~= list@.subrange(0, k as int).push(j));
                assert forall|q: int| 0 <= q < n implies occurrences(list@.subrange(0, k + 1), q)
                    == occurrences(list@.subrange(0, k as int), q) + (if j == q { 1nat } else { 0nat }) by {
                    lemma_occurrences_push(list@.subrange(0, k as int), j, q);
                }
            }
            let c = count[j];
            count.set(j, c + 1);
            k += 1;
        }
        proof {
            assert(list@.subrange(0, list.len() as int) =~= list@);
            lemma_placed_len(dom, 0);
            assert(flags[i as int]);
        }
        i += 1;
    }
    count
}

/// `next` holds, once each, exactly the items that had a dominator unplaced at the start
/// of the round (`start`) and whose count has reached zero.
spec fn released(dom: Seq<Vec<usize>>, start: Seq<bool>, count: Seq<usize>, next: Seq<usize>) -> bool {
    &&& forall|j: usize| j < dom.len() ==> (#[trigger] next.contains(j) <==> (edges_from(dom, start, j as int,
        dom.len() as int) > 0 && count[j as int] == 0))
    &&& forall|t: int| 0 <= t < next.len() ==> next[t] < dom.len()
    &&& next.no_duplicates()
}

/// Releases the items that `i` dominates: each count drops by the entries naming it in
/// `i`'s list, and an item whose count reaches zero joins `next`.
fn release_dominated(
    dominated_by: &Vec<Vec<usize>>,
    i: usize,
    count: &mut Vec<usize>,
    next: &mut Vec<usize>,
    Ghost(rest): Ghost<Seq<bool>>,
    Ghost(start): Ghost<Seq<bool>>,
)
    requires
        entries_in_range(dominated_by@),
        i < dominated_by.len(),
        start.len() == dominated_by.len(),
        start[i as int],
        old(count).len() == dominated_by.len(),
        forall|j: int| 0 <= j < dominated_by.len() ==> old(count)[j] == edges_from(dominated_by@, rest, j,
            dominated_by.len() as int) + occurrences(dominated_by@[i as int]@, j),
        released(dominated_by@, start, old(count)@, old(next)@),
    ensures
        final(count).len() == dominated_by.len(),
        forall|j: int| 0 <= j < dominated_by.len() ==> final(count)[j] == edges_from(dominated_by@, rest, j,
            dominated_by.len() as int),
        released(dominated_by@, start, final(count)@, final(next)@),
{
    let n = dominated_by.len();
    let ghost dom = dominated_by@;
    let list = &dominated_by[i];
    let mut k: usize = 0;
    proof {
        assert(list@.subrange(0, list.len() as int) =~= list@);
    }
    while k < list.len()
        invariant
            n == dominated_by.len(),
            dom == dominated_by@,
            list@ == dom[i as int]@,
            entries_in_range(dom),
            i < n,
            start.len() == n,
            start[i as int],
            k <= list.len(),
            count.len() == n,
            forall|j: int| 0 <= j < n ==> count[j] == edges_from(dom, rest, j, n as int)
                + occurrences(list@.subrange(k as int, list.len() as int), j),
            released(dom, start, count@, next@),
        decreases list.len() - k,
    {
        let j = list[k];
        assert(j < n) by {
            assert(dom[i as int]@[k as int] == j);
        }
        proof {
            assert forall|q: int| 0 <= q < n implies occurrences(list@.subrange(k as int, list.len() as int), q)
                == (if j == q { 1nat } else { 0nat }) + occurrences(list@.subrange(k + 1, list.len() as int), q) by {
                lemma_occurrences_step(list@, k as int, q);
            }
            lemma_occurrences_pos(list@, k as int, j as int);
            lemma_edges_zero(dom, start, j as int, n as int);
        }
        let c = count[j];
        let ghost old_next = next@;
        count.set(j, c - 1);
        if c == 1 {
            next.push(j);
            proof {
                assert(!old_next.contains(j));
                assert forall|a: int, b: int| 0 <= a < b < next@.len() implies next@[a] != next@[b] by {
                    if b == next@.len() - 1 {
                        assert(old_next[a] == next@[a]);
                    }
                }
            }
        }
        proof {
            assert forall|q: usize| q < n implies (#[trigger] next@.contains(q) <==> (edges_from(dom, start, q as int,
                n as int) > 0 && count[q as int] == 0)) by {
                if q != j {
                    assert(old_next.contains(q) <==> next@.contains(q));
                }
            }
        }
        k += 1;
    }
    proof {
        assert forall|j: int| 0 <= j < n implies occurrences(list@.subrange(list.len() as int, list.len() as int), j)
            == 0 by {
            assert(list@.subrange(list.len() as int, list.len() as int).len() == 0);
        }
    }
}

/// Sorts a population into Pareto fronts. `dominated_by[i]` lists the items that item `i`
/// dominates. Front 0 holds the items that nothing dominates; front `r + 1` holds the
/// items not yet placed all of whose dominators lie in fronts up to `r`. The result gives
/// each item its front; an item that never enters a front (one on a cycle of the relation,
/// or dominated by such an item) keeps 0.
pub fn pareto_front_levels(dominated_by: &Vec<Vec<usize>>) -> (levels: Vec<usize>)
    requires
        entries_in_range(dominated_by@),
        total_entries(dominated_by@, dominated_by.len() as int) <= usize::MAX,
    ensures
        levels.len() == dominated_by.len(),
        forall|j: int, r: nat| 0 <= j < levels.len() && #[trigger] in_front(dominated_by@, j, r) ==> levels[j] == r,
        forall|j: int| 0 <= j < levels.len() && (forall|r: nat| !#[trigger] in_front(dominated_by@, j, r))
            ==> levels[j] == 0,
{
    let n = dominated_by.len();
    let ghost dom = dominated_by@;
    let mut count = count_dominators(dominated_by);
    let mut levels: Vec<usize> = Vec::new();
    let mut current: Vec<usize> = Vec::new();
    let mut z: usize = 0;
    proof {
        lemma_placed_len(dom, 0);
    }
    while z < n
        invariant
            n == dominated_by.len(),
            dom == dominated_by@,
            z <= n,
            count.len() == n,
            levels.len() == z,
            forall|j: int| 0 <= j < z ==> levels[j] == 0,
            forall|j: int| 0 <= j < n ==> count[j] == edges_from(dom, negate(placed_before(dom, 0)), j, n as int),
            forall|j: int| 0 <= j < n ==> (current@.contains(j as usize) <==> (j < z && count[j] == 0)),
            forall|t: int| 0 <= t < current@.len() ==> current@[t] < z,
            current@.no_duplicates(),
        decreases n - z,
    {
        levels.push(0);
        if count[z] == 0 {
            current.push(z);
        }
        proof {
            assert forall|j: int| 0 <= j < n implies (current@.contains(j as usize) <==> (j < z + 1 && count[j] == 0)) by {
                if j == z {
                    assert(j as usize == z);
                }
            }
        }
        z += 1;
    }
    let mut level: usize = 0;
    proof {
        lemma_unmarked_all(placed_before(dom, 0), n as int);
        assert forall|j: int| 0 <= j < n implies (current@.contains(j as usize) <==> #[trigger] in_front(dom, j, 0)) by {
            lemma_placed_len(dom, 0);
            lemma_edges_negate(dom, placed_before(dom, 0), j);
            lemma_placed_len(dom, 1);
            assert(count[j] == edges_from(dom, negate(placed_before(dom, 0)), j, n as int));
            assert(current@.contains(j as usize) <==> count[j] == 0);
            assert(!placed_before(dom, 0)[j]);
            assert(placed_before(dom, 1)[j] == all_dominators_in(dom, placed_before(dom, 0), j));
        }
    }
    while current.len() > 0
        invariant
            n == dominated_by.len(),
            dom == dominated_by@,
            entries_in_range(dom),
            count.len() == n,
            levels.len() == n,
            level + unmarked_count(placed_before(dom, level as nat), n as int) <= n,
            forall|j: int| 0 <= j < n ==> count[j] == edges_from(dom, negate(placed_before(dom, level as nat)), j,
                n as int),
            forall|j: int| 0 <= j < n ==> (#[trigger] in_front(dom, j, level as nat) <==> current@.contains(j as usize)),
            forall|t: int| 0 <= t < current@.len() ==> current@[t] < n,
            current@.no_duplicates(),
            forall|j: int| 0 <= j < n && #[trigger] placed_before(dom, level as nat)[j] ==> in_front(dom, j, levels[j] as nat),
            forall|j: int| 0 <= j < n && !#[trigger] placed_before(dom, level as nat)[j] ==> levels[j] == 0,
        decreases unmarked_count(placed_before(dom, level as nat), n as int),
    {
        let ghost r = level as nat;
        let ghost before = placed_before(dom, r);
        let ghost after = placed_before(dom, r + 1);
        proof {
            lemma_placed_len(dom, r);
            lemma_placed_len(dom, r + 1);
            let w = current@[0] as int;
            assert(current@.contains(w as usize));
            assert(in_front(dom, w, r));
            lemma_unmarked_strict(before, after, n as int, w);
        }
        let ghost old_levels = levels@;
        let mut t: usize = 0;
        while t < current.len()
            invariant
                n == dominated_by.len(),
                levels.len() == n,
                old_levels.len() == n,
                t <= current.len(),
                forall|q: int| 0 <= q < current@.len() ==> current@[q] < n,
                forall|j: int| 0 <= j < n ==> levels[j] == (if current@.take(t as int).contains(j as usize) {
                    level
                } else {
                    old_levels[j]
                }),
            decreases current.len() - t,
        {
            let c = current[t];
            proof {
                assert forall|j: usize| j < n implies (#[trigger] current@.take(t + 1).contains(j) <==> (current@.take(
                    t as int).contains(j) || j == c)) by {
                    assert(current@.take(t + 1) =~= current@.take(t as int).push(c));
                }
            }
            levels.set(c, level);
            t += 1;
        }
        assert(current@.take(current.len() as int) =~= current@);
        let mut next: Vec<usize> = Vec::new();
        let ghost start = negate(before);
        let ghost mut rest = negate(before);
        let mut t: usize = 0;
        while t < current.len()
            invariant
                n == dominated_by.len(),
                dom == dominated_by@,
                entries_in_range(dom),
                r == level as nat,
                before == placed_before(dom, r),
                after == placed_before(dom, r + 1),
                before.len() == n,
                after.len() == n,
                start == negate(before),
                rest.len() == n,
                t <= current.len(),
                count.len() == n,
                forall|q: int| 0 <= q < current@.len() ==> current@[q] < n,
                current@.no_duplicates(),
                forall|j: int| 0 <= j < n ==> (#[trigger] in_front(dom, j, r) <==> current@.contains(j as usize)),
                forall|j: int| 0 <= j < n ==> rest[j] == (!before[j] && !current@.take(t as int).contains(j as usize)),
                forall|j: int| 0 <= j < n ==> count[j] == edges_from(dom, rest, j, n as int),
                released(dom, start, count@, next@),
            decreases current.len() - t,
        {
            let c = current[t];
            let ghost rest2 = rest.update(c as int, false);
            proof {
                assert(current@.take(t + 1) =~= current@.take(t as int).push(c));
                assert(current@.contains(c));
                assert(!current@.take(t as int).contains(c)) by {
                    if current@.take(t as int).contains(c) {
                        let q = choose|q: int| 0 <= q < t && current@.take(t as int)[q] == c;
                        assert(current@[q] == current@[t as int]);
                    }
                }
                assert(current@.contains((c as int) as usize));
                assert(in_front(dom, c as int, r));
                assert(rest[c as int]);
                assert(rest2.update(c as int, true) =~= rest);
                assert forall|j: int| 0 <= j < n implies count[j] == edges_from(dom, rest2, j, n as int)
                    + occurrences(dom[c as int]@, j) by {
                    lemma_edges_unmark(dom, rest2, c as int, j, n as int);
                }
                assert(start[c as int]);
            }
            release_dominated(dominated_by, c, &mut count, &mut next, Ghost(rest2), Ghost(start));
            proof {
                rest = rest2;
            }
            t += 1;
        }
        proof {
            assert(current@.take(current.len() as int) =~= current@);
            assert(after.len() == n);
            assert(rest =~= negate(after)) by {
                assert forall|j: int| 0 <= j < n implies rest[j] == negate(after)[j] by {
                    assert(after[j] == (before[j] || all_dominators_in(dom, before, j)));
                    if in_front(dom, j, r) {
                        assert(current@.contains(j as usize));
                    } else {
                        assert(!current@.contains(j as usize));
                    }
                }
            }
            assert forall|j: int| 0 <= j < n implies (next@.contains(j as usize) <==> #[trigger] in_front(dom, j, r + 1)) by {
                lemma_next_front(dom, r, j);
                assert(count[j] == edges_from(dom, negate(after), j, n as int));
                assert(next@.contains(j as usize) <==> (edges_from(dom, start, j, n as int) > 0 && count[j] == 0));
            }
            assert forall|j: int| 0 <= j < n && #[trigger] after[j] implies in_front(dom, j, levels[j] as nat) by {
                if !before[j] {
                    assert(in_front(dom, j, r));
                }
            }
            assert forall|j: int| 0 <= j < n && !#[trigger] after[j] implies levels[j] == 0 by {
                if current@.contains(j as usize) {
                    assert(in_front(dom, j, r));
                }
            }
        }
        current = next;
        level = level + 1;
    }
    proof {
        let r = level as nat;
        lemma_placed_len(dom, r);
        lemma_placed_len(dom, r + 1);
        assert(placed_before(dom, r + 1) =~= placed_before(dom, r)) by {
            assert forall|j: int| 0 <= j < n implies placed_before(dom, r + 1)[j] == placed_before(dom, r)[j] by {
                if !placed_before(dom, r)[j] && placed_before(dom, r + 1)[j] {
                    assert(in_front(dom, j, r));
                    assert(current@.contains(j as usize));
                }
            }
        }
        assert forall|j: int, q: nat| 0 <= j < n && #[trigger] in_front(dom, j, q) implies levels[j] == q by {
            if q >= r {
                lemma_placed_fixed(dom, r, q);
                lemma_placed_fixed(dom, r, q + 1);
            } else {
                lemma_placed_grows(dom, q + 1, r, j);
                lemma_front_unique(dom, j, q, levels[j] as nat);
            }
        }
        assert forall|j: int| 0 <= j < n && (forall|q: nat| !#[trigger] in_front(dom, j, q)) implies levels[j] == 0 by {
            if placed_before(dom, r)[j] {
                assert(in_front(dom, j, levels[j] as nat));
            }
        }
    }
    levels
}

} // verus!
