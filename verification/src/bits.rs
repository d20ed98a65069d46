//! Card sets held as 64-bit masks: bit `c` set means card `c` is in the set.
use vstd::prelude::*;
use vstd::std_specs::bits::{
    axiom_u64_leading_zeros, axiom_u64_trailing_zeros, u64_leading_zeros, u64_trailing_zeros,
};

verus! {

/// Card `c` belongs to the set `m`.
pub open spec fn mem(m: u64, c: int) -> bool {
    0 <= c < 64 && (m >> (c as u64)) & 1u64 == 1u64
}

/// The mask of the ten cards of suit `s` (cards `10 * s .. 10 * s + 9`).
pub open spec fn suit_mask_spec(s: int) -> u64 {
    (0x3FFu64 << ((s * 10) as u64)) as u64
}

/// Number of members of `m` among the positions below `n`.
pub open spec fn count_below(m: u64, n: nat) -> nat
    decreases n,
{
    if n == 0 {
        0
    } else {
        count_below(m, (n - 1) as nat) + if mem(m, n - 1) { 1nat } else { 0nat }
    }
}

/// Number of members of the set `m`.
pub open spec fn count(m: u64) -> nat {
    count_below(m, 64)
}

/// Every member of `m` is a card of the 40-card deck.
pub open spec fn in_deck(m: u64) -> bool {
    forall|c: int| mem(m, c) ==> c < 40
}

/// The smallest member of a non-empty set.
pub open spec fn lowest(m: u64) -> int {
    u64_trailing_zeros(m) as int
}

/// The largest member of a non-empty set.
pub open spec fn highest(m: u64) -> int {
    63 - u64_leading_zeros(m)
}

pub proof fn lemma_has_and(a: u64, b: u64, c: int)
    ensures
        mem(a & b, c) == (mem(a, c) && mem(b, c)),
{
    if 0 <= c < 64 {
        let k = c as u64;
        assert(((a & b) >> k) & 1u64 == 1u64 <==> ((a >> k) & 1u64 == 1u64 && (b >> k) & 1u64
            == 1u64)) by (bit_vector)
            requires
                k < 64,
        ;
    }
}

pub proof fn lemma_has_or(a: u64, b: u64, c: int)
    ensures
        mem(a | b, c) == (mem(a, c) || mem(b, c)),
{
    if 0 <= c < 64 {
        let k = c as u64;
        assert(((a | b) >> k) & 1u64 == 1u64 <==> ((a >> k) & 1u64 == 1u64 || (b >> k) & 1u64
            == 1u64)) by (bit_vector)
            requires
                k < 64,
        ;
    }
}

pub proof fn lemma_has_not(a: u64, c: int)
    ensures
        0 <= c < 64 ==> mem(!a, c) == !mem(a, c),
{
    if 0 <= c < 64 {
        let k = c as u64;
        assert(((!a) >> k) & 1u64 == 1u64 <==> !((a >> k) & 1u64 == 1u64)) by (bit_vector)
            requires
                k < 64,
        ;
    }
}

pub proof fn lemma_has_and_not(a: u64, b: u64, c: int)
    ensures
        mem(a & !b, c) == (mem(a, c) && !mem(b, c)),
{
    if 0 <= c < 64 {
        let k = c as u64;
        assert(((a & !b) >> k) & 1u64 == 1u64 <==> ((a >> k) & 1u64 == 1u64 && !((b >> k) & 1u64
            == 1u64))) by (bit_vector)
            requires
                k < 64,
        ;
    }
}

pub proof fn lemma_has_single(k: u64, c: int)
    requires
        k < 64,
    ensures
        mem(1u64 << k, c) == (c == k),
{
    if 0 <= c < 64 {
        let j = c as u64;
        assert(((1u64 << k) >> j) & 1u64 == 1u64 <==> j == k) by (bit_vector)
            requires
                k < 64,
                j < 64,
        ;
    }
}

pub proof fn lemma_has_zero(c: int)
    ensures
        !mem(0u64, c),
{
    if 0 <= c < 64 {
        let j = c as u64;
        assert((0u64 >> j) & 1u64 == 0u64) by (bit_vector);
    }
}

/// Removing a member makes the mask strictly smaller as a number.
pub proof fn lemma_remove_decreases(m: u64, c: int)
    requires
        mem(m, c),
    ensures
        m & !(1u64 << (c as u64)) < m,
{
    let k = c as u64;
    assert((m >> k) & 1u64 == 1u64 ==> m & !(1u64 << k) < m) by (bit_vector)
        requires
            k < 64,
    ;
}

/// A non-empty mask has a member.
pub proof fn lemma_nonzero_has_lowest(m: u64)
    requires
        m != 0,
    ensures
        0 <= lowest(m) < 64,
        mem(m, lowest(m)),
        forall|j: int| 0 <= j < lowest(m) ==> !mem(m, j),
{
    axiom_u64_trailing_zeros(m);
    assert forall|j: int| 0 <= j < lowest(m) implies !mem(m, j) by {
        let k = j as u64;
        assert((m >> k) & 1u64 == 0u64);
    }
}

/// `lowest` is the least member of a non-empty mask.
pub proof fn lemma_lowest(m: u64)
    ensures
        m != 0 ==> 0 <= lowest(m) < 64 && mem(m, lowest(m)) && (forall|j: int|
            #![trigger mem(m, j)]
            0 <= j < lowest(m) ==> !mem(m, j)),
        m == 0 ==> lowest(m) == 64,
{
    axiom_u64_trailing_zeros(m);
    if m != 0 {
        lemma_nonzero_has_lowest(m);
    }
}

/// `highest` is the greatest member of a non-empty mask.
pub proof fn lemma_highest(m: u64)
    ensures
        m != 0 ==> 0 <= highest(m) < 64 && mem(m, highest(m)) && (forall|j: int|
            #![trigger mem(m, j)]
            highest(m) < j ==> !mem(m, j)),
        m == 0 ==> highest(m) == -1,
{
    axiom_u64_leading_zeros(m);
    if m != 0 {
        let lz = u64_leading_zeros(m);
        assert(0 <= lz < 64);
        let k = (63 - lz) as u64;
        assert((m >> k) & 1u64 != 0u64);
        assert((m >> k) & 1u64 != 0u64 ==> (m >> k) & 1u64 == 1u64) by (bit_vector);
        assert forall|j: int| highest(m) < j implies !mem(m, j) by {
            if 0 <= j < 64 {
                let jj = j as u64;
                assert(64 - lz <= jj < 64);
                assert((m >> jj) & 1u64 == 0u64);
            }
        }
    }
}

/// A mask with no member below 64 is zero.
pub proof fn lemma_empty_is_zero(m: u64)
    requires
        forall|c: int| 0 <= c < 64 ==> !mem(m, c),
    ensures
        m == 0,
{
    if m != 0 {
        lemma_nonzero_has_lowest(m);
    }
}

/// Two masks with the same members are equal.
pub proof fn lemma_ext(a: u64, b: u64)
    requires
        forall|c: int| 0 <= c < 64 ==> mem(a, c) == mem(b, c),
    ensures
        a == b,
{
    assert forall|c: int| 0 <= c < 64 implies !mem(a ^ b, c) by {
        let k = c as u64;
        assert(mem(a, c) == mem(b, c));
        assert(((a >> k) & 1u64 == 1u64) == ((b >> k) & 1u64 == 1u64) ==> ((a ^ b) >> k) & 1u64
            != 1u64) by (bit_vector)
            requires
                k < 64,
        ;
    }
    lemma_empty_is_zero(a ^ b);
    assert(a ^ b == 0u64 ==> a == b) by (bit_vector);
}

/// The members of a suit mask are the cards of that suit.
pub proof fn lemma_suit_mask(s: int, c: int)
    requires
        0 <= s <= 6,
    ensures
        mem(suit_mask_spec(s), c) == (0 <= c < 64 && c / 10 == s),
{
    if 0 <= c < 64 {
        let k = c as u64;
        if s == 0 {
            assert(((0x3FFu64 << 0u64) >> k) & 1u64 == 1u64 <==> k < 10) by (bit_vector)
                requires k < 64;
        } else if s == 1 {
            assert(((0x3FFu64 << 10u64) >> k) & 1u64 == 1u64 <==> 10 <= k < 20) by (bit_vector)
                requires k < 64;
        } else if s == 2 {
            assert(((0x3FFu64 << 20u64) >> k) & 1u64 == 1u64 <==> 20 <= k < 30) by (bit_vector)
                requires k < 64;
        } else if s == 3 {
            assert(((0x3FFu64 << 30u64) >> k) & 1u64 == 1u64 <==> 30 <= k < 40) by (bit_vector)
                requires k < 64;
        } else if s == 4 {
            assert(((0x3FFu64 << 40u64) >> k) & 1u64 == 1u64 <==> 40 <= k < 50) by (bit_vector)
                requires k < 64;
        } else if s == 5 {
            assert(((0x3FFu64 << 50u64) >> k) & 1u64 == 1u64 <==> 50 <= k < 60) by (bit_vector)
                requires k < 64;
        } else {
            assert(((0x3FFu64 << 60u64) >> k) & 1u64 == 1u64 <==> 60 <= k) by (bit_vector)
                requires k < 64;
        }
    }
}

/// Counting agrees for masks that agree below `n`.
pub proof fn lemma_count_below_same(a: u64, b: u64, n: nat)
    requires
        forall|c: int| 0 <= c < n ==> mem(a, c) == mem(b, c),
    ensures
        count_below(a, n) == count_below(b, n),
    decreases n,
{
    if n > 0 {
        lemma_count_below_same(a, b, (n - 1) as nat);
    }
}

/// Removing one member lowers the count by one.
pub proof fn lemma_count_below_remove(a: u64, b: u64, k: int, n: nat)
    requires
        0 <= k < n,
        mem(b, k),
        forall|c: int| 0 <= c < n ==> mem(a, c) == (mem(b, c) && c != k),
    ensures
        count_below(a, n) + 1 == count_below(b, n),
    decreases n,
{
    if n - 1 == k {
        lemma_count_below_same(a, b, (n - 1) as nat);
    } else {
        lemma_count_below_remove(a, b, k, (n - 1) as nat);
    }
}

/// A set with two different members has at least two members.
pub proof fn lemma_two_members(m: u64, a: int, b: int)
    requires
        mem(m, a),
        mem(m, b),
        a != b,
    ensures
        count(m) >= 2,
{
    let r = m & !single_spec(a as u8);
    assert forall|c: int| 0 <= c < 64 implies mem(r, c) == (mem(m, c) && c != a) by {
        lemma_has_and_not(m, single_spec(a as u8), c);
        lemma_has_single(a as u64, c);
    }
    lemma_count_below_remove(r, m, a, 64);
    assert(mem(r, b));
    lemma_count_below_zero(r, 64);
}

/// A set with more than one member has a member other than any given one.
pub proof fn lemma_other_member(m: u64, a: int)
    requires
        mem(m, a),
        count(m) > 1,
    ensures
        exists|b: int| #[trigger] mem(m, b) && b != a,
{
    let r = m & !single_spec(a as u8);
    assert forall|c: int| 0 <= c < 64 implies mem(r, c) == (mem(m, c) && c != a) by {
        lemma_has_and_not(m, single_spec(a as u8), c);
        lemma_has_single(a as u64, c);
    }
    lemma_count_below_remove(r, m, a, 64);
    lemma_count_below_zero(r, 64);
    let b = choose|b: int| 0 <= b < 64 && mem(r, b);
    assert(mem(m, b) && b != a);
}

/// A mask has no more members below `n` than `n`.
pub proof fn lemma_count_below_bound(a: u64, n: nat)
    ensures
        count_below(a, n) <= n,
    decreases n,
{
    if n > 0 {
        lemma_count_below_bound(a, (n - 1) as nat);
    }
}

/// A mask with no members below `n` counts zero there, and conversely.
pub proof fn lemma_count_below_zero(a: u64, n: nat)
    ensures
        count_below(a, n) == 0 <==> forall|c: int| 0 <= c < n ==> !mem(a, c),
    decreases n,
{
    if n > 0 {
        lemma_count_below_zero(a, (n - 1) as nat);
    }
}

/// Counting a subset gives no more than counting the set.
pub proof fn lemma_count_below_subset(a: u64, b: u64, n: nat)
    requires
        forall|c: int| 0 <= c < n && mem(a, c) ==> mem(b, c),
    ensures
        count_below(a, n) <= count_below(b, n),
    decreases n,
{
    if n > 0 {
        lemma_count_below_subset(a, b, (n - 1) as nat);
    }
}

/// Members of a deck mask lie below 40, so counting to 40 counts them all.
pub proof fn lemma_count_deck(a: u64, n: nat)
    requires
        in_deck(a),
        40 <= n <= 64,
    ensures
        count_below(a, n) == count_below(a, 40),
    decreases n,
{
    if n > 40 {
        lemma_count_deck(a, (n - 1) as nat);
    }
}

/// The number of members of `m`, computed bit by bit.
pub fn popcount(m: u64) -> (r: u32)
    ensures
        r == count(m),
{
    let mut r: u32 = 0;
    let mut i: u64 = 0;
    while i < 64
        invariant
            i <= 64,
            r == count_below(m, i as nat),
            r <= i,
        decreases 64 - i,
    {
        proof {
            lemma_count_below_bound(m, (i + 1) as nat);
        }
        if (m >> i) & 1u64 == 1u64 {
            r = r + 1;
        }
        i = i + 1;
    }
    r
}

/// The smallest member of a non-empty mask.
pub fn lowest_card(m: u64) -> (c: u8)
    requires
        m != 0,
    ensures
        c == lowest(m),
        c < 64,
        mem(m, c as int),
        forall|j: int| 0 <= j < c ==> !mem(m, j),
{
    proof {
        lemma_nonzero_has_lowest(m);
    }
    m.trailing_zeros() as u8
}

/// The largest member of a non-empty mask.
pub fn highest_card(m: u64) -> (c: u8)
    requires
        m != 0,
    ensures
        c == highest(m),
        c < 64,
        mem(m, c as int),
        forall|j: int| c < j ==> !mem(m, j),
{
    proof {
        lemma_highest(m);
    }
    (63 - m.leading_zeros()) as u8
}

/// The mask holding the single card `c`.
pub open spec fn single_spec(c: u8) -> u64 {
    1u64 << (c as u64)
}

/// The mask holding the single card `c`.
pub fn single(c: u8) -> (m: u64)
    requires
        c < 64,
    ensures
        m == single_spec(c),
        forall|j: int| #![trigger mem(m, j)] mem(m, j) == (j == c),
{
    proof {
        assert forall|j: int| #![trigger mem(1u64 << (c as u64), j)] mem(1u64 << (c as u64), j) == (j == c) by {
            lemma_has_single(c as u64, j);
        }
    }
    1u64 << c
}

/// The mask of the ten cards of suit `s`.
pub fn suit_mask(s: u8) -> (m: u64)
    requires
        s <= 6,
    ensures
        m == suit_mask_spec(s as int),
        forall|c: int| #![trigger mem(m, c)] mem(m, c) == (0 <= c < 64 && c / 10 == s),
{
    proof {
        assert forall|c: int| #![trigger mem(suit_mask_spec(s as int), c)] mem(suit_mask_spec(s as int), c) == (0 <= c < 64 && c / 10 == s) by {
            lemma_suit_mask(s as int, c);
        }
    }
    0x3FFu64 << (s * 10)
}


/// Ten consecutive positions starting at `k`.
pub proof fn lemma_run_mask(k: u64, c: int)
    requires
        k <= 54,
    ensures
        mem(0x3FFu64 << k, c) == (k <= c < k + 10),
{
    if 0 <= c < 64 {
        let j = c as u64;
        assert(((0x3FFu64 << k) >> j) & 1u64 == 1u64 <==> k <= j < k + 10) by (bit_vector)
            requires
                k <= 54,
                j < 64,
        ;
    }
}

/// `r` is the first member of `m`, in card order, among those of least key.
pub open spec fn first_min(m: u64, key: spec_fn(int) -> int, r: int) -> bool {
    &&& mem(m, r)
    &&& forall|c: int| #[trigger] mem(m, c) ==> key(r) <= key(c)
    &&& forall|c: int| #[trigger] mem(m, c) && c < r ==> key(r) < key(c)
}

/// The first member of `m`, in card order, among those of least key.
pub fn min_by_keys(m: u64, keys: &[u32; 40]) -> (r: u8)
    requires
        m != 0,
        in_deck(m),
    ensures
        r < 40,
        mem(m, r as int),
        forall|c: int| #[trigger] mem(m, c) ==> keys[r as int] <= keys[c],
        forall|c: int| #[trigger] mem(m, c) && c < r ==> keys[r as int] < keys[c],
{
    proof {
        lemma_nonzero_has_lowest(m);
    }
    let first = lowest_card(m);
    let mut best = first;
    let mut best_key = keys[first as usize];
    let mut temp = m & !single(first);
    let ghost mut lo: int = first + 1;
    proof {
        assert forall|j: int| #[trigger] mem(temp, j) == (mem(m, j) && j >= lo) by {
            lemma_has_and_not(m, single_spec(first), j);
            lemma_has_single(first as u64, j);
        }
    }
    while temp != 0
        invariant
            in_deck(m),
            forall|j: int| #[trigger] mem(temp, j) == (mem(m, j) && j >= lo),
            mem(m, best as int),
            best < lo,
            best < 40,
            best_key == keys[best as int],
            forall|c: int| #[trigger] mem(m, c) && c < lo ==> keys[best as int] <= keys[c],
            forall|c: int| #[trigger] mem(m, c) && c < best ==> keys[best as int] < keys[c],
        decreases temp,
    {
        proof {
            lemma_nonzero_has_lowest(temp);
            lemma_remove_decreases(temp, lowest(temp));
        }
        let c = lowest_card(temp);
        proof {
            assert forall|j: int| lo <= j < c implies !mem(m, j) by {
                if mem(m, j) {
                    assert(mem(temp, j));
                }
            }
        }
        let k = keys[c as usize];
        if k < best_key {
            best = c;
            best_key = k;
        }
        let ghost old_temp = temp;
        temp = temp & !single(c);
        proof {
            lo = c + 1;
            assert forall|j: int| #[trigger] mem(temp, j) == (mem(m, j) && j >= lo) by {
                lemma_has_and_not(old_temp, single_spec(c), j);
                lemma_has_single(c as u64, j);
            }
        }
    }
    proof {
        assert forall|c: int| #[trigger] mem(m, c) implies c < lo by {
            if c >= lo {
                assert(mem(temp, c));
                lemma_has_zero(c);
            }
        }
    }
    best
}


/// `s` lists the members of `m`, each once, in increasing order.
pub open spec fn lists(s: Seq<u8>, m: u64) -> bool {
    &&& forall|k: int| 0 <= k < s.len() ==> mem(m, #[trigger] s[k] as int)
    &&& forall|j: int, k: int| 0 <= j < k < s.len() ==> #[trigger] s[j] < #[trigger] s[k]
    &&& forall|c: int| #[trigger] mem(m, c) ==> exists|k: int| 0 <= k < s.len() && s[k] == c
}

/// The members of `m` in increasing order.
pub fn cards_of(m: u64) -> (v: Vec<u8>)
    ensures
        lists(v@, m),
{
    let mut v: Vec<u8> = Vec::new();
    let mut temp = m;
    let ghost mut lo: int = 0;
    while temp != 0
        invariant
            0 <= lo <= 64,
            forall|j: int| #[trigger] mem(temp, j) == (mem(m, j) && j >= lo),
            forall|k: int| 0 <= k < v@.len() ==> mem(m, #[trigger] v@[k] as int) && v@[k] < lo,
            forall|j: int, k: int| 0 <= j < k < v@.len() ==> #[trigger] v@[j] < #[trigger] v@[k],
            forall|c: int| #[trigger] mem(m, c) && c < lo ==> exists|k: int| 0 <= k < v@.len() && v@[k] == c,
        decreases temp,
    {
        proof {
            lemma_nonzero_has_lowest(temp);
            lemma_remove_decreases(temp, lowest(temp));
        }
        let c = lowest_card(temp);
        proof {
            assert forall|j: int| lo <= j < c implies !mem(m, j) by {
                if mem(m, j) {
                    assert(mem(temp, j));
                }
            }
        }
        let ghost old_v = v@;
        v.push(c);
        proof {
            assert(v@[old_v.len() as int] == c);
            assert forall|cc: int| #[trigger] mem(m, cc) && cc < c + 1 implies exists|k: int| 0 <= k < v@.len() && v@[k] == cc by {
                if cc < lo {
                    let k = choose|k: int| 0 <= k < old_v.len() && old_v[k] == cc;
                    assert(v@[k] == cc);
                } else {
                    assert(cc == c);
                    assert(v@[old_v.len() as int] == cc);
                }
            }
        }
        let ghost old_temp = temp;
        temp = temp & !single(c);
        proof {
            lo = c + 1;
            assert forall|j: int| #[trigger] mem(temp, j) == (mem(m, j) && j >= lo) by {
                lemma_has_and_not(old_temp, single_spec(c), j);
                lemma_has_single(c as u64, j);
            }
        }
    }
    proof {
        assert forall|c: int| #[trigger] mem(m, c) implies exists|k: int| 0 <= k < v@.len() && v@[k] == c by {
            if c >= lo {
                assert(mem(temp, c));
                lemma_has_zero(c);
            }
        }
    }
    v
}

/// The mask of the 40 cards of the deck.
pub const DECK: u64 = 0xFF_FFFF_FFFFu64;

/// The members of the deck mask are the cards `0..40`.
pub proof fn lemma_deck(c: int)
    ensures
        mem(DECK, c) == (0 <= c < 40),
{
    if 0 <= c < 64 {
        let k = c as u64;
        assert((0xFF_FFFF_FFFFu64 >> k) & 1u64 == 1u64 <==> k < 40) by (bit_vector)
            requires
                k < 64,
        ;
    }
}

/// Does every member of `m` lie in the deck?
pub fn is_in_deck(m: u64) -> (r: bool)
    ensures
        r == in_deck(m),
{
    let rest = m & !DECK;
    proof {
        assert forall|c: int| #[trigger] mem(rest, c) == (mem(m, c) && c >= 40) by {
            lemma_has_and_not(m, DECK, c);
            lemma_deck(c);
        }
        if rest != 0 {
            lemma_nonzero_has_lowest(rest);
            assert(mem(m, lowest(rest)));
        } else {
            assert forall|c: int| mem(m, c) implies c < 40 by {
                if c >= 40 {
                    assert(mem(rest, c));
                    lemma_has_zero(c);
                }
            }
        }
    }
    rest == 0
}

} // verus!
