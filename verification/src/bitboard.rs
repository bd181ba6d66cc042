use vstd::prelude::*;
use vstd::std_specs::bits::u64_trailing_zeros;
use vstd::std_specs::bits::axiom_u64_trailing_zeros;
use vstd::std_specs::bits::axiom_u64_leading_zeros;

verus! {

/// Whether square `sq` is a member of the set of squares that `b` encodes:
/// bit `sq` of `b` is set. No square outside `0..64` is a member.
pub open spec fn holds(b: u64, sq: int) -> bool {
    0 <= sq < 64 && (b >> (sq as u64)) & 1u64 == 1u64
}

proof fn bits_of_combinations(a: u64, b: u64, i: u64)
    by (bit_vector)
    requires
        i < 64,
    ensures
        ((a | b) >> i) & 1u64 == 1u64 <==> ((a >> i) & 1u64 == 1u64 || (b >> i) & 1u64 == 1u64),
        ((a & b) >> i) & 1u64 == 1u64 <==> ((a >> i) & 1u64 == 1u64 && (b >> i) & 1u64 == 1u64),
        ((!a) >> i) & 1u64 == 1u64 <==> !((a >> i) & 1u64 == 1u64),
        (0u64 >> i) & 1u64 != 1u64,
{
}

proof fn bits_of_masks(i: u64, j: u64)
    by (bit_vector)
    requires
        i < 64,
        j < 64,
    ensures
        ((1u64 << i) >> j) & 1u64 == 1u64 <==> i == j,
        ((0xffff_ffff_ffff_ffffu64 << i) >> j) & 1u64 == 1u64 <==> i <= j,
{
}

/// Every member of a board is a square of the board.
pub proof fn lemma_holds_range(b: u64, sq: int)
    ensures
        holds(b, sq) ==> 0 <= sq < 64,
{
}

/// The board 0 has no member.
pub proof fn lemma_holds_empty(sq: int)
    ensures
        !holds(0u64, sq),
{
    if 0 <= sq < 64 {
        bits_of_combinations(0, 0, sq as u64);
    }
}

/// `|` is the union of two boards.
pub proof fn lemma_holds_or(a: u64, b: u64, sq: int)
    ensures
        holds(a | b, sq) == (holds(a, sq) || holds(b, sq)),
{
    if 0 <= sq < 64 {
        bits_of_combinations(a, b, sq as u64);
    }
}

/// `&` is the intersection of two boards.
pub proof fn lemma_holds_and(a: u64, b: u64, sq: int)
    ensures
        holds(a & b, sq) == (holds(a, sq) && holds(b, sq)),
{
    if 0 <= sq < 64 {
        bits_of_combinations(a, b, sq as u64);
    }
}

/// `!` is the complement of a board among the 64 squares.
pub proof fn lemma_holds_not(a: u64, sq: int)
    ensures
        holds(!a, sq) == (0 <= sq < 64 && !holds(a, sq)),
{
    if 0 <= sq < 64 {
        bits_of_combinations(a, a, sq as u64);
    }
}

/// Membership in the union of six boards.
pub proof fn lemma_holds_or6(a: u64, b: u64, c: u64, d: u64, e: u64, f: u64, sq: int)
    ensures
        holds(a | b | c | d | e | f, sq) == (holds(a, sq) || holds(b, sq) || holds(c, sq) || holds(
            d,
            sq,
        ) || holds(e, sq) || holds(f, sq)),
{
    lemma_holds_or(a, b, sq);
    lemma_holds_or(a | b, c, sq);
    lemma_holds_or(a | b | c, d, sq);
    lemma_holds_or(a | b | c | d, e, sq);
    lemma_holds_or(a | b | c | d | e, f, sq);
}

/// The board with the single square `sq`; the empty board where `sq` is
/// off the board.
pub fn single(sq: u8) -> (b: u64)
    ensures
        forall|t: int| #[trigger] holds(b, t) == (t == sq && t < 64),
{
    if sq >= 64 {
        proof {
            assert forall|t: int| !#[trigger] holds(0u64, t) by {
                lemma_holds_empty(t);
            }
        }
        return 0;
    }
    let b: u64 = 1u64 << sq;
    proof {
        assert forall|t: int| #[trigger] holds(b, t) == (t == sq && t < 64) by {
            if 0 <= t < 64 {
                bits_of_masks(sq as u64, t as u64);
            }
        }
    }
    b
}

/// Whether `sq` is a member of `b`.
pub fn contains(b: u64, sq: u8) -> (r: bool)
    ensures
        r == holds(b, sq as int),
{
    sq < 64 && (b >> sq) & 1u64 == 1u64
}

proof fn bit_set_is_one(b: u64, i: u64)
    by (bit_vector)
    requires
        i < 64,
        (b >> i) & 1u64 != 0u64,
    ensures
        (b >> i) & 1u64 == 1u64,
{
}

/// A board that is not the empty board has a member.
pub proof fn lemma_nonzero_member(b: u64)
    requires
        b != 0,
    ensures
        exists|sq: int| holds(b, sq),
{
    axiom_u64_trailing_zeros(b);
    assert(holds(b, u64_trailing_zeros(b) as int));
}

proof fn bits_of_difference(a: u64, b: u64, i: u64)
    by (bit_vector)
    requires
        i < 64,
    ensures
        ((a ^ b) >> i) & 1u64 == 1u64 <==> (((a >> i) & 1u64 == 1u64) != ((b >> i) & 1u64
            == 1u64)),
        a ^ b == 0 ==> a == b,
{
}

/// Two boards with the same members are the same board.
pub proof fn law_same_members(a: u64, b: u64)
    requires
        forall|sq: int| holds(a, sq) == holds(b, sq),
    ensures
        a == b,
{
    if a ^ b != 0 {
        lemma_nonzero_member(a ^ b);
        let sq = choose|sq: int| holds(a ^ b, sq);
        bits_of_difference(a, b, sq as u64);
        assert(holds(a, sq) == holds(b, sq));
    } else {
        bits_of_difference(a, b, 0);
    }
}

/// The member of `b` with the smallest number.
pub fn lowest(b: u64) -> (sq: u8)
    requires
        b != 0,
    ensures
        sq < 64,
        holds(b, sq as int),
        forall|t: int| holds(b, t) ==> sq <= t,
{
    let n: u32 = b.trailing_zeros();
    proof {
        axiom_u64_trailing_zeros(b);
        assert forall|t: int| holds(b, t) implies n <= t by {
            if t < n {
                let j: u64 = t as u64;
                assert((b >> j) & 1u64 == 0u64);
            }
        }
    }
    n as u8
}

/// The member of `b` with the largest number.
pub fn highest(b: u64) -> (sq: u8)
    requires
        b != 0,
    ensures
        sq < 64,
        holds(b, sq as int),
        forall|t: int| holds(b, t) ==> t <= sq,
{
    let n: u32 = b.leading_zeros();
    proof {
        axiom_u64_leading_zeros(b);
        let top: u64 = (63 - n) as u64;
        bit_set_is_one(b, top);
        assert forall|t: int| holds(b, t) implies t <= 63 - n by {
            if t > 63 - n {
                let j: u64 = t as u64;
                assert((b >> j) & 1u64 == 0u64);
            }
        }
    }
    (63 - n) as u8
}

/// `b` without the square `sq`.
pub fn without(b: u64, sq: u8) -> (r: u64)
    ensures
        forall|t: int| #[trigger] holds(r, t) == (holds(b, t) && t != sq),
{
    let one: u64 = single(sq);
    let r: u64 = b & !one;
    proof {
        assert forall|t: int| #[trigger] holds(r, t) == (holds(b, t) && t != sq) by {
            lemma_holds_and(b, !one, t);
            lemma_holds_not(one, t);
        }
    }
    r
}

/// The squares with a number smaller than `sq`.
pub fn below(sq: u8) -> (r: u64)
    ensures
        forall|t: int| #[trigger] holds(r, t) == (0 <= t < sq && t < 64),
{
    if sq >= 64 {
        let all: u64 = 0xffff_ffff_ffff_ffffu64;
        proof {
            assert forall|t: int| #[trigger] holds(all, t) == (0 <= t < 64) by {
                if 0 <= t < 64 {
                    bits_of_masks(0, t as u64);
                    assert(all << 0u64 == all) by (bit_vector);
                }
            }
        }
        return all;
    }
    let up: u64 = 0xffff_ffff_ffff_ffffu64 << sq;
    let r: u64 = !up;
    proof {
        assert forall|t: int| #[trigger] holds(r, t) == (0 <= t < sq && t < 64) by {
            lemma_holds_not(up, t);
            if 0 <= t < 64 {
                bits_of_masks(sq as u64, t as u64);
            }
        }
    }
    r
}

/// The squares with a number larger than `sq`.
pub fn above(sq: u8) -> (r: u64)
    ensures
        forall|t: int| #[trigger] holds(r, t) == (sq < t < 64),
{
    if sq >= 64 {
        proof {
            assert forall|t: int| !#[trigger] holds(0u64, t) by {
                lemma_holds_empty(t);
            }
        }
        return 0;
    }
    let up: u64 = 0xffff_ffff_ffff_ffffu64 << sq;
    let r: u64 = without(up, sq);
    proof {
        assert forall|t: int| #[trigger] holds(r, t) == (sq < t < 64) by {
            if 0 <= t < 64 {
                bits_of_masks(sq as u64, t as u64);
            }
        }
    }
    r
}

proof fn bits_of_start(i: u64)
    by (bit_vector)
    requires
        i < 64,
    ensures
        (0x000000000000FF00u64 >> i) & 1u64 == 1u64 <==> (8 <= i && i < 16),
        (0x0000000000000042u64 >> i) & 1u64 == 1u64 <==> (i == 1 || i == 6),
        (0x0000000000000024u64 >> i) & 1u64 == 1u64 <==> (i == 2 || i == 5),
        (0x0000000000000081u64 >> i) & 1u64 == 1u64 <==> (i == 0 || i == 7),
        (0x0000000000000008u64 >> i) & 1u64 == 1u64 <==> i == 3,
        (0x0000000000000010u64 >> i) & 1u64 == 1u64 <==> i == 4,
        (0x00FF000000000000u64 >> i) & 1u64 == 1u64 <==> (48 <= i && i < 56),
        (0x4200000000000000u64 >> i) & 1u64 == 1u64 <==> (i == 57 || i == 62),
        (0x2400000000000000u64 >> i) & 1u64 == 1u64 <==> (i == 58 || i == 61),
        (0x8100000000000000u64 >> i) & 1u64 == 1u64 <==> (i == 56 || i == 63),
        (0x0800000000000000u64 >> i) & 1u64 == 1u64 <==> i == 59,
        (0x1000000000000000u64 >> i) & 1u64 == 1u64 <==> i == 60,
{
}

/// The members of the twelve bitboards of the starting position.
pub proof fn lemma_start_squares(sq: int)
    ensures
        holds(0x000000000000FF00u64, sq) <==> 8 <= sq < 16,
        holds(0x0000000000000042u64, sq) <==> (sq == 1 || sq == 6),
        holds(0x0000000000000024u64, sq) <==> (sq == 2 || sq == 5),
        holds(0x0000000000000081u64, sq) <==> (sq == 0 || sq == 7),
        holds(0x0000000000000008u64, sq) <==> sq == 3,
        holds(0x0000000000000010u64, sq) <==> sq == 4,
        holds(0x00FF000000000000u64, sq) <==> 48 <= sq < 56,
        holds(0x4200000000000000u64, sq) <==> (sq == 57 || sq == 62),
        holds(0x2400000000000000u64, sq) <==> (sq == 58 || sq == 61),
        holds(0x8100000000000000u64, sq) <==> (sq == 56 || sq == 63),
        holds(0x0800000000000000u64, sq) <==> sq == 59,
        holds(0x1000000000000000u64, sq) <==> sq == 60,
{
    if 0 <= sq < 64 {
        bits_of_start(sq as u64);
    }
}

/// The set of squares that `b` encodes.
pub open spec fn members(b: u64) -> Set<int> {
    Set::new(|sq: int| holds(b, sq))
}

/// The squares of `set` with a number below `n`, in ascending order.
pub open spec fn ascending(set: Set<int>, n: nat) -> Seq<u8>
    decreases n,
{
    if n == 0 {
        Seq::empty()
    } else {
        let rest = ascending(set, (n - 1) as nat);
        if set.contains(n - 1) {
            rest.push((n - 1) as u8)
        } else {
            rest
        }
    }
}

/// The members of `b` in ascending order.
pub open spec fn squares_of(b: u64) -> Seq<u8> {
    ascending(members(b), 64)
}

/// `ascending` lists exactly the squares of the set below `n`, each once, in
/// ascending order.
pub proof fn lemma_ascending(set: Set<int>, n: nat)
    requires
        n <= 64,
    ensures
        forall|sq: u8| #[trigger]
            ascending(set, n).contains(sq) <==> (sq < n && set.contains(sq as int)),
        forall|i: int, j: int|
            0 <= i < j < ascending(set, n).len() ==> #[trigger] ascending(set, n)[i]
                < #[trigger] ascending(set, n)[j],
        ascending(set, n).no_duplicates(),
        ascending(set, n).len() <= n,
    decreases n,
{
    if n > 0 {
        let rest = ascending(set, (n - 1) as nat);
        lemma_ascending(set, (n - 1) as nat);
        let all = ascending(set, n);
        if set.contains(n - 1) {
            let last = (n - 1) as u8;
            assert(all == rest.push(last));
            assert(all.len() == rest.len() + 1);
            assert forall|sq: u8| all.contains(sq) implies (sq < n && set.contains(sq as int)) by {
                let i = choose|i: int| 0 <= i < all.len() && all[i] == sq;
                if i < rest.len() {
                    assert(rest[i] == sq);
                    assert(rest.contains(sq));
                } else {
                    assert(all[i] == last);
                }
            }
            assert forall|sq: u8| (sq < n && set.contains(sq as int)) implies all.contains(sq) by {
                if sq == last {
                    assert(all[rest.len() as int] == sq);
                } else {
                    assert(rest.contains(sq));
                    let i = choose|i: int| 0 <= i < rest.len() && rest[i] == sq;
                    assert(all[i] == sq);
                }
            }
            assert forall|i: int, j: int| 0 <= i < j < all.len() implies all[i] < all[j] by {
                assert(all[i] == rest[i]);
                assert(rest.contains(rest[i]));
                if j < rest.len() {
                    assert(all[j] == rest[j]);
                } else {
                    assert(all[j] == last);
                }
            }
        }
    }
}

/// The members of a board, in ascending order.
pub fn list_squares(b: u64) -> (v: Vec<u8>)
    ensures
        v@ == squares_of(b),
{
    let mut v: Vec<u8> = Vec::new();
    let mut i: u8 = 0;
    while i < 64
        invariant
            i <= 64,
            v@ == ascending(members(b), i as nat),
        decreases 64 - i,
    {
        if contains(b, i) {
            v.push(i);
        }
        i = i + 1;
    }
    v
}

} // verus!
