//! Rank and select over a sequence of symbol codes.
//!
//! A structure implementing [`WaveletTree`] is built once from a sequence of
//! non-negative symbol codes and then answers, read-only:
//! `rank_q(x, q)`, the number of occurrences of `q` in positions `[0, x)`,
//! and `select_q(x, q)`, the position of the `(x+1)`-th occurrence of `q`,
//! or `None` when fewer than `x+1` occurrences exist.
//!
//! The contract pins both answers to a direct linear scan of the original
//! sequence, so any two implementations over the same sequence agree on
//! every query. [`ReferenceWaveletTree`] is the baseline implementation
//! that performs that scan verbatim; it serves as the oracle against which
//! faster structures are tested.

use vstd::prelude::*;

verus! {

/// The number of occurrences of `q` in `s` at positions `[0, x)`.
///
/// Positions past the end of the sequence count nothing: a bound `x` beyond
/// `s.len()` is clamped, so `rank_of(s, x, q)` with `x >= s.len()` is the
/// total number of occurrences of `q`.
pub open spec fn rank_of(s: Seq<usize>, x: int, q: usize) -> nat
    decreases x,
{
    if x <= 0 || s.len() == 0 {
        0
    } else if x > s.len() {
        rank_of(s, s.len() as int, q)
    } else {
        rank_of(s, x - 1, q) + (if s[x - 1] == q {
            1nat
        } else {
            0nat
        })
    }
}

/// The total number of occurrences of `q` in `s`.
pub open spec fn occurrences(s: Seq<usize>, q: usize) -> nat {
    rank_of(s, s.len() as int, q)
}

/// The number of occurrences of `q` in `s` at positions `[i, s.len())`.
pub open spec fn count_from(s: Seq<usize>, i: int, q: usize) -> nat
    recommends
        0 <= i <= s.len(),
    decreases s.len() - i,
{
    if i < 0 || i >= s.len() {
        0
    } else {
        (if s[i] == q {
            1nat
        } else {
            0nat
        }) + count_from(s, i + 1, q)
    }
}

/// The position of the `(x+1)`-th occurrence of `q` in `s` at or after
/// position `i`, scanning left to right, or `None` when the scan exhausts
/// the sequence first.
pub open spec fn select_from(s: Seq<usize>, i: int, x: nat, q: usize) -> Option<int>
    recommends
        0 <= i <= s.len(),
    decreases s.len() - i,
{
    if i < 0 || i >= s.len() {
        None
    } else if s[i] == q {
        if x == 0 {
            Some(i)
        } else {
            select_from(s, i + 1, (x - 1) as nat, q)
        }
    } else {
        select_from(s, i + 1, x, q)
    }
}

/// The position of the `(x+1)`-th occurrence of `q` in `s`, or `None` when
/// fewer than `x + 1` occurrences exist.
pub open spec fn select_of(s: Seq<usize>, x: nat, q: usize) -> Option<int> {
    select_from(s, 0, x, q)
}

/// Rank monotonicity: for a fixed symbol `q`, the rank is non-decreasing as
/// the position bound grows from `0` to `s.len()`.
pub proof fn lemma_rank_monotonic(s: Seq<usize>, x1: int, x2: int, q: usize)
    requires
        0 <= x1 <= x2 <= s.len(),
    ensures
        rank_of(s, x1, q) <= rank_of(s, x2, q),
    decreases x2 - x1,
{
    if x1 < x2 {
        lemma_rank_monotonic(s, x1, x2 - 1, q);
    }
}

/// Splitting at any position: the occurrences before `i` plus the
/// occurrences at or after `i` are all the occurrences.
pub proof fn lemma_rank_plus_count(s: Seq<usize>, i: int, q: usize)
    requires
        0 <= i <= s.len(),
    ensures
        rank_of(s, i, q) + count_from(s, i, q) == occurrences(s, q),
    decreases s.len() - i,
{
    if i < s.len() {
        lemma_rank_plus_count(s, i + 1, q);
    }
}

/// What a left-to-right scan from `i` finds: a position exists exactly when
/// enough occurrences remain, and the found position is an occurrence of `q`
/// whose rank exceeds the rank at `i` by exactly `x`.
pub proof fn lemma_select_from(s: Seq<usize>, i: int, x: nat, q: usize)
    requires
        0 <= i <= s.len(),
    ensures
        select_from(s, i, x, q) is Some <==> x < count_from(s, i, q),
        select_from(s, i, x, q) matches Some(j) ==> i <= j < s.len() && s[j] == q && rank_of(
            s,
            j,
            q,
        ) == rank_of(s, i, q) + x,
    decreases s.len() - i,
{
    if i < s.len() {
        if s[i] == q {
            if x != 0 {
                lemma_select_from(s, i + 1, (x - 1) as nat, q);
            }
        } else {
            lemma_select_from(s, i + 1, x, q);
        }
    }
}

/// Boundary law: a rank at position `0` is `0`, and the rank at the end of
/// the sequence counts every occurrence.
pub proof fn lemma_rank_boundary(s: Seq<usize>, q: usize)
    ensures
        rank_of(s, 0, q) == 0,
        rank_of(s, s.len() as int, q) == count_from(s, 0, q),
{
    lemma_rank_plus_count(s, 0, q);
}

/// Rank/select inverse law: whenever the `(x+1)`-th occurrence of `q`
/// exists, selecting it yields a position that holds `q` and whose rank is
/// exactly `x`.
pub proof fn lemma_rank_select_inverse(s: Seq<usize>, x: nat, q: usize)
    requires
        x < occurrences(s, q),
    ensures
        select_of(s, x, q) matches Some(i) && 0 <= i < s.len() && s[i] == q && rank_of(s, i, q)
            == x,
{
    lemma_rank_plus_count(s, 0, q);
    lemma_select_from(s, 0, x, q);
}

/// Not-found boundary: asking for an occurrence past the last one yields
/// the not-found signal, never a position.
pub proof fn lemma_select_not_found(s: Seq<usize>, x: nat, q: usize)
    requires
        x >= occurrences(s, q),
    ensures
        select_of(s, x, q) is None,
{
    lemma_rank_plus_count(s, 0, q);
    lemma_select_from(s, 0, x, q);
}

/// Helper for uniqueness: a scan starting at `b` finds exactly the
/// occurrence of `q` whose rank matches the requested offset.
proof fn lemma_select_from_finds(s: Seq<usize>, b: int, i: int, q: usize)
    requires
        0 <= b <= i < s.len(),
        s[i] == q,
    ensures
        rank_of(s, b, q) <= rank_of(s, i, q),
        select_from(s, b, (rank_of(s, i, q) - rank_of(s, b, q)) as nat, q) == Some(i),
    decreases i - b,
{
    lemma_rank_monotonic(s, b, i, q);
    if b < i {
        lemma_select_from_finds(s, b + 1, i, q);
    }
}

/// Select is the unique inverse of rank: the position of the `(x+1)`-th
/// occurrence is the one position holding `q` whose rank is `x`, so any two
/// structures meeting the contract return the same positions.
pub proof fn lemma_select_unique(s: Seq<usize>, x: nat, q: usize, i: int)
    requires
        0 <= i < s.len(),
        s[i] == q,
        rank_of(s, i, q) == x,
    ensures
        select_of(s, x, q) == Some(i),
{
    lemma_select_from_finds(s, 0, i, q);
}

/// In a sequence whose every element is `q`, the rank of `q` counts the
/// whole prefix.
pub proof fn lemma_rank_all_equal(s: Seq<usize>, x: int, q: usize)
    requires
        0 <= x <= s.len(),
        forall|i: int| 0 <= i < s.len() ==> s[i] == q,
    ensures
        rank_of(s, x, q) == x,
    decreases x,
{
    if x > 0 {
        lemma_rank_all_equal(s, x - 1, q);
    }
}

/// In a sequence that holds no `q` at all, every rank of `q` is zero.
pub proof fn lemma_rank_absent(s: Seq<usize>, x: int, q: usize)
    requires
        0 <= x,
        forall|i: int| 0 <= i < s.len() ==> s[i] != q,
    ensures
        rank_of(s, x, q) == 0,
    decreases x,
{
    if x > 0 && s.len() != 0 {
        if x > s.len() {
            lemma_rank_absent(s, s.len() as int, q);
        } else {
            lemma_rank_absent(s, x - 1, q);
        }
    }
}

/// The capability set every rank/select structure offers: construction from
/// a sequence of symbol codes, the length of that sequence, and the two
/// queries, each pinned to a linear scan of the original sequence.
pub trait WaveletTree: Sized {
    /// The symbol sequence this structure indexes.
    spec fn symbols(&self) -> Seq<usize>;

    /// Builds an index over `s`. An empty sequence is valid and yields a
    /// structure of length `0`.
    fn new(s: &[usize]) -> (t: Self)
        ensures
            t.symbols() == s@,
    ;

    /// The length of the indexed sequence.
    fn len(&self) -> (n: usize)
        ensures
            n == self.symbols().len(),
    ;

    /// The number of occurrences of `q` in positions `[0, x)`. A bound past
    /// the end of the sequence is clamped: every position is counted.
    fn rank_q(&self, x: usize, q: usize) -> (r: usize)
        ensures
            r as nat == rank_of(self.symbols(), x as int, q),
    ;

    /// The position of the `(x+1)`-th occurrence of `q`, or `None` when
    /// fewer than `x + 1` occurrences exist.
    fn select_q(&self, x: usize, q: usize) -> (r: Option<usize>)
        ensures
            match r {
                Some(i) => select_of(self.symbols(), x as nat, q) == Some(i as int),
                None => select_of(self.symbols(), x as nat, q) is None,
            },
            r is Some <==> (x as nat) < occurrences(self.symbols(), q),
    ;
}

/// The baseline structure: it stores the sequence verbatim and answers both
/// queries by a direct linear scan, defining the ground truth that faster
/// structures are tested against.
#[derive(Debug)]
pub struct ReferenceWaveletTree {
    string: Vec<usize>,
}

impl WaveletTree for ReferenceWaveletTree {
    closed spec fn symbols(&self) -> Seq<usize> {
        self.string@
    }

    fn new(s: &[usize]) -> (t: Self)
        ensures
            t.symbols() == s@,
    {
        ReferenceWaveletTree { string: vstd::slice::slice_to_vec(s) }
    }

    fn len(&self) -> (n: usize)
        ensures
            n == self.symbols().len(),
    {
        self.string.len()
    }

    fn rank_q(&self, x: usize, q: usize) -> (r: usize)
        ensures
            r as nat == rank_of(self.symbols(), x as int, q),
    {
        let ghost s = self.string@;
        let n = self.string.len();
        let mut rank: usize = 0;
        let mut i: usize = 0;
        while i < n
            invariant
                s == self.string@,
                n == s.len(),
                i <= n,
                i <= x,
                rank <= i,
                rank as nat == rank_of(s, i as int, q),
            decreases n - i,
        {
            if i == x {
                return rank;
            }
            if self.string[i] == q {
                rank = rank + 1;
            }
            i = i + 1;
        }
        rank
    }

    fn select_q(&self, x: usize, q: usize) -> (r: Option<usize>)
        ensures
            match r {
                Some(i) => select_of(self.symbols(), x as nat, q) == Some(i as int),
                None => select_of(self.symbols(), x as nat, q) is None,
            },
            r is Some <==> (x as nat) < occurrences(self.symbols(), q),
    {
        let ghost s = self.string@;
        let n = self.string.len();
        let mut rank: usize = 0;
        let mut i: usize = 0;
        while i < n
            invariant
                s == self.string@,
                n == s.len(),
                i <= n,
                rank <= x,
                select_from(s, 0, x as nat, q) == select_from(s, i as int, (x - rank) as nat, q),
            decreases n - i,
        {
            if self.string[i] == q {
                if rank == x {
                    proof {
                        lemma_select_from(s, 0, x as nat, q);
                        lemma_rank_plus_count(s, 0, q);
                    }
                    return Some(i);
                }
                rank = rank + 1;
            }
            i = i + 1;
        }
        proof {
            lemma_select_from(s, 0, x as nat, q);
            lemma_rank_plus_count(s, 0, q);
        }
        None
    }
}

/// Equivalence: any two structures built over the same symbol sequence
/// answer every rank and every select query alike, whatever their internal
/// representation, because the contract pins both answers to a linear scan
/// of that sequence.
pub fn queries_agree<A: WaveletTree, B: WaveletTree>(a: &A, b: &B, x: usize, q: usize) -> (agree:
    bool)
    requires
        a.symbols() == b.symbols(),
    ensures
        agree,
{
    let ra = a.rank_q(x, q);
    let rb = b.rank_q(x, q);
    let sa = a.select_q(x, q);
    let sb = b.select_q(x, q);
    let ranks = ra == rb;
    let selects = match (sa, sb) {
        (Some(i), Some(j)) => i == j,
        (None, None) => true,
        _ => false,
    };
    ranks && selects
}

} // verus!
