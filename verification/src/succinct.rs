//! The succinct rank/select structure: a balanced binary trie over the
//! alphabet, one bitmap per internal node.
//!
//! Each node covers an inclusive alphabet range `[lo, hi]` and an implicit
//! subsequence of the input: the symbols of that range, in their original
//! relative order. Its bitmap holds one bit per element, clear when the
//! element routes to the lower half of the range and set when it routes to
//! the upper half. Queries descend the trie, translating positions through
//! the bitmaps' rank; select ascends back through their select. Each query
//! costs one bitmap operation per level, against a bitmap whose rank is
//! answered from a precomputed prefix-count index in constant time and
//! whose select is a binary search over that index.

use vstd::prelude::*;

use crate::wavelet_tree::lemma_rank_absent;
use crate::wavelet_tree::lemma_rank_all_equal;
use crate::wavelet_tree::lemma_rank_plus_count;
use crate::wavelet_tree::lemma_select_from;
use crate::wavelet_tree::lemma_select_not_found;
use crate::wavelet_tree::lemma_select_unique;
use crate::wavelet_tree::occurrences;
use crate::wavelet_tree::rank_of;
use crate::wavelet_tree::select_of;
use crate::wavelet_tree::WaveletTree;

verus! {

/// The number of set bits in `b` at positions `[0, x)`. A bound past the
/// end of the bits is clamped.
pub open spec fn ones(b: Seq<bool>, x: int) -> nat
    decreases x,
{
    if x <= 0 || b.len() == 0 {
        0
    } else if x > b.len() {
        ones(b, b.len() as int)
    } else {
        ones(b, x - 1) + (if b[x - 1] {
            1nat
        } else {
            0nat
        })
    }
}

/// The number of clear bits in `b` at positions `[0, x)`. A bound past the
/// end of the bits is clamped.
pub open spec fn zeros(b: Seq<bool>, x: int) -> nat
    decreases x,
{
    if x <= 0 || b.len() == 0 {
        0
    } else if x > b.len() {
        zeros(b, b.len() as int)
    } else {
        zeros(b, x - 1) + (if b[x - 1] {
            0nat
        } else {
            1nat
        })
    }
}

/// Every bit in a prefix is either set or clear.
pub proof fn lemma_ones_zeros(b: Seq<bool>, x: int)
    requires
        0 <= x <= b.len(),
    ensures
        ones(b, x) + zeros(b, x) == x,
    decreases x,
{
    if x > 0 {
        lemma_ones_zeros(b, x - 1);
    }
}

/// A bit array carrying a prefix-count index: `ranks[i]` is the number of
/// set bits among the first `i`, so a rank is one array read and a select
/// is a binary search.
pub struct BitVec {
    bits: Vec<bool>,
    ranks: Vec<usize>,
}

impl View for BitVec {
    type V = Seq<bool>;

    closed spec fn view(&self) -> Seq<bool> {
        self.bits@
    }
}

impl BitVec {
    /// The prefix-count index matches the bits it summarizes.
    pub closed spec fn wf(&self) -> bool {
        &&& self.ranks@.len() == self.bits@.len() + 1
        &&& forall|i: int| 0 <= i <= self.bits@.len() ==> #[trigger] self.ranks@[i] == ones(
            self.bits@,
            i,
        )
    }

    /// Wraps the bits with their prefix-count index.
    pub fn new(bits: Vec<bool>) -> (bv: BitVec)
        ensures
            bv.wf(),
            bv@ == bits@,
    {
        let n = bits.len();
        let mut ranks: Vec<usize> = Vec::new();
        ranks.push(0);
        let mut count: usize = 0;
        let mut i: usize = 0;
        while i < n
            invariant
                i <= n,
                n == bits@.len(),
                ranks@.len() == i + 1,
                count <= i,
                count == ones(bits@, i as int),
                forall|j: int| 0 <= j <= i ==> #[trigger] ranks@[j] == ones(bits@, j),
            decreases n - i,
        {
            if bits[i] {
                count = count + 1;
            }
            ranks.push(count);
            i = i + 1;
        }
        BitVec { bits, ranks }
    }

    /// The number of bits.
    pub fn len(&self) -> (n: usize)
        ensures
            n == self@.len(),
    {
        self.bits.len()
    }

    /// The number of set bits in `[0, x)`: one read of the index.
    pub fn rank1(&self, x: usize) -> (r: usize)
        requires
            self.wf(),
            x <= self@.len(),
        ensures
            r == ones(self@, x as int),
    {
        self.ranks[x]
    }

    /// The number of clear bits in `[0, x)`.
    pub fn rank0(&self, x: usize) -> (r: usize)
        requires
            self.wf(),
            x <= self@.len(),
        ensures
            r == zeros(self@, x as int),
    {
        proof {
            lemma_ones_zeros(self@, x as int);
        }
        x - self.ranks[x]
    }

    /// The position of the `(x+1)`-th set bit: a binary search over the
    /// monotone prefix counts.
    pub fn select1(&self, x: usize) -> (p: usize)
        requires
            self.wf(),
            x < ones(self@, self@.len() as int),
        ensures
            p < self@.len(),
            self@[p as int],
            ones(self@, p as int) == x,
    {
        let n = self.bits.len();
        let mut lo: usize = 0;
        let mut hi: usize = n;
        while lo + 1 < hi
            invariant
                self.wf(),
                n == self@.len(),
                lo < hi <= n,
                ones(self@, lo as int) <= x,
                x < ones(self@, hi as int),
            decreases hi - lo,
        {
            let mid = lo + (hi - lo) / 2;
            if self.ranks[mid] <= x {
                lo = mid;
            } else {
                hi = mid;
            }
        }
        lo
    }

    /// The position of the `(x+1)`-th clear bit.
    pub fn select0(&self, x: usize) -> (p: usize)
        requires
            self.wf(),
            x < zeros(self@, self@.len() as int),
        ensures
            p < self@.len(),
            !self@[p as int],
            zeros(self@, p as int) == x,
    {
        let n = self.bits.len();
        proof {
            lemma_ones_zeros(self@, n as int);
        }
        let mut lo: usize = 0;
        let mut hi: usize = n;
        while lo + 1 < hi
            invariant
                self.wf(),
                n == self@.len(),
                lo < hi <= n,
                zeros(self@, lo as int) <= x,
                x < zeros(self@, hi as int),
            decreases hi - lo,
        {
            let mid = lo + (hi - lo) / 2;
            proof {
                lemma_ones_zeros(self@, mid as int);
            }
            if mid - self.ranks[mid] <= x {
                lo = mid;
            } else {
                hi = mid;
            }
        }
        lo
    }
}

/// The subsequence of `s` that routes to one side of the threshold `m`,
/// in original relative order: the upper side holds the elements `>= m`,
/// the lower side the rest.
pub open spec fn routed(s: Seq<usize>, m: usize, up: bool) -> Seq<usize>
    decreases s.len(),
{
    if s.len() == 0 {
        Seq::empty()
    } else {
        routed(s.drop_last(), m, up) + (if (s.last() >= m) == up {
            seq![s.last()]
        } else {
            Seq::empty()
        })
    }
}

/// How many of the first `x` elements of `s` route to the given side.
/// A bound past the end of the sequence is clamped.
pub open spec fn routed_rank(s: Seq<usize>, x: int, m: usize, up: bool) -> nat
    decreases x,
{
    if x <= 0 || s.len() == 0 {
        0
    } else if x > s.len() {
        routed_rank(s, s.len() as int, m, up)
    } else {
        routed_rank(s, x - 1, m, up) + (if (s[x - 1] >= m) == up {
            1nat
        } else {
            0nat
        })
    }
}

/// Routing distributes over concatenation.
proof fn lemma_routed_add(a: Seq<usize>, b: Seq<usize>, m: usize, up: bool)
    ensures
        routed(a + b, m, up) == routed(a, m, up) + routed(b, m, up),
    decreases b.len(),
{
    if b.len() == 0 {
        assert(a + b =~= a);
        assert(routed(a, m, up) + routed(b, m, up) =~= routed(a, m, up));
    } else {
        lemma_routed_add(a, b.drop_last(), m, up);
        assert((a + b).drop_last() =~= a + b.drop_last());
        assert((a + b).last() == b.last());
        assert(routed(a + b, m, up) =~= routed(a, m, up) + routed(b, m, up));
    }
}

/// A sequence routes as its two halves do, split at any position.
proof fn lemma_routed_split(s: Seq<usize>, x: int, m: usize, up: bool)
    requires
        0 <= x <= s.len(),
    ensures
        routed(s, m, up) == routed(s.take(x), m, up) + routed(s.skip(x), m, up),
{
    assert(s =~= s.take(x) + s.skip(x));
    lemma_routed_add(s.take(x), s.skip(x), m, up);
}

/// The routed count of a prefix is the length of the routed prefix.
proof fn lemma_routed_take_len(s: Seq<usize>, x: int, m: usize, up: bool)
    requires
        0 <= x <= s.len(),
    ensures
        routed(s.take(x), m, up).len() == routed_rank(s, x, m, up),
    decreases x,
{
    if x > 0 {
        lemma_routed_take_len(s, x - 1, m, up);
        assert(s.take(x).drop_last() =~= s.take(x - 1));
        assert(s.take(x).last() == s[x - 1]);
    }
}

/// An element on the routed side keeps its identity: it appears in the
/// routed subsequence at the position given by its routed count.
proof fn lemma_routed_elem(s: Seq<usize>, p: int, m: usize, up: bool)
    requires
        0 <= p < s.len(),
        ((s[p] >= m) == up),
    ensures
        routed_rank(s, p, m, up) < routed(s, m, up).len(),
        routed(s, m, up)[routed_rank(s, p, m, up) as int] == s[p],
        routed_rank(s, p + 1, m, up) == routed_rank(s, p, m, up) + 1,
{
    lemma_routed_split(s, p + 1, m, up);
    lemma_routed_take_len(s, p + 1, m, up);
    lemma_routed_take_len(s, p, m, up);
    assert(s.take(p + 1).drop_last() =~= s.take(p));
    assert(s.take(p + 1).last() == s[p]);
}

/// Ranks pass through routing: counting `q` in a prefix of `s` equals
/// counting `q` in the corresponding prefix of the side `q` routes to.
proof fn lemma_rank_routed(s: Seq<usize>, x: int, m: usize, q: usize, up: bool)
    requires
        0 <= x <= s.len(),
        ((q >= m) == up),
    ensures
        rank_of(s, x, q) == rank_of(routed(s, m, up), routed_rank(s, x, m, up) as int, q),
    decreases x,
{
    if x > 0 {
        lemma_rank_routed(s, x - 1, m, q, up);
        if (s[x - 1] >= m) == up {
            lemma_routed_elem(s, x - 1, m, up);
            let rt = routed(s, m, up);
            let rr = routed_rank(s, x - 1, m, up);
            assert(rank_of(rt, rr as int + 1, q) == rank_of(rt, rr as int, q) + (if rt[rr as int]
                == q {
                1nat
            } else {
                0nat
            }));
        }
    }
}

/// The routed sides hold all the occurrences: the total count of `q` in
/// `s` is its total count on the side it routes to.
proof fn lemma_occurrences_routed(s: Seq<usize>, m: usize, q: usize, up: bool)
    requires
        ((q >= m) == up),
    ensures
        occurrences(s, q) == occurrences(routed(s, m, up), q),
        routed_rank(s, s.len() as int, m, up) == routed(s, m, up).len(),
{
    lemma_rank_routed(s, s.len() as int, m, q, up);
    lemma_routed_take_len(s, s.len() as int, m, up);
    assert(s.take(s.len() as int) =~= s);
}

/// A bitmap recording which side each element routes to counts sides as
/// the routing does.
proof fn lemma_ones_routed(b: Seq<bool>, s: Seq<usize>, m: usize, x: int)
    requires
        b.len() == s.len(),
        0 <= x <= s.len(),
        forall|i: int| 0 <= i < s.len() ==> b[i] == (#[trigger] s[i] >= m),
    ensures
        ones(b, x) == routed_rank(s, x, m, true),
        zeros(b, x) == routed_rank(s, x, m, false),
    decreases x,
{
    if x > 0 {
        lemma_ones_routed(b, s, m, x - 1);
    }
}

/// One node of the trie: an inclusive alphabet range `[lo, hi]`, the
/// implicit subsequence of the input whose symbols fall in that range (kept
/// only as a ghost view), and, for an internal node, the routing bitmap and
/// the two children that split the range at its middle.
struct WaveletNode {
    lo: usize,
    hi: usize,
    n: usize,
    elems: Ghost<Seq<usize>>,
    bits: BitVec,
    left: Option<Box<WaveletNode>>,
    right: Option<Box<WaveletNode>>,
}

impl WaveletNode {
    /// The top of the lower half of this node's range.
    spec fn mid(self) -> int {
        self.lo as int + (self.hi as int - self.lo as int) / 2
    }

    /// The routing threshold: symbols at or above it go to the upper half.
    spec fn split(self) -> usize {
        (self.mid() + 1) as usize
    }

    /// Well-formedness: the node's implicit subsequence stays within its
    /// range; an internal node's bitmap records each element's side, and
    /// each child correctly represents the subsequence routed its way.
    spec fn wf(self) -> bool
        decreases self,
    {
        &&& self.lo <= self.hi
        &&& self.n == self.elems@.len()
        &&& (forall|i: int|
            0 <= i < self.elems@.len() ==> self.lo <= #[trigger] self.elems@[i] <= self.hi)
        &&& if self.lo == self.hi {
            self.left is None && self.right is None
        } else {
            let m = self.split();
            &&& self.bits.wf()
            &&& self.bits@.len() == self.elems@.len()
            &&& (forall|i: int|
                0 <= i < self.elems@.len() ==> self.bits@[i] == (#[trigger] self.elems@[i] >= m))
            &&& match self.left {
                Some(l) => l.wf() && l.lo == self.lo && l.hi as int == self.mid() && l.elems@
                    == routed(self.elems@, m, false),
                None => false,
            }
            &&& match self.right {
                Some(r) => r.wf() && r.lo == m && r.hi == self.hi && r.elems@ == routed(
                    self.elems@,
                    m,
                    true,
                ),
                None => false,
            }
        }
    }

    /// Rank by descent: translate the position through the bitmap of each
    /// node into the child that covers `q`, until the range is a single
    /// symbol.
    fn rank(&self, x: usize, q: usize) -> (r: usize)
        requires
            self.wf(),
            x <= self.n,
            self.lo <= q <= self.hi,
        ensures
            r as nat == rank_of(self.elems@, x as int, q),
        decreases self.hi - self.lo,
    {
        if self.lo == self.hi {
            proof {
                lemma_rank_all_equal(self.elems@, x as int, q);
            }
            x
        } else {
            let mid = self.lo + (self.hi - self.lo) / 2;
            let m = mid + 1;
            proof {
                assert(m == self.split());
            }
            if q < m {
                let x2 = self.bits.rank0(x);
                proof {
                    lemma_ones_routed(self.bits@, self.elems@, m, x as int);
                    lemma_routed_split(self.elems@, x as int, m, false);
                    lemma_routed_take_len(self.elems@, x as int, m, false);
                    lemma_rank_routed(self.elems@, x as int, m, q, false);
                }
                match &self.left {
                    Some(l) => {
                        proof {
                            reveal_with_fuel(WaveletNode::wf, 2);
                            assert(l.elems@ == routed(self.elems@, m, false));
                            assert(x2 <= l.n);
                        }
                        l.rank(x2, q)
                    },
                    None => {
                        proof {
                            assert(false);
                        }
                        0
                    },
                }
            } else {
                let x2 = self.bits.rank1(x);
                proof {
                    lemma_ones_routed(self.bits@, self.elems@, m, x as int);
                    lemma_routed_split(self.elems@, x as int, m, true);
                    lemma_routed_take_len(self.elems@, x as int, m, true);
                    lemma_rank_routed(self.elems@, x as int, m, q, true);
                }
                match &self.right {
                    Some(r) => {
                        proof {
                            reveal_with_fuel(WaveletNode::wf, 2);
                            assert(r.elems@ == routed(self.elems@, m, true));
                            assert(x2 <= r.n);
                        }
                        r.rank(x2, q)
                    },
                    None => {
                        proof {
                            assert(false);
                        }
                        0
                    },
                }
            }
        }
    }

    /// Select, the dual: descend to the leaf of `q`, then map the position
    /// found there back up through each bitmap's select. A missing
    /// occurrence at any level propagates as the not-found signal.
    fn select(&self, x: usize, q: usize) -> (r: Option<usize>)
        requires
            self.wf(),
            self.lo <= q <= self.hi,
        ensures
            match r {
                Some(i) => i < self.n && select_of(self.elems@, x as nat, q) == Some(i as int),
                None => select_of(self.elems@, x as nat, q) is None,
            },
        decreases self.hi - self.lo,
    {
        if self.lo == self.hi {
            if x < self.n {
                proof {
                    lemma_rank_all_equal(self.elems@, x as int, q);
                    lemma_select_unique(self.elems@, x as nat, q, x as int);
                }
                Some(x)
            } else {
                proof {
                    lemma_rank_all_equal(self.elems@, self.elems@.len() as int, q);
                    lemma_select_not_found(self.elems@, x as nat, q);
                }
                None
            }
        } else {
            let mid = self.lo + (self.hi - self.lo) / 2;
            let m = mid + 1;
            proof {
                assert(m == self.split());
            }
            if q < m {
                match &self.left {
                    Some(l) => {
                        let inner = l.select(x, q);
                        let ghost cs = routed(self.elems@, m, false);
                        match inner {
                            Some(j) => {
                                proof {
                                    lemma_select_from(cs, 0, x as nat, q);
                                    lemma_occurrences_routed(self.elems@, m, q, false);
                                    lemma_ones_routed(
                                        self.bits@,
                                        self.elems@,
                                        m,
                                        self.elems@.len() as int,
                                    );
                                }
                                let p = self.bits.select0(j);
                                proof {
                                    lemma_ones_routed(self.bits@, self.elems@, m, p as int);
                                    lemma_routed_elem(self.elems@, p as int, m, false);
                                    lemma_rank_routed(self.elems@, p as int, m, q, false);
                                    lemma_select_unique(self.elems@, x as nat, q, p as int);
                                }
                                Some(p)
                            },
                            None => {
                                proof {
                                    lemma_select_from(cs, 0, x as nat, q);
                                    lemma_rank_plus_count(cs, 0, q);
                                    lemma_occurrences_routed(self.elems@, m, q, false);
                                    lemma_select_not_found(self.elems@, x as nat, q);
                                }
                                None
                            },
                        }
                    },
                    None => {
                        proof {
                            assert(false);
                        }
                        None
                    },
                }
            } else {
                match &self.right {
                    Some(rc) => {
                        let inner = rc.select(x, q);
                        let ghost cs = routed(self.elems@, m, true);
                        match inner {
                            Some(j) => {
                                proof {
                                    lemma_select_from(cs, 0, x as nat, q);
                                    lemma_occurrences_routed(self.elems@, m, q, true);
                                    lemma_ones_routed(
                                        self.bits@,
                                        self.elems@,
                                        m,
                                        self.elems@.len() as int,
                                    );
                                }
                                let p = self.bits.select1(j);
                                proof {
                                    lemma_ones_routed(self.bits@, self.elems@, m, p as int);
                                    lemma_routed_elem(self.elems@, p as int, m, true);
                                    lemma_rank_routed(self.elems@, p as int, m, q, true);
                                    lemma_select_unique(self.elems@, x as nat, q, p as int);
                                }
                                Some(p)
                            },
                            None => {
                                proof {
                                    lemma_select_from(cs, 0, x as nat, q);
                                    lemma_rank_plus_count(cs, 0, q);
                                    lemma_occurrences_routed(self.elems@, m, q, true);
                                    lemma_select_not_found(self.elems@, x as nat, q);
                                }
                                None
                            },
                        }
                    },
                    None => {
                        proof {
                            assert(false);
                        }
                        None
                    },
                }
            }
        }
    }
}

/// Builds the trie over the inclusive alphabet range `[lo, hi]` for a
/// sequence whose symbols all fall in that range: route each element to a
/// half, record the routing bits, and recurse on the two halves until the
/// range is a single symbol.
#[verifier::loop_isolation(false)]
fn build(s: Vec<usize>, lo: usize, hi: usize) -> (node: WaveletNode)
    requires
        lo <= hi,
        forall|i: int| 0 <= i < s@.len() ==> lo <= #[trigger] s@[i] <= hi,
    ensures
        node.wf(),
        node.lo == lo,
        node.hi == hi,
        node.elems@ == s@,
        node.n == s@.len(),
    decreases hi - lo,
{
    let n = s.len();
    if lo == hi {
        WaveletNode {
            lo,
            hi,
            n,
            elems: Ghost(s@),
            bits: BitVec::new(Vec::new()),
            left: None,
            right: None,
        }
    } else {
        let mid = lo + (hi - lo) / 2;
        let m = mid + 1;
        let mut bools: Vec<bool> = Vec::new();
        let mut lower: Vec<usize> = Vec::new();
        let mut upper: Vec<usize> = Vec::new();
        let mut i: usize = 0;
        while i < n
            invariant
                i <= n,
                bools@.len() == i as int,
                forall|j: int| 0 <= j < i ==> bools@[j] == (#[trigger] s@[j] >= m),
                lower@ == routed(s@.take(i as int), m, false),
                upper@ == routed(s@.take(i as int), m, true),
                forall|j: int| 0 <= j < lower@.len() ==> lo <= #[trigger] lower@[j] <= mid,
                forall|j: int| 0 <= j < upper@.len() ==> m <= #[trigger] upper@[j] <= hi,
            decreases n - i,
        {
            let e = s[i];
            proof {
                assert(s@.take(i as int + 1).drop_last() =~= s@.take(i as int));
                assert(s@.take(i as int + 1).last() == s@[i as int]);
            }
            if e >= m {
                bools.push(true);
                upper.push(e);
            } else {
                bools.push(false);
                lower.push(e);
            }
            proof {
                assert(lower@ =~= routed(s@.take(i as int + 1), m, false));
                assert(upper@ =~= routed(s@.take(i as int + 1), m, true));
            }
            i = i + 1;
        }
        proof {
            assert(s@.take(n as int) =~= s@);
        }
        let left = build(lower, lo, mid);
        let right = build(upper, m, hi);
        let bits = BitVec::new(bools);
        WaveletNode {
            lo,
            hi,
            n,
            elems: Ghost(s@),
            bits,
            left: Some(Box::new(left)),
            right: Some(Box::new(right)),
        }
    }
}

/// The succinct rank/select structure: a balanced binary trie over the
/// alphabet whose nodes each carry a routing bitmap with rank/select
/// support, answering every query in one bitmap operation per level.
pub struct SuccinctWaveletTree {
    root: Option<WaveletNode>,
}

impl SuccinctWaveletTree {
    /// An empty structure has no root; otherwise the root is a well-formed
    /// trie whose range starts at symbol `0`.
    #[verifier::type_invariant]
    closed spec fn inv(self) -> bool {
        match self.root {
            None => true,
            Some(r) => r.wf() && r.lo == 0,
        }
    }
}

impl WaveletTree for SuccinctWaveletTree {
    closed spec fn symbols(&self) -> Seq<usize> {
        match self.root {
            None => Seq::empty(),
            Some(r) => r.elems@,
        }
    }

    fn new(s: &[usize]) -> (t: Self)
        ensures
            t.symbols() == s@,
    {
        let v = vstd::slice::slice_to_vec(s);
        let n = v.len();
        if n == 0 {
            proof {
                assert(s@ =~= Seq::<usize>::empty());
            }
            return SuccinctWaveletTree { root: None };
        }
        let mut maxv: usize = 0;
        let mut i: usize = 0;
        while i < n
            invariant
                i <= n,
                n == v@.len(),
                forall|j: int| 0 <= j < i ==> #[trigger] v@[j] <= maxv,
            decreases n - i,
        {
            if v[i] > maxv {
                maxv = v[i];
            }
            i = i + 1;
        }
        let root = build(v, 0, maxv);
        SuccinctWaveletTree { root: Some(root) }
    }

    fn len(&self) -> (n: usize)
        ensures
            n == self.symbols().len(),
    {
        proof {
            use_type_invariant(self);
        }
        match &self.root {
            None => 0,
            Some(r) => r.n,
        }
    }

    fn rank_q(&self, x: usize, q: usize) -> (r: usize)
        ensures
            r as nat == rank_of(self.symbols(), x as int, q),
    {
        proof {
            use_type_invariant(self);
        }
        match &self.root {
            None => 0,
            Some(root) => {
                let xc = if x <= root.n {
                    x
                } else {
                    root.n
                };
                proof {
                    if x > root.n {
                        assert(rank_of(root.elems@, x as int, q) == rank_of(
                            root.elems@,
                            root.elems@.len() as int,
                            q,
                        ));
                    }
                }
                if q <= root.hi {
                    root.rank(xc, q)
                } else {
                    proof {
                        lemma_rank_absent(root.elems@, x as int, q);
                    }
                    0
                }
            },
        }
    }

    fn select_q(&self, x: usize, q: usize) -> (r: Option<usize>)
        ensures
            match r {
                Some(i) => select_of(self.symbols(), x as nat, q) == Some(i as int),
                None => select_of(self.symbols(), x as nat, q) is None,
            },
            r is Some <==> (x as nat) < occurrences(self.symbols(), q),
    {
        proof {
            use_type_invariant(self);
        }
        match &self.root {
            None => None,
            Some(root) => {
                if q <= root.hi {
                    let r = root.select(x, q);
                    proof {
                        lemma_select_from(root.elems@, 0, x as nat, q);
                        lemma_rank_plus_count(root.elems@, 0, q);
                    }
                    r
                } else {
                    proof {
                        lemma_rank_absent(root.elems@, root.elems@.len() as int, q);
                        lemma_select_not_found(root.elems@, x as nat, q);
                        lemma_select_from(root.elems@, 0, x as nat, q);
                        lemma_rank_plus_count(root.elems@, 0, q);
                    }
                    None
                }
            },
        }
    }
}

} // verus!
