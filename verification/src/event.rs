//! The event algebra: a delta-encoded counter tree recording causal
//! history. A `Leaf(n)` is a terminal counter; a `Node(n, l, r)` carries
//! its own counter `n`, and the children's counters are offsets added on
//! top of it, so the absolute count at a leaf is the sum of the counters
//! along its path from the root.

use crate::id::IdView;
use crate::id::Ident;
use crate::id::ItcError;
use std::rc::Rc;
use vstd::prelude::*;

verus! {

/// Mathematical model of an event tree, with unbounded counters.
pub enum EvView {
    Leaf(int),
    Node(int, Box<EvView>, Box<EvView>),
}

/// An event-history tree with structural sharing of subtrees.
#[derive(Debug)]
pub enum Event {
    Leaf(i64),
    Node(i64, Rc<Event>, Rc<Event>),
}

impl View for Event {
    type V = EvView;

    open spec fn view(&self) -> EvView
        decreases self,
    {
        match self {
            Event::Leaf(n) => EvView::Leaf(*n as int),
            Event::Node(n, l, r) => EvView::Node(
                *n as int,
                Box::new((**l).view()),
                Box::new((**r).view()),
            ),
        }
    }
}

pub open spec fn min_int(a: int, b: int) -> int {
    if a < b {
        a
    } else {
        b
    }
}

pub open spec fn max_int(a: int, b: int) -> int {
    if a > b {
        a
    } else {
        b
    }
}

/// The root counter of a tree, not including any ancestors.
pub open spec fn value_of(e: EvView) -> int {
    match e {
        EvView::Leaf(n) => n,
        EvView::Node(n, _, _) => n,
    }
}

/// The tree with `m` added to its root counter only.
pub open spec fn lift_of(e: EvView, m: int) -> EvView {
    match e {
        EvView::Leaf(n) => EvView::Leaf(n + m),
        EvView::Node(n, l, r) => EvView::Node(n + m, l, r),
    }
}

/// The tree with `m` subtracted from its root counter only.
pub open spec fn sink_of(e: EvView, m: int) -> EvView {
    lift_of(e, -m)
}

/// The least absolute count reachable from the root, relative to the
/// tree's own position.
pub open spec fn min_of(e: EvView) -> int
    decreases e,
{
    match e {
        EvView::Leaf(n) => n,
        EvView::Node(n, l, r) => n + min_int(min_of(*l), min_of(*r)),
    }
}

/// The greatest absolute count reachable from the root, relative to the
/// tree's own position.
pub open spec fn max_of(e: EvView) -> int
    decreases e,
{
    match e {
        EvView::Leaf(n) => n,
        EvView::Node(n, l, r) => n + max_int(max_of(*l), max_of(*r)),
    }
}

/// Well-formedness of an event tree: every relative counter is
/// non-negative. Histories are built from `Leaf(0)` by recording and
/// merging, which keeps all counters non-negative; every operation here
/// preserves this.
pub open spec fn wf(e: EvView) -> bool
    decreases e,
{
    match e {
        EvView::Leaf(n) => n >= 0,
        EvView::Node(n, l, r) => n >= 0 && wf(*l) && wf(*r),
    }
}

/// The normalized form: children are normalized first; a branch whose
/// normalized children are equal leaves collapses into one leaf, and
/// otherwise the children's common minimum is factored into the branch's
/// own counter.
pub open spec fn norm_of(e: EvView) -> EvView
    decreases e,
{
    match e {
        EvView::Leaf(n) => EvView::Leaf(n),
        EvView::Node(n, l, r) => {
            let f1 = norm_of(*l);
            let f2 = norm_of(*r);
            if f1 matches EvView::Leaf(m1) && f2 matches EvView::Leaf(m2) && m1 == m2 {
                EvView::Leaf(n + value_of(f1))
            } else {
                let m = min_int(min_of(f1), min_of(f2));
                EvView::Node(n + m, Box::new(sink_of(f1, m)), Box::new(sink_of(f2, m)))
            }
        },
    }
}

/// In a well-formed tree the reachable counts sit between zero and the
/// maximum.
pub proof fn lemma_wf_bounds(e: EvView)
    requires
        wf(e),
    ensures
        0 <= min_of(e),
        min_of(e) <= max_of(e),
    decreases e,
{
    match e {
        EvView::Leaf(_) => {},
        EvView::Node(n, l, r) => {
            lemma_wf_bounds(*l);
            lemma_wf_bounds(*r);
        },
    }
}

/// Law: the least reachable count never exceeds the greatest, whatever
/// the counters.
pub proof fn lemma_min_le_max(e: EvView)
    ensures
        min_of(e) <= max_of(e),
    decreases e,
{
    match e {
        EvView::Leaf(_) => {},
        EvView::Node(n, l, r) => {
            lemma_min_le_max(*l);
            lemma_min_le_max(*r);
        },
    }
}

proof fn lemma_lift_shift(e: EvView, m: int)
    ensures
        min_of(lift_of(e, m)) == min_of(e) + m,
        max_of(lift_of(e, m)) == max_of(e) + m,
        value_of(lift_of(e, m)) == value_of(e) + m,
{
    match e {
        EvView::Leaf(_) => {},
        EvView::Node(n, l, r) => {
            assert(min_of(lift_of(e, m)) == n + m + min_int(min_of(*l), min_of(*r)));
            assert(max_of(lift_of(e, m)) == n + m + max_int(max_of(*l), max_of(*r)));
        },
    }
}

/// Normalization keeps the reachable range: minimum and maximum are
/// unchanged, and the normalized root counter equals the minimum.
pub proof fn lemma_norm_range(e: EvView)
    ensures
        min_of(norm_of(e)) == min_of(e),
        max_of(norm_of(e)) == max_of(e),
        value_of(norm_of(e)) == min_of(e),
    decreases e,
{
    match e {
        EvView::Leaf(_) => {},
        EvView::Node(n, l, r) => {
            lemma_norm_range(*l);
            lemma_norm_range(*r);
            let f1 = norm_of(*l);
            let f2 = norm_of(*r);
            if f1 matches EvView::Leaf(m1) && f2 matches EvView::Leaf(m2) && m1 == m2 {
            } else {
                let m = min_int(min_of(f1), min_of(f2));
                lemma_lift_shift(f1, -m);
                lemma_lift_shift(f2, -m);
            }
        },
    }
}

proof fn lemma_norm_wf(e: EvView)
    requires
        wf(e),
    ensures
        wf(norm_of(e)),
    decreases e,
{
    match e {
        EvView::Leaf(_) => {},
        EvView::Node(n, l, r) => {
            lemma_norm_wf(*l);
            lemma_norm_wf(*r);
            lemma_norm_range(*l);
            lemma_norm_range(*r);
            lemma_wf_bounds(*l);
            lemma_wf_bounds(*r);
            let f1 = norm_of(*l);
            let f2 = norm_of(*r);
            if f1 matches EvView::Leaf(m1) && f2 matches EvView::Leaf(m2) && m1 == m2 {
            } else {
                let m = min_int(min_of(f1), min_of(f2));
                lemma_sink_wf(f1, m);
                lemma_sink_wf(f2, m);
            }
        },
    }
}

proof fn lemma_sink_wf(e: EvView, m: int)
    requires
        wf(e),
        0 <= m,
        m <= value_of(e),
    ensures
        wf(sink_of(e, m)),
{
    match e {
        EvView::Leaf(_) => {},
        EvView::Node(n, l, r) => {},
    }
}

/// Whether a tree is already in normalized form: no branch holds two
/// equal leaf children, and every branch's children have had their common
/// minimum factored out.
pub open spec fn is_normal(e: EvView) -> bool
    decreases e,
{
    match e {
        EvView::Leaf(_) => true,
        EvView::Node(_, l, r) => {
            &&& is_normal(*l)
            &&& is_normal(*r)
            &&& !(*l matches EvView::Leaf(m1) && *r matches EvView::Leaf(m2) && m1 == m2)
            &&& min_int(min_of(*l), min_of(*r)) == 0
        },
    }
}

proof fn lemma_lift_normal(e: EvView, m: int)
    ensures
        is_normal(lift_of(e, m)) == is_normal(e),
{
    match e {
        EvView::Leaf(_) => {},
        EvView::Node(n, l, r) => {
            assert(lift_of(e, m) == EvView::Node(n + m, l, r));
        },
    }
}

proof fn lemma_norm_is_normal(e: EvView)
    ensures
        is_normal(norm_of(e)),
    decreases e,
{
    match e {
        EvView::Leaf(_) => {},
        EvView::Node(n, l, r) => {
            lemma_norm_is_normal(*l);
            lemma_norm_is_normal(*r);
            lemma_norm_range(*l);
            lemma_norm_range(*r);
            lemma_min_le_max(*l);
            lemma_min_le_max(*r);
            let f1 = norm_of(*l);
            let f2 = norm_of(*r);
            if f1 matches EvView::Leaf(m1) && f2 matches EvView::Leaf(m2) && m1 == m2 {
            } else {
                let m = min_int(min_of(f1), min_of(f2));
                lemma_lift_normal(f1, -m);
                lemma_lift_normal(f2, -m);
                lemma_lift_shift(f1, -m);
                lemma_lift_shift(f2, -m);
                assert(!(sink_of(f1, m) matches EvView::Leaf(a) && sink_of(f2, m) matches EvView::Leaf(
                    b,
                ) && a == b));
            }
        },
    }
}

proof fn lemma_normal_fixed(e: EvView)
    requires
        is_normal(e),
    ensures
        norm_of(e) == e,
    decreases e,
{
    match e {
        EvView::Leaf(_) => {},
        EvView::Node(n, l, r) => {
            lemma_normal_fixed(*l);
            lemma_normal_fixed(*r);
            assert(sink_of(*l, 0) == *l);
            assert(sink_of(*r, 0) == *r);
        },
    }
}

/// Law: normalization of an event tree is idempotent.
pub proof fn lemma_ev_norm_idempotent(e: EvView)
    ensures
        norm_of(norm_of(e)) == norm_of(e),
{
    lemma_norm_is_normal(e);
    lemma_normal_fixed(norm_of(e));
}

/// What `fill` computes: the current maximum, propagated into every
/// region fully owned by `i`, without new structure and without raising
/// the overall maximum.
pub open spec fn fill_of(e: EvView, i: IdView) -> EvView
    decreases e,
{
    match e {
        EvView::Leaf(_) => e,
        EvView::Node(n, l, r) => match i {
            IdView::Zero => e,
            IdView::One => EvView::Leaf(max_of(e)),
            IdView::Tuple(il, ir) => {
                if *il == IdView::One {
                    let ep = fill_of(*r, *ir);
                    let m = max_int(max_of(*l), max_of(ep));
                    norm_of(EvView::Node(n, Box::new(EvView::Leaf(m)), Box::new(ep)))
                } else if *ir == IdView::One {
                    let ep = fill_of(*l, *il);
                    let m = max_int(max_of(ep), max_of(*r));
                    norm_of(EvView::Node(n, Box::new(ep), Box::new(EvView::Leaf(m))))
                } else {
                    norm_of(
                        EvView::Node(n, Box::new(fill_of(*l, *il)), Box::new(fill_of(*r, *ir))),
                    )
                }
            },
        },
    }
}

/// Law: filling never changes the overall maximum, for any tree and any
/// identity.
pub proof fn lemma_fill_max(e: EvView, i: IdView)
    ensures
        max_of(fill_of(e, i)) == max_of(e),
    decreases e,
{
    match e {
        EvView::Leaf(_) => {},
        EvView::Node(n, l, r) => match i {
            IdView::Zero => {},
            IdView::One => {
                assert(max_of(EvView::Leaf(max_of(e))) == max_of(e));
            },
            IdView::Tuple(il, ir) => {
                if *il == IdView::One {
                    lemma_fill_max(*r, *ir);
                    let ep = fill_of(*r, *ir);
                    let m = max_int(max_of(*l), max_of(ep));
                    assert(max_of(EvView::Leaf(m)) == m);
                    lemma_norm_range(EvView::Node(n, Box::new(EvView::Leaf(m)), Box::new(ep)));
                } else if *ir == IdView::One {
                    lemma_fill_max(*l, *il);
                    let ep = fill_of(*l, *il);
                    let m = max_int(max_of(ep), max_of(*r));
                    assert(max_of(EvView::Leaf(m)) == m);
                    lemma_norm_range(EvView::Node(n, Box::new(ep), Box::new(EvView::Leaf(m))));
                } else {
                    lemma_fill_max(*l, *il);
                    lemma_fill_max(*r, *ir);
                    lemma_norm_range(
                        EvView::Node(n, Box::new(fill_of(*l, *il)), Box::new(fill_of(*r, *ir))),
                    );
                }
            },
        },
    }
}

/// Filling preserves well-formedness.
pub proof fn lemma_fill_wf(e: EvView, i: IdView)
    requires
        wf(e),
    ensures
        wf(fill_of(e, i)),
    decreases e,
{
    match e {
        EvView::Leaf(_) => {},
        EvView::Node(n, l, r) => match i {
            IdView::Zero => {},
            IdView::One => {
                lemma_wf_bounds(e);
            },
            IdView::Tuple(il, ir) => {
                lemma_wf_bounds(*l);
                lemma_wf_bounds(*r);
                if *il == IdView::One {
                    lemma_fill_wf(*r, *ir);
                    lemma_fill_max(*r, *ir);
                    let ep = fill_of(*r, *ir);
                    lemma_wf_bounds(ep);
                    let m = max_int(max_of(*l), max_of(ep));
                    assert(wf(EvView::Leaf(m)));
                    lemma_norm_wf(EvView::Node(n, Box::new(EvView::Leaf(m)), Box::new(ep)));
                } else if *ir == IdView::One {
                    lemma_fill_wf(*l, *il);
                    lemma_fill_max(*l, *il);
                    let ep = fill_of(*l, *il);
                    lemma_wf_bounds(ep);
                    let m = max_int(max_of(ep), max_of(*r));
                    assert(wf(EvView::Leaf(m)));
                    lemma_norm_wf(EvView::Node(n, Box::new(ep), Box::new(EvView::Leaf(m))));
                } else {
                    lemma_fill_wf(*l, *il);
                    lemma_fill_wf(*r, *ir);
                    lemma_norm_wf(
                        EvView::Node(n, Box::new(fill_of(*l, *il)), Box::new(fill_of(*r, *ir))),
                    );
                }
            },
        },
    }
}

/// The absolute count of every leaf, left to right: each entry is the
/// sum of the counters on the leaf's path from the root, on top of
/// `base`.
pub open spec fn leaf_counts(e: EvView, base: int) -> Seq<int>
    decreases e,
{
    match e {
        EvView::Leaf(n) => seq![base + n],
        EvView::Node(n, l, r) => leaf_counts(*l, base + n) + leaf_counts(*r, base + n),
    }
}

/// Law: a tree has at least one leaf, and every leaf's absolute count
/// lies between the tree's minimum and maximum, both relative to `base`.
pub proof fn lemma_leaf_bounds(e: EvView, base: int)
    ensures
        leaf_counts(e, base).len() >= 1,
        forall|k: int|
            0 <= k < leaf_counts(e, base).len() ==> base + min_of(e) <= #[trigger] leaf_counts(
                e,
                base,
            )[k] <= base + max_of(e),
    decreases e,
{
    match e {
        EvView::Leaf(n) => {},
        EvView::Node(n, l, r) => {
            lemma_leaf_bounds(*l, base + n);
            lemma_leaf_bounds(*r, base + n);
            let sl = leaf_counts(*l, base + n);
            let sr = leaf_counts(*r, base + n);
            assert(leaf_counts(e, base) == sl + sr);
            assert forall|k: int| 0 <= k < (sl + sr).len() implies base + min_of(e) <= #[trigger] (sl
                + sr)[k] <= base + max_of(e) by {
                if k < sl.len() {
                    assert((sl + sr)[k] == sl[k]);
                } else {
                    assert((sl + sr)[k] == sr[k - sl.len()]);
                }
            }
        },
    }
}

/// Model of a growth cost: `n1` counts descents through existing
/// structure, `n2` counts freshly created branches.
pub struct CostV {
    pub n1: int,
    pub n2: int,
}

/// Costs compare lexicographically, creation count first: a path that
/// creates new structure is dearer than any path that only descends.
pub open spec fn cost_lt(a: CostV, b: CostV) -> bool {
    a.n2 < b.n2 || (a.n2 == b.n2 && a.n1 < b.n1)
}

/// A counter increment that saturates at the top of `u64`'s range, which
/// no tree that fits in memory can reach.
pub open spec fn sat_inc(n: int) -> int {
    if n >= u64::MAX {
        n
    } else {
        n + 1
    }
}

pub open spec fn cost_inc1(c: CostV) -> CostV {
    CostV { n1: sat_inc(c.n1), n2: c.n2 }
}

pub open spec fn cost_inc2(c: CostV) -> CostV {
    CostV { n1: 0, n2: sat_inc(c.n2) }
}

/// The cost of a candidate growth path, used by `grow` to pick the
/// cheapest structural expansion.
pub struct Cost {
    n1: u64,
    n2: u64,
}

impl View for Cost {
    type V = CostV;

    closed spec fn view(&self) -> CostV {
        CostV { n1: self.n1 as int, n2: self.n2 as int }
    }
}

impl Cost {
    /// The cost of the cheapest possible growth: none at all yet.
    pub fn zero() -> (r: Cost)
        ensures
            r@ == (CostV { n1: 0, n2: 0 }),
    {
        Cost { n1: 0, n2: 0 }
    }

    /// One more descent through structure that already exists.
    pub fn inc1(self) -> (r: Cost)
        ensures
            r@ == cost_inc1(self@),
    {
        Cost {
            n1: if self.n1 == u64::MAX {
                u64::MAX
            } else {
                self.n1 + 1
            },
            n2: self.n2,
        }
    }

    /// One more freshly created branch: the descent counter resets, so
    /// any creating path costs more than any merely descending one.
    pub fn inc2(self) -> (r: Cost)
        ensures
            r@ == cost_inc2(self@),
    {
        Cost {
            n1: 0,
            n2: if self.n2 == u64::MAX {
                u64::MAX
            } else {
                self.n2 + 1
            },
        }
    }

    /// Whether this cost is strictly cheaper than `other`.
    pub fn lt(&self, other: &Cost) -> (r: bool)
        ensures
            r == cost_lt(self@, other@),
    {
        self.n2 < other.n2 || (self.n2 == other.n2 && self.n1 < other.n1)
    }
}

pub open spec fn leaf_flag(e: EvView) -> int {
    if e is Leaf {
        1
    } else {
        0
    }
}

/// Whether `grow` can record an event in `e` under identity `i`: the
/// identity must be split wherever the tree has branched, and must own
/// some region outright at the bottom.
pub open spec fn can_grow(e: EvView, i: IdView) -> bool
    decreases i, leaf_flag(e),
{
    match e {
        EvView::Leaf(n) => {
            if i == IdView::One {
                true
            } else {
                can_grow(
                    EvView::Node(n, Box::new(EvView::Leaf(0)), Box::new(EvView::Leaf(0))),
                    i,
                )
            }
        },
        EvView::Node(_, l, r) => match i {
            IdView::Tuple(il, ir) => {
                if *il == IdView::Zero {
                    can_grow(*r, *ir)
                } else if *ir == IdView::Zero {
                    can_grow(*l, *il)
                } else {
                    can_grow(*l, *il) && can_grow(*r, *ir)
                }
            },
            _ => false,
        },
    }
}

/// What `grow` computes: the tree with one genuinely new event recorded
/// strictly inside the region owned by `i`, together with the cost of
/// the chosen expansion. Only meaningful where `can_grow` holds.
pub open spec fn grow_of(e: EvView, i: IdView) -> (EvView, CostV)
    decreases i, leaf_flag(e),
{
    match e {
        EvView::Leaf(n) => {
            if i == IdView::One {
                (EvView::Leaf(n + 1), CostV { n1: 0, n2: 0 })
            } else {
                let (ep, c) = grow_of(
                    EvView::Node(n, Box::new(EvView::Leaf(0)), Box::new(EvView::Leaf(0))),
                    i,
                );
                (ep, cost_inc2(c))
            }
        },
        EvView::Node(n, l, r) => match i {
            IdView::Tuple(il, ir) => {
                if *il == IdView::Zero {
                    let (ep, c) = grow_of(*r, *ir);
                    (EvView::Node(n, l, Box::new(ep)), cost_inc1(c))
                } else if *ir == IdView::Zero {
                    let (ep, c) = grow_of(*l, *il);
                    (EvView::Node(n, Box::new(ep), r), cost_inc1(c))
                } else {
                    let (elp, cl) = grow_of(*l, *il);
                    let (erp, cr) = grow_of(*r, *ir);
                    if cost_lt(cl, cr) {
                        (EvView::Node(n, Box::new(elp), r), cost_inc1(cl))
                    } else {
                        (EvView::Node(n, l, Box::new(erp)), cost_inc1(cr))
                    }
                }
            },
            _ => arbitrary(),
        },
    }
}

proof fn lemma_grow_wf(e: EvView, i: IdView)
    requires
        wf(e),
        can_grow(e, i),
    ensures
        wf(grow_of(e, i).0),
    decreases i, leaf_flag(e),
{
    match e {
        EvView::Leaf(n) => {
            if i == IdView::One {
                assert(wf(EvView::Leaf(n + 1)));
            } else {
                let base = EvView::Node(n, Box::new(EvView::Leaf(0)), Box::new(EvView::Leaf(0)));
                assert(wf(EvView::Leaf(0)));
                assert(wf(base));
                lemma_grow_wf(base, i);
            }
        },
        EvView::Node(n, l, r) => match i {
            IdView::Tuple(il, ir) => {
                if *il == IdView::Zero {
                    lemma_grow_wf(*r, *ir);
                } else if *ir == IdView::Zero {
                    lemma_grow_wf(*l, *il);
                } else {
                    lemma_grow_wf(*l, *il);
                    lemma_grow_wf(*r, *ir);
                }
            },
            _ => {},
        },
    }
}

/// Growing never lowers the overall maximum.
pub proof fn lemma_grow_max(e: EvView, i: IdView)
    requires
        can_grow(e, i),
    ensures
        max_of(grow_of(e, i).0) >= max_of(e),
    decreases i, leaf_flag(e),
{
    match e {
        EvView::Leaf(n) => {
            if i == IdView::One {
                assert(max_of(EvView::Leaf(n + 1)) == n + 1);
            } else {
                let base = EvView::Node(n, Box::new(EvView::Leaf(0)), Box::new(EvView::Leaf(0)));
                assert(max_of(EvView::Leaf(0)) == 0);
                assert(max_of(base) == n);
                lemma_grow_max(base, i);
            }
        },
        EvView::Node(n, l, r) => match i {
            IdView::Tuple(il, ir) => {
                if *il == IdView::Zero {
                    lemma_grow_max(*r, *ir);
                } else if *ir == IdView::Zero {
                    lemma_grow_max(*l, *il);
                } else {
                    lemma_grow_max(*l, *il);
                    lemma_grow_max(*r, *ir);
                }
            },
            _ => {},
        },
    }
}

/// Whether `t` records exactly one new event on top of count `v`: every
/// entry is `v`, except exactly one, which is `v + 1`.
pub open spec fn one_above(t: Seq<int>, v: int) -> bool {
    t.len() >= 1 && exists|k: int|
        0 <= k < t.len() && t[k] == v + 1 && (forall|x: int|
            0 <= x < t.len() && x != k ==> t[x] == v)
}

/// Law: when an event is recorded by growing, exactly one leaf's
/// absolute count rises by exactly one, and every other leaf keeps its
/// count. The grown tree's leaf counts are those of the original, with
/// the count at one position `j` replaced by a run `t` of copies of that
/// same count — several copies where the leaf had to be materialized
/// into a branch first — of which exactly one has risen by one. The
/// returned pair is such a position and run.
pub proof fn lemma_grow_precision(e: EvView, i: IdView, base: int) -> (w: (int, Seq<int>))
    requires
        can_grow(e, i),
    ensures
        ({
            let s = leaf_counts(e, base);
            let s2 = leaf_counts(grow_of(e, i).0, base);
            &&& 0 <= w.0 < s.len()
            &&& one_above(w.1, s[w.0])
            &&& s2 == s.take(w.0) + w.1 + s.skip(w.0 + 1)
        }),
    decreases i, leaf_flag(e),
{
    let s = leaf_counts(e, base);
    let s2 = leaf_counts(grow_of(e, i).0, base);
    match e {
        EvView::Leaf(n) => {
            if i == IdView::One {
                let t = seq![base + n + 1];
                assert(s == seq![base + n]);
                assert(leaf_counts(EvView::Leaf(n + 1), base) == seq![base + n + 1]);
                assert(t[0] == s[0] + 1);
                assert(one_above(t, s[0]));
                assert(s2 =~= s.take(0) + t + s.skip(1));
                (0, t)
            } else {
                let bn = EvView::Node(n, Box::new(EvView::Leaf(0)), Box::new(EvView::Leaf(0)));
                let sb = leaf_counts(bn, base);
                assert(leaf_counts(EvView::Leaf(0), base + n) == seq![base + n]);
                assert(sb == seq![base + n] + seq![base + n]);
                assert(sb.len() == 2 && sb[0] == base + n && sb[1] == base + n);
                let wp = lemma_grow_precision(bn, i, base);
                let jp = wp.0;
                let tp = wp.1;
                assert(grow_of(e, i).0 == grow_of(bn, i).0);
                let kp = choose|k: int|
                    0 <= k < tp.len() && tp[k] == sb[jp] + 1 && (forall|x: int|
                        0 <= x < tp.len() && x != k ==> tp[x] == sb[jp]);
                let kg = jp + kp;
                assert(s2 == sb.take(jp) + tp + sb.skip(jp + 1));
                assert(s2[kg] == tp[kp] && tp[kp] == base + n + 1);
                assert forall|x: int| 0 <= x < s2.len() && x != kg implies s2[x] == base + n by {
                    if x < jp {
                        assert(s2[x] == sb.take(jp)[x]);
                    } else if x < jp + tp.len() {
                        assert(s2[x] == tp[x - jp]);
                    } else {
                        assert(s2[x] == sb.skip(jp + 1)[x - jp - tp.len()]);
                    }
                }
                assert(one_above(s2, base + n));
                assert(s == seq![base + n]);
                assert(s2 =~= s.take(0) + s2 + s.skip(1));
                (0, s2)
            }
        },
        EvView::Node(n, l, r) => {
            let il = i->Tuple_0;
            let ir = i->Tuple_1;
            let sl = leaf_counts(*l, base + n);
            let sr = leaf_counts(*r, base + n);
            assert(s == sl + sr);
            lemma_leaf_bounds(*l, base + n);
            lemma_leaf_bounds(*r, base + n);
            if *il == IdView::Zero || (*ir != IdView::Zero && !cost_lt(
                grow_of(*l, *il).1,
                grow_of(*r, *ir).1,
            )) {
                // the right child is the one that grows
                let wp = lemma_grow_precision(*r, *ir, base + n);
                let jp = wp.0;
                let tp = wp.1;
                let srp = leaf_counts(grow_of(*r, *ir).0, base + n);
                assert(grow_of(e, i).0 == EvView::Node(n, l, Box::new(grow_of(*r, *ir).0)));
                assert(s2 == sl + srp);
                let j = sl.len() + jp;
                assert(s[j] == sr[jp]);
                assert(s2 =~= s.take(j) + tp + s.skip(j + 1)) by {
                    assert(srp == sr.take(jp) + tp + sr.skip(jp + 1));
                    assert forall|x: int|
                        0 <= x < (s.take(j) + tp + s.skip(j + 1)).len() implies (s.take(j) + tp
                        + s.skip(j + 1))[x] == s2[x] by {
                        if x < sl.len() {
                        } else if x < j {
                            assert(s.take(j)[x] == sr[x - sl.len()]);
                            assert(s2[x] == srp[x - sl.len()]);
                            assert(srp[x - sl.len()] == sr.take(jp)[x - sl.len()]);
                        } else if x < j + tp.len() {
                            assert(s2[x] == srp[x - sl.len()]);
                            assert(srp[x - sl.len()] == tp[x - j]);
                        } else {
                            assert(s2[x] == srp[x - sl.len()]);
                            assert(srp[x - sl.len()] == sr.skip(jp + 1)[x - sl.len() - jp
                                - tp.len()]);
                            assert(sr.skip(jp + 1)[x - sl.len() - jp - tp.len()] == sr[x - sl.len()
                                - tp.len() + 1]);
                            assert((s.take(j) + tp + s.skip(j + 1))[x] == s.skip(j + 1)[x - j
                                - tp.len()]);
                            assert(s.skip(j + 1)[x - j - tp.len()] == s[x - tp.len() + 1]);
                            assert(s[x - tp.len() + 1] == sr[x - tp.len() + 1 - sl.len()]);
                        }
                    }
                }
                (j, tp)
            } else {
                // the left child is the one that grows
                let wp = lemma_grow_precision(*l, *il, base + n);
                let jp = wp.0;
                let tp = wp.1;
                let slp = leaf_counts(grow_of(*l, *il).0, base + n);
                assert(grow_of(e, i).0 == EvView::Node(n, Box::new(grow_of(*l, *il).0), r));
                assert(s2 == slp + sr);
                assert(s[jp] == sl[jp]);
                assert(s2 =~= s.take(jp) + tp + s.skip(jp + 1)) by {
                    assert(slp == sl.take(jp) + tp + sl.skip(jp + 1));
                    assert forall|x: int|
                        0 <= x < (s.take(jp) + tp + s.skip(jp + 1)).len() implies (s.take(jp) + tp
                        + s.skip(jp + 1))[x] == s2[x] by {
                        if x < jp {
                            assert(s2[x] == slp[x] && slp[x] == sl.take(jp)[x]);
                        } else if x < jp + tp.len() {
                            assert(s2[x] == slp[x] && slp[x] == tp[x - jp]);
                        } else if x < jp + tp.len() + (sl.len() - jp - 1) {
                            assert((s.take(jp) + tp + s.skip(jp + 1))[x] == s.skip(jp + 1)[x - jp
                                - tp.len()]);
                            assert(s.skip(jp + 1)[x - jp - tp.len()] == sl[x - tp.len() + 1]);
                            assert(s2[x] == slp[x] && slp[x] == sl.skip(jp + 1)[x - jp - tp.len()]);
                        } else {
                            assert((s.take(jp) + tp + s.skip(jp + 1))[x] == s.skip(jp + 1)[x - jp
                                - tp.len()]);
                            assert(s.skip(jp + 1)[x - jp - tp.len()] == sr[x - tp.len() + 1
                                - sl.len()]);
                            assert(s2[x] == sr[x - slp.len()]);
                        }
                    }
                }
                (jp, tp)
            }
        },
    }
}

/// Whether `event` succeeds: either filling visibly changes the history,
/// or the identity lines up with the tree so that `grow` can expand it.
pub open spec fn event_ok(e: EvView, i: IdView) -> bool {
    norm_of(fill_of(e, i)) != norm_of(e) || can_grow(e, i)
}

/// What `event` returns on success: the filled tree where filling made a
/// visible difference, and otherwise the grown tree.
pub open spec fn event_of(e: EvView, i: IdView) -> EvView {
    if norm_of(fill_of(e, i)) != norm_of(e) {
        fill_of(e, i)
    } else {
        grow_of(e, i).0
    }
}

/// Law: recording an event never lowers the maximum already witnessed.
pub proof fn lemma_event_monotone(e: EvView, i: IdView)
    requires
        event_ok(e, i),
    ensures
        max_of(event_of(e, i)) >= max_of(e),
{
    if norm_of(fill_of(e, i)) != norm_of(e) {
        lemma_fill_max(e, i);
    } else {
        lemma_grow_max(e, i);
    }
}

impl Clone for Event {
    /// A clone shares every subtree with the original and models the
    /// same history.
    fn clone(&self) -> (r: Self)
        ensures
            r@ == self@,
    {
        match self {
            Event::Leaf(n) => Event::Leaf(*n),
            Event::Node(n, l, r) => Event::Node(*n, crate::rc_dup(l), crate::rc_dup(r)),
        }
    }
}

impl Event {
    /// The root counter of this tree, not including any ancestors.
    pub fn value(&self) -> (r: i64)
        ensures
            r as int == value_of(self@),
    {
        match self {
            Event::Leaf(n) => *n,
            Event::Node(n, _, _) => *n,
        }
    }

    /// Adds `m` to the root counter only, leaving the children's relative
    /// structure untouched.
    pub fn lift(self, m: i64) -> (r: Event)
        requires
            i64::MIN <= value_of(self@) + m <= i64::MAX,
        ensures
            r@ == lift_of(self@, m as int),
    {
        match self {
            Event::Leaf(n) => Event::Leaf(n + m),
            Event::Node(n, l, r) => Event::Node(n + m, l, r),
        }
    }

    /// Subtracts `m` from the root counter only, leaving the children's
    /// relative structure untouched.
    pub fn sink(self, m: i64) -> (r: Event)
        requires
            i64::MIN <= value_of(self@) - m <= i64::MAX,
        ensures
            r@ == sink_of(self@, m as int),
    {
        match self {
            Event::Leaf(n) => Event::Leaf(n - m),
            Event::Node(n, l, r) => Event::Node(n - m, l, r),
        }
    }

    /// The least absolute count reachable from the root to any leaf,
    /// relative to this tree's own position.
    pub fn min(&self) -> (r: i64)
        requires
            wf(self@),
            max_of(self@) <= i64::MAX,
        ensures
            r as int == min_of(self@),
        decreases self,
    {
        match self {
            Event::Leaf(n) => *n,
            Event::Node(n, e1, e2) => {
                proof {
                    lemma_wf_bounds(e1@);
                    lemma_wf_bounds(e2@);
                }
                let x1 = (&**e1).min();
                let x2 = (&**e2).min();
                *n + if x1 < x2 {
                    x1
                } else {
                    x2
                }
            },
        }
    }

    /// The greatest absolute count reachable from the root to any leaf,
    /// relative to this tree's own position.
    pub fn max(&self) -> (r: i64)
        requires
            wf(self@),
            max_of(self@) <= i64::MAX,
        ensures
            r as int == max_of(self@),
        decreases self,
    {
        match self {
            Event::Leaf(n) => *n,
            Event::Node(n, e1, e2) => {
                proof {
                    lemma_wf_bounds(e1@);
                    lemma_wf_bounds(e2@);
                }
                let x1 = (&**e1).max();
                let x2 = (&**e2).max();
                *n + if x1 > x2 {
                    x1
                } else {
                    x2
                }
            },
        }
    }

    /// Rebuilds this tree in normalized form: equal leaf siblings collapse
    /// into their parent, and children's common minimum is factored into
    /// the branch counter.
    pub fn norm(&self) -> (r: Event)
        requires
            wf(self@),
            max_of(self@) <= i64::MAX,
        ensures
            r@ == norm_of(self@),
        decreases self,
    {
        match self {
            Event::Leaf(n) => Event::Leaf(*n),
            Event::Node(n, e1, e2) => {
                proof {
                    lemma_wf_bounds(e1@);
                    lemma_wf_bounds(e2@);
                    lemma_norm_range(e1@);
                    lemma_norm_range(e2@);
                    lemma_norm_wf(e1@);
                    lemma_norm_wf(e2@);
                }
                let f1 = (&**e1).norm();
                let f2 = (&**e2).norm();
                if let (Event::Leaf(m1), Event::Leaf(m2)) = (&f1, &f2) {
                    if *m1 == *m2 {
                        return Event::Leaf(*n + *m1);
                    }
                }
                let m1 = f1.min();
                let m2 = f2.min();
                let m = if m1 < m2 {
                    m1
                } else {
                    m2
                };
                Event::Node(*n + m, Rc::new(f1.sink(m)), Rc::new(f2.sink(m)))
            },
        }
    }

    /// Structural equality: the same shape with the same counter at every
    /// position.
    pub fn eq_real(&self, other: &Event) -> (r: bool)
        ensures
            r == (self@ == other@),
        decreases self,
    {
        match (self, other) {
            (Event::Leaf(n), Event::Leaf(m)) => *n == *m,
            (Event::Node(n, e1, e2), Event::Node(m, f1, f2)) => *n == *m && (&**e1).eq_real(
                &**f1,
            ) && (&**e2).eq_real(&**f2),
            _ => false,
        }
    }

    /// Representation-independent equality: two event trees compare equal
    /// exactly when their normalized forms are structurally identical,
    /// however each of them was built.
    pub fn equiv(&self, other: &Event) -> (r: bool)
        requires
            wf(self@),
            max_of(self@) <= i64::MAX,
            wf(other@),
            max_of(other@) <= i64::MAX,
        ensures
            r == (norm_of(self@) == norm_of(other@)),
    {
        self.norm().eq_real(&other.norm())
    }

    /// Propagates the current maximum into every region fully owned by
    /// `i`: owned branches catch up to the highest count already
    /// witnessed anywhere, without creating new structure and without
    /// raising the overall maximum.
    pub fn fill(&self, i: &Ident) -> (r: Event)
        requires
            wf(self@),
            max_of(self@) <= i64::MAX,
        ensures
            r@ == fill_of(self@, i@),
        decreases self,
    {
        match self {
            Event::Leaf(n) => Event::Leaf(*n),
            Event::Node(n, el, er) => match i {
                Ident::Zero => self.clone(),
                Ident::One => Event::Leaf(self.max()),
                Ident::Tuple(il, ir) => {
                    proof {
                        lemma_wf_bounds(el@);
                        lemma_wf_bounds(er@);
                    }
                    if let Ident::One = &**il {
                        let ep = (&**er).fill(&**ir);
                        proof {
                            lemma_fill_wf(er@, ir@);
                            lemma_fill_max(er@, ir@);
                            lemma_wf_bounds(ep@);
                        }
                        let ml = (&**el).max();
                        let mr = ep.max();
                        let m = if ml > mr {
                            ml
                        } else {
                            mr
                        };
                        let inner = Event::Node(*n, Rc::new(Event::Leaf(m)), Rc::new(ep));
                        proof {
                            assert((Event::Leaf(m))@ == EvView::Leaf(m as int));
                            assert(wf(EvView::Leaf(m as int)));
                            assert(max_of(EvView::Leaf(m as int)) == m as int);
                            assert(max_of(inner@) == n as int + max_int(
                                m as int,
                                max_of(ep@),
                            ));
                            assert(max_of(inner@) == max_of(self@));
                            lemma_norm_wf(inner@);
                        }
                        return inner.norm();
                    }
                    if let Ident::One = &**ir {
                        proof {
                            assert(il@ != IdView::One);
                        }
                        let ep = (&**el).fill(&**il);
                        proof {
                            lemma_fill_wf(el@, il@);
                            lemma_fill_max(el@, il@);
                            lemma_wf_bounds(ep@);
                        }
                        let ml = ep.max();
                        let mr = (&**er).max();
                        let m = if ml > mr {
                            ml
                        } else {
                            mr
                        };
                        let inner = Event::Node(*n, Rc::new(ep), Rc::new(Event::Leaf(m)));
                        proof {
                            assert((Event::Leaf(m))@ == EvView::Leaf(m as int));
                            assert(wf(EvView::Leaf(m as int)));
                            assert(max_of(EvView::Leaf(m as int)) == m as int);
                            assert(max_of(inner@) == n as int + max_int(
                                max_of(ep@),
                                m as int,
                            ));
                            assert(max_of(inner@) == max_of(self@));
                            lemma_norm_wf(inner@);
                        }
                        return inner.norm();
                    }
                    proof {
                        assert(il@ != IdView::One && ir@ != IdView::One);
                        lemma_fill_wf(el@, il@);
                        lemma_fill_max(el@, il@);
                        lemma_fill_wf(er@, ir@);
                        lemma_fill_max(er@, ir@);
                    }
                    let fl = (&**el).fill(&**il);
                    let fr = (&**er).fill(&**ir);
                    let inner = Event::Node(*n, Rc::new(fl), Rc::new(fr));
                    proof {
                        assert(max_of(inner@) == n as int + max_int(max_of(fl@), max_of(fr@)));
                        assert(max_of(inner@) == max_of(self@));
                        lemma_norm_wf(inner@);
                    }
                    inner.norm()
                },
            },
        }
    }

    /// Materializes genuinely new structure to record a distinguishable
    /// event strictly inside the region owned by `i`, choosing the
    /// cheapest expansion. Returns `None` where the identity's shape has
    /// diverged from the tree's, so that no event can be recorded.
    pub fn grow(&self, i: &Ident) -> (r: Option<(Event, Cost)>)
        requires
            wf(self@),
            max_of(self@) < i64::MAX,
        ensures
            r is Some <==> can_grow(self@, i@),
            r matches Some(p) ==> p.0@ == grow_of(self@, i@).0 && p.1@ == grow_of(self@, i@).1,
        decreases i, leaf_flag(self@),
    {
        match self {
            Event::Leaf(n) => {
                if let Ident::One = i {
                    proof {
                        assert(i@ == IdView::One);
                        assert(max_of(self@) == *n as int);
                    }
                    let ev = Event::Leaf(*n + 1);
                    proof {
                        assert(ev@ == EvView::Leaf(*n as int + 1));
                    }
                    Some((ev, Cost::zero()))
                } else {
                    let base = Event::Node(*n, Rc::new(Event::Leaf(0)), Rc::new(Event::Leaf(0)));
                    proof {
                        assert(i@ != IdView::One);
                        assert((Event::Leaf(0i64))@ == EvView::Leaf(0));
                        assert(wf(EvView::Leaf(0)));
                        assert(max_of(EvView::Leaf(0)) == 0);
                        assert(base@ == EvView::Node(
                            *n as int,
                            Box::new(EvView::Leaf(0)),
                            Box::new(EvView::Leaf(0)),
                        ));
                        assert(wf(base@));
                        assert(max_of(base@) == *n as int);
                        assert(max_of(self@) == *n as int);
                    }
                    match base.grow(i) {
                        Some(p) => Some((p.0, p.1.inc2())),
                        None => None,
                    }
                }
            },
            Event::Node(n, el, er) => match i {
                Ident::One => {
                    proof {
                        assert(i@ == IdView::One);
                    }
                    None
                },
                Ident::Zero => {
                    proof {
                        assert(i@ == IdView::Zero);
                    }
                    None
                },
                Ident::Tuple(il, ir) => {
                    proof {
                        lemma_wf_bounds(el@);
                        lemma_wf_bounds(er@);
                        assert(max_of(self@) == *n as int + max_int(max_of(el@), max_of(er@)));
                    }
                    if let Ident::Zero = &**il {
                        proof {
                            assert(il@ == IdView::Zero);
                        }
                        match (&**er).grow(&**ir) {
                            Some(p) => Some(
                                (Event::Node(*n, crate::rc_dup(el), Rc::new(p.0)), p.1.inc1()),
                            ),
                            None => None,
                        }
                    } else if let Ident::Zero = &**ir {
                        proof {
                            assert(il@ != IdView::Zero && ir@ == IdView::Zero);
                        }
                        match (&**el).grow(&**il) {
                            Some(p) => Some(
                                (Event::Node(*n, Rc::new(p.0), crate::rc_dup(er)), p.1.inc1()),
                            ),
                            None => None,
                        }
                    } else {
                        proof {
                            assert(il@ != IdView::Zero && ir@ != IdView::Zero);
                        }
                        let gl = (&**el).grow(&**il);
                        let gr = (&**er).grow(&**ir);
                        match (gl, gr) {
                            (Some(pl), Some(pr)) => {
                                if pl.1.lt(&pr.1) {
                                    Some(
                                        (
                                            Event::Node(*n, Rc::new(pl.0), crate::rc_dup(er)),
                                            pl.1.inc1(),
                                        ),
                                    )
                                } else {
                                    Some(
                                        (
                                            Event::Node(*n, crate::rc_dup(el), Rc::new(pr.0)),
                                            pr.1.inc1(),
                                        ),
                                    )
                                }
                            },
                            _ => None,
                        }
                    }
                },
            },
        }
    }

    /// Records an event under identity `i`: filling alone where that
    /// already makes a visible difference, and otherwise the cheapest
    /// structural growth. Fails exactly where the identity's shape has
    /// diverged from the tree's, so that neither path can record one.
    pub fn event(&self, i: &Ident) -> (r: Result<Event, ItcError>)
        requires
            wf(self@),
            max_of(self@) < i64::MAX,
        ensures
            r is Ok <==> event_ok(self@, i@),
            r matches Ok(ev) ==> ev@ == event_of(self@, i@) && wf(ev@),
            r is Err ==> r == Err::<Event, ItcError>(ItcError::ShapeMismatch),
    {
        let filled = self.fill(i);
        proof {
            lemma_fill_wf(self@, i@);
            lemma_fill_max(self@, i@);
        }
        if !filled.equiv(self) {
            Ok(filled)
        } else {
            match self.grow(i) {
                Some(p) => {
                    proof {
                        lemma_grow_wf(self@, i@);
                    }
                    Ok(p.0)
                },
                None => Err(ItcError::ShapeMismatch),
            }
        }
    }
}

} // verus!
