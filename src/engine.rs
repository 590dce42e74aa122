//! The search engine: a frontier ordered by estimated total moves, expanded best first,
//! with the bound tightened and the frontier pruned whenever a better exact match appears.

use vstd::prelude::*;
use crate::estimate::{estimate, heuristic_estimate};
use crate::path::LatticePath;
use crate::ratio::{SignedRatio, UnsignedRatio};

verus! {

/// A path passes the search's filters: no larger than the target when `trim_larger`,
/// a whole number unless `allow_fractions`.
pub open spec fn passes_filters<P: LatticePath>(
    c: P,
    target: UnsignedRatio,
    trim_larger: bool,
    allow_fractions: bool,
) -> bool {
    &&& (trim_larger ==> c.spec_value().spec_le(target))
    &&& (allow_fractions || c.spec_value().spec_is_integer())
}

/// The path reached from `start` by the moves `ds`, where each move is a legal
/// continuation and each path after a move passes the filters; `None` where one is not.
pub open spec fn walk<P: LatticePath>(
    start: P,
    ds: Seq<P::Direction>,
    target: UnsignedRatio,
    trim_larger: bool,
    allow_fractions: bool,
) -> Option<P>
    decreases ds.len(),
{
    if ds.len() == 0 {
        Some(start)
    } else {
        match walk(start, ds.drop_last(), target, trim_larger, allow_fractions) {
            Some(p) => match p.spec_extend(ds.last()) {
                Some(c) => if passes_filters(c, target, trim_larger, allow_fractions) {
                    Some(c)
                } else {
                    None
                },
                None => None,
            },
            None => None,
        }
    }
}

/// `p` is an exact answer for `target`: its value is the target's, sign included, and
/// some sequence of moves reaches it from the empty path under the filters.
pub open spec fn is_exact_match<P: LatticePath>(
    p: P,
    target: SignedRatio,
    trim_larger: bool,
    allow_fractions: bool,
) -> bool {
    &&& p.spec_value().spec_same_value(target.spec_magnitude())
    &&& p.spec_negative() == target.spec_is_negative()
    &&& exists|ds: Seq<P::Direction>|
        walk(P::spec_zero(target.spec_is_negative()), ds, target.spec_magnitude(), trim_larger,
            allow_fractions) == Some(p)
}

/// What a search for `target` may return: the empty path for a zero target, and
/// otherwise nothing or an exact match.
pub open spec fn is_search_outcome<P: LatticePath>(
    r: Option<P>,
    target: SignedRatio,
    trim_larger: bool,
    allow_fractions: bool,
) -> bool {
    &&& (target.numer == 0 ==> r == Some(P::spec_zero(target.spec_is_negative())))
    &&& (r matches Some(p) ==> is_exact_match(p, target, trim_larger, allow_fractions))
}

/// Every path that a walk reaches has as many moves as the walk, stays within
/// `max_moves`, has a well-formed value and keeps the root's sign bias.
pub proof fn lemma_walk_facts<P: LatticePath>(
    negative: bool,
    ds: Seq<P::Direction>,
    target: UnsignedRatio,
    trim_larger: bool,
    allow_fractions: bool,
)
    ensures
        walk(P::spec_zero(negative), ds, target, trim_larger, allow_fractions) matches Some(p) ==> {
            &&& p.spec_len() == ds.len()
            &&& p.spec_len() <= P::max_moves()
            &&& p.spec_value().wf()
            &&& p.spec_negative() == negative
        },
    decreases ds.len(),
{
    P::lemma_zero(negative);
    if ds.len() > 0 {
        lemma_walk_facts::<P>(negative, ds.drop_last(), target, trim_larger, allow_fractions);
        if let Some(p) = walk(P::spec_zero(negative), ds.drop_last(), target, trim_larger, allow_fractions) {
            p.lemma_extend(ds.last());
        }
    }
}

/// One move more on a walk extends the path it reached.
proof fn lemma_walk_push<P: LatticePath>(
    start: P,
    ds: Seq<P::Direction>,
    d: P::Direction,
    target: UnsignedRatio,
    trim_larger: bool,
    allow_fractions: bool,
)
    ensures
        walk(start, ds.push(d), target, trim_larger, allow_fractions) == match walk(
            start,
            ds,
            target,
            trim_larger,
            allow_fractions,
        ) {
            Some(p) => match p.spec_extend(d) {
                Some(c) => if passes_filters(c, target, trim_larger, allow_fractions) {
                    Some(c)
                } else {
                    None
                },
                None => None,
            },
            None => None,
        },
{
    assert(ds.push(d).drop_last() =~= ds);
}

/// The paths and priorities of a frontier, in order.
pub open spec fn queue_view<P: LatticePath>(s: Seq<QueuedPath<P>>) -> Seq<(P, usize)> {
    s.map_values(|q: QueuedPath<P>| (q.path, q.priority))
}

/// The index of the first entry of least priority in `s`, scanning from `i` with `best`
/// the first least one before `i`.
pub open spec fn first_min_from<P>(s: Seq<(P, usize)>, best: int, i: int) -> int
    decreases s.len() - i,
{
    if i < 0 || i >= s.len() {
        best
    } else if s[i].1 < s[best].1 {
        first_min_from(s, i, i + 1)
    } else {
        first_min_from(s, best, i + 1)
    }
}

proof fn lemma_first_min_in_range<P>(s: Seq<(P, usize)>, best: int, i: int)
    requires
        0 <= best < s.len(),
        0 <= i,
    ensures
        0 <= first_min_from(s, best, i) < s.len(),
    decreases s.len() - i,
{
    if i < s.len() {
        if s[i].1 < s[best].1 {
            lemma_first_min_in_range(s, i, i + 1);
        } else {
            lemma_first_min_in_range(s, best, i + 1);
        }
    }
}

/// The extensions of `p` by the directions `dirs`, in order, that are legal, pass the
/// filters and should replace `best`.
pub open spec fn successors<P: LatticePath>(
    p: P,
    dirs: Seq<P::Direction>,
    target: UnsignedRatio,
    trim_larger: bool,
    allow_fractions: bool,
    best: Option<P>,
) -> Seq<P>
    decreases dirs.len(),
{
    if dirs.len() == 0 {
        Seq::empty()
    } else {
        let prev = successors(p, dirs.drop_last(), target, trim_larger, allow_fractions, best);
        match p.spec_extend(dirs.last()) {
            Some(c) => if passes_filters(c, target, trim_larger, allow_fractions)
                && c.spec_should_replace(best) {
                prev.push(c)
            } else {
                prev
            },
            None => prev,
        }
    }
}

/// The paths `cs`, each with its estimate toward `target` as priority.
pub open spec fn queued<P: LatticePath>(cs: Seq<P>, target: UnsignedRatio) -> Seq<(P, usize)> {
    cs.map_values(|c: P| (c, estimate(c.spec_len(), c.spec_value(), target) as usize))
}

/// The index of the first entry of least quasi-area among those of `target`'s value,
/// scanning from `i` with `found` the first such one before `i`.
pub open spec fn first_match_from<P: LatticePath>(
    s: Seq<(P, usize)>,
    target: UnsignedRatio,
    found: Option<int>,
    i: int,
) -> Option<int>
    decreases s.len() - i,
{
    if i < 0 || i >= s.len() {
        found
    } else if s[i].0.spec_value().spec_same_value(target) && (found matches Some(j) ==> s[i].0.spec_quasi_area() < s[j].0.spec_quasi_area()) {
        first_match_from(s, target, Some(i), i + 1)
    } else {
        first_match_from(s, target, found, i + 1)
    }
}

/// The entries of `s`, in order, whose bounds are at least as good as those of `best`.
pub open spec fn keep_better<P: LatticePath>(s: Seq<(P, usize)>, best: P) -> Seq<(P, usize)>
    decreases s.len(),
{
    if s.len() == 0 {
        s
    } else if s.last().0.spec_better_bounds(&best) {
        keep_better(s.drop_last(), best).push(s.last())
    } else {
        keep_better(s.drop_last(), best)
    }
}

/// One round of the search on frontier `f` with best match `best`: the first entry of
/// least priority is replaced by its successors; if one of them has the target's value,
/// the frontier's first match of least quasi-area becomes the best match when it should
/// replace it, and the frontier keeps only the entries with bounds at least as good.
pub open spec fn step<P: LatticePath>(
    f: Seq<(P, usize)>,
    best: Option<P>,
    target: UnsignedRatio,
    trim_larger: bool,
    allow_fractions: bool,
) -> (Seq<(P, usize)>, Option<P>) {
    let i = first_min_from(f, 0, 1);
    let kids = successors(f[i].0, P::spec_directions(), target, trim_larger, allow_fractions, best);
    let f2 = f.remove(i) + queued(kids, target);
    if exists|k: int| 0 <= k < kids.len() && (#[trigger] kids[k]).spec_value().spec_same_value(target) {
        match first_match_from(f2, target, None, 0) {
            Some(j) => if f2[j].0.spec_should_replace(best) {
                (keep_better(f2, f2[j].0), Some(f2[j].0))
            } else {
                (f2, best)
            },
            None => (f2, best),
        }
    } else {
        (f2, best)
    }
}

/// The frontier and best match after `n` rounds, or after the frontier empties.
pub open spec fn iterate<P: LatticePath>(
    f: Seq<(P, usize)>,
    best: Option<P>,
    target: UnsignedRatio,
    trim_larger: bool,
    allow_fractions: bool,
    n: nat,
) -> (Seq<(P, usize)>, Option<P>)
    decreases n,
{
    if n == 0 {
        (f, best)
    } else {
        let prev = iterate(f, best, target, trim_larger, allow_fractions, (n - 1) as nat);
        if prev.0.len() == 0 {
            prev
        } else {
            step(prev.0, prev.1, target, trim_larger, allow_fractions)
        }
    }
}

/// Once the frontier is empty, further rounds change nothing.
proof fn lemma_iterate_settled<P: LatticePath>(
    f: Seq<(P, usize)>,
    best: Option<P>,
    target: UnsignedRatio,
    trim_larger: bool,
    allow_fractions: bool,
    n: nat,
    m: nat,
)
    requires
        n <= m,
        iterate(f, best, target, trim_larger, allow_fractions, n).0.len() == 0,
    ensures
        iterate(f, best, target, trim_larger, allow_fractions, m) == iterate(
            f,
            best,
            target,
            trim_larger,
            allow_fractions,
            n,
        ),
    decreases m - n,
{
    if n < m {
        lemma_iterate_settled(f, best, target, trim_larger, allow_fractions, n, (m - 1) as nat);
    }
}

/// Upper bound on the number of paths in the tree below a path of `len` moves, itself included.
pub open spec fn subtree_weight<P: LatticePath>(len: nat) -> nat
    decreases (if len < P::max_moves() { P::max_moves() - len } else { 0 }),
{
    if len < P::max_moves() {
        1 + P::spec_directions().len() * subtree_weight::<P>(len + 1)
    } else {
        1
    }
}

/// A frontier entry: a path with its priority, and the moves that led to it.
pub struct QueuedPath<P: LatticePath> {
    pub path: P,
    pub priority: usize,
    pub trail: Ghost<Seq<P::Direction>>,
}

/// The paths that may still be expanded below a frontier: a bound that every step lowers.
pub open spec fn frontier_weight<P: LatticePath>(s: Seq<QueuedPath<P>>) -> nat
    decreases s.len(),
{
    if s.len() == 0 {
        0
    } else {
        frontier_weight(s.drop_last()) + subtree_weight::<P>(s.last().path.spec_len())
    }
}

proof fn lemma_weight_concat<P: LatticePath>(a: Seq<QueuedPath<P>>, b: Seq<QueuedPath<P>>)
    ensures
        frontier_weight(a + b) == frontier_weight(a) + frontier_weight(b),
    decreases b.len(),
{
    if b.len() == 0 {
        assert(a + b =~= a);
    } else {
        lemma_weight_concat(a, b.drop_last());
        assert((a + b).drop_last() =~= a + b.drop_last());
    }
}

proof fn lemma_weight_remove<P: LatticePath>(s: Seq<QueuedPath<P>>, i: int)
    requires
        0 <= i < s.len(),
    ensures
        frontier_weight(s.remove(i)) + subtree_weight::<P>(s[i].path.spec_len())
            == frontier_weight(s),
{
    let a = s.subrange(0, i);
    let b = s.subrange(i + 1, s.len() as int);
    assert(s.remove(i) =~= a + b);
    assert(s =~= (a + seq![s[i]]) + b);
    lemma_weight_concat(a, b);
    lemma_weight_concat(a + seq![s[i]], b);
    lemma_weight_concat(a, seq![s[i]]);
    assert(seq![s[i]].drop_last() =~= Seq::<QueuedPath<P>>::empty());
    assert(frontier_weight(Seq::<QueuedPath<P>>::empty()) == 0);
    assert(frontier_weight(seq![s[i]]) == subtree_weight::<P>(s[i].path.spec_len()));
}

proof fn lemma_weight_push<P: LatticePath>(s: Seq<QueuedPath<P>>, q: QueuedPath<P>)
    ensures
        frontier_weight(s.push(q)) == frontier_weight(s) + subtree_weight::<P>(q.path.spec_len()),
{
    assert(s.push(q).drop_last() =~= s);
}

/// The search for the shortest exact path to a rational target.
pub struct AStarPathGenerator<P: LatticePath> {
    target: UnsignedRatio,
    negative: bool,
    trim_larger: bool,
    allow_fractions: bool,
    smallest: Option<P>,
    smallest_trail: Ghost<Seq<P::Direction>>,
    frontier: Vec<QueuedPath<P>>,
}

impl<P: LatticePath> AStarPathGenerator<P> {
    /// The magnitude of the target.
    pub closed spec fn spec_target(&self) -> UnsignedRatio {
        self.target
    }

    /// Whether the target is below zero.
    pub closed spec fn spec_negative(&self) -> bool {
        self.negative
    }

    pub closed spec fn spec_trim_larger(&self) -> bool {
        self.trim_larger
    }

    pub closed spec fn spec_allow_fractions(&self) -> bool {
        self.allow_fractions
    }

    /// The frontier's paths and priorities, in order.
    pub closed spec fn spec_queue(&self) -> Seq<(P, usize)> {
        queue_view(self.frontier@)
    }

    /// The best match so far.
    pub closed spec fn spec_smallest(&self) -> Option<P> {
        self.smallest
    }

    /// The frontier and best match after `n` rounds from the current ones.
    pub open spec fn rounds(&self, n: nat) -> (Seq<(P, usize)>, Option<P>) {
        iterate(self.spec_queue(), self.spec_smallest(), self.spec_target(), self.spec_trim_larger(),
            self.spec_allow_fractions(), n)
    }

    /// The empty path the search starts from.
    pub open spec fn root(&self) -> P {
        P::spec_zero(self.spec_negative())
    }

    /// The walk `ds` from the root under this search's filters.
    pub open spec fn walk_from_root(&self, ds: Seq<P::Direction>) -> Option<P> {
        walk(self.root(), ds, self.spec_target(), self.spec_trim_larger(), self.spec_allow_fractions())
    }

    /// What [`Self::run`] returns: the empty path for a zero target; otherwise nothing,
    /// or a path with the target's value and sign that a walk from the root reaches:
    /// the best match once rounds of [`step`] have emptied the frontier.
    pub open spec fn is_run_outcome(&self, r: Option<P>) -> bool {
        &&& (self.spec_target().spec_is_zero() ==> r == Some(self.root()))
        &&& (r matches Some(p) ==> {
            &&& p.spec_value().spec_same_value(self.spec_target())
            &&& p.spec_negative() == self.spec_negative()
            &&& exists|ds: Seq<P::Direction>| self.walk_from_root(ds) == Some(p)
        })
        &&& (!self.spec_target().spec_is_zero() ==> exists|n: nat|
            #[trigger] self.rounds(n).0.len() == 0 && self.rounds(n).1 == r)
    }

    /// A frontier entry is reached from the root by its trail.
    closed spec fn entry_ok(&self, q: QueuedPath<P>) -> bool {
        self.walk_from_root(q.trail@) == Some(q.path)
    }

    /// Invariant of a search under way.
    closed spec fn inv(&self) -> bool {
        &&& self.target.wf()
        &&& forall|i: int| 0 <= i < self.frontier@.len() ==> self.entry_ok(#[trigger] self.frontier@[i])
        &&& (self.smallest matches Some(s) ==> {
            &&& self.walk_from_root(self.smallest_trail@) == Some(s)
            &&& s.spec_value().spec_same_value(self.target)
        })
    }

    /// A search that has not started: the frontier holds the empty path alone.
    pub closed spec fn wf(&self) -> bool {
        &&& self.inv()
        &&& self.frontier@.len() == 1
        &&& self.frontier@[0].path == self.root()
        &&& self.frontier@[0].priority == estimate(0, self.root().spec_value(), self.target)
        &&& self.smallest is None
    }

    /// A search for `target` under the given filters that has not started.
    pub open spec fn is_started(&self, target: SignedRatio, trim_larger: bool, allow_fractions: bool) -> bool {
        &&& self.wf()
        &&& self.spec_target() == target.spec_magnitude()
        &&& self.spec_negative() == target.spec_is_negative()
        &&& self.spec_trim_larger() == trim_larger
        &&& self.spec_allow_fractions() == allow_fractions
    }

    closed spec fn same_params(&self, o: &Self) -> bool {
        &&& self.target == o.target
        &&& self.negative == o.negative
        &&& self.trim_larger == o.trim_larger
        &&& self.allow_fractions == o.allow_fractions
    }
}

impl<P: LatticePath> AStarPathGenerator<P> {
    /// Starts a search for `target`: the frontier holds the empty path, biased by the
    /// target's sign, and no match is known yet.
    pub fn new(target: SignedRatio, trim_larger: bool, allow_fractions: bool) -> (r: Self)
        requires
            target.wf(),
        ensures
            r.is_started(target, trim_larger, allow_fractions),
    {
        let negative = target.is_negative();
        let mut r = AStarPathGenerator {
            target: target.unsigned_abs(),
            negative,
            trim_larger,
            allow_fractions,
            smallest: None,
            smallest_trail: Ghost(Seq::empty()),
            frontier: Vec::new(),
        };
        let root = P::zero(negative);
        proof {
            P::lemma_zero(negative);
        }
        r.push_path(root, Ghost(Seq::empty()));
        r
    }

    /// The estimated total moves for `path`.
    fn heuristic(&self, path: &P) -> (r: usize)
        requires
            self.target.wf(),
            path.spec_value().wf(),
            path.spec_len() <= P::max_moves(),
        ensures
            r == estimate(path.spec_len(), path.spec_value(), self.target),
    {
        proof {
            P::lemma_max_moves();
        }
        heuristic_estimate(path.len(), &path.value(), &self.target)
    }

    /// Queues `path`, reached by `trail`, with its estimate as priority.
    fn push_path(&mut self, path: P, trail: Ghost<Seq<P::Direction>>)
        requires
            old(self).inv(),
            old(self).walk_from_root(trail@) == Some(path),
        ensures
            final(self).inv(),
            final(self).same_params(old(self)),
            final(self).smallest == old(self).smallest,
            final(self).frontier@.len() == old(self).frontier@.len() + 1,
            final(self).frontier@.drop_last() == old(self).frontier@,
            final(self).frontier@.last().path == path,
            final(self).frontier@.last().priority
                == estimate(path.spec_len(), path.spec_value(), old(self).target),
    {
        proof {
            lemma_walk_facts::<P>(self.negative, trail@, self.target, self.trim_larger, self.allow_fractions);
        }
        let priority = self.heuristic(&path);
        self.frontier.push(QueuedPath { path, priority, trail });
        proof {
            assert(self.frontier@.drop_last() =~= old(self).frontier@);
            assert forall|i: int| 0 <= i < self.frontier@.len() implies self.entry_ok(
                #[trigger] self.frontier@[i],
            ) by {
                if i < old(self).frontier@.len() {
                    assert(self.frontier@[i] == old(self).frontier@[i]);
                }
            }
        }
    }

    /// Takes out the first entry of smallest priority.
    fn pop_min(&mut self) -> (r: QueuedPath<P>)
        requires
            old(self).frontier@.len() > 0,
        ensures
            ({
                let i = first_min_from(queue_view(old(self).frontier@), 0, 1);
                &&& 0 <= i < old(self).frontier@.len()
                &&& r == old(self).frontier@[i]
                &&& final(self).frontier@ == old(self).frontier@.remove(i)
            }),
            final(self).same_params(old(self)),
            final(self).smallest == old(self).smallest,
            final(self).smallest_trail == old(self).smallest_trail,
    {
        let ghost q = queue_view(self.frontier@);
        proof {
            lemma_first_min_in_range(q, 0, 1);
        }
        let mut best: usize = 0;
        let mut i: usize = 1;
        while i < self.frontier.len()
            invariant
                1 <= i <= self.frontier@.len(),
                best < i,
                q == queue_view(self.frontier@),
                first_min_from(q, best as int, i as int) == first_min_from(q, 0, 1),
            decreases self.frontier@.len() - i,
        {
            if self.frontier[i].priority < self.frontier[best].priority {
                best = i;
            }
            i = i + 1;
        }
        self.frontier.remove(best)
    }

    /// Expands the entry of smallest priority: it leaves the frontier and its successors
    /// join it. Returns whether a successor has the target's value.
    fn update_frontier(&mut self) -> (r: bool)
        requires
            old(self).inv(),
            old(self).frontier@.len() > 0,
        ensures
            final(self).inv(),
            final(self).same_params(old(self)),
            final(self).smallest == old(self).smallest,
            frontier_weight(final(self).frontier@) < frontier_weight(old(self).frontier@),
            ({
                let f = queue_view(old(self).frontier@);
                let i = first_min_from(f, 0, 1);
                let kids = successors(f[i].0, P::spec_directions(), old(self).target,
                    old(self).trim_larger, old(self).allow_fractions, old(self).smallest);
                &&& queue_view(final(self).frontier@) == f.remove(i) + queued(kids, old(self).target)
                &&& r == exists|k: int| 0 <= k < kids.len() && (#[trigger] kids[k]).spec_value().spec_same_value(old(self).target)
            }),
    {
        let ghost old_frontier = self.frontier@;
        let ghost f = queue_view(old_frontier);
        let q = self.pop_min();
        let ghost i = first_min_from(f, 0, 1);
        proof {
            assert(f[i].0 == q.path);
            assert(queue_view(self.frontier@) =~= f.remove(i));
            lemma_weight_remove(old_frontier, i);
            assert(self.entry_ok(old_frontier[i]));
            assert forall|j: int| 0 <= j < self.frontier@.len() implies self.entry_ok(
                #[trigger] self.frontier@[j],
            ) by {
                if j < i {
                    assert(self.frontier@[j] == old_frontier[j]);
                } else {
                    assert(self.frontier@[j] == old_frontier[j + 1]);
                }
            }
            lemma_walk_facts::<P>(self.negative, q.trail@, self.target, self.trim_larger, self.allow_fractions);
        }
        let QueuedPath { path, priority: _, trail } = q;
        let ghost l = path.spec_len();
        let ghost w1 = frontier_weight(self.frontier@);
        let (mut children, used) = self.next_paths(&path, trail);
        let ghost all = children@;
        let total: usize = children.len();
        let ghost n = all.len();
        let mut has_valid_solutions = false;
        let mut k: usize = 0;
        while children.len() > 0
            invariant
                self.inv(),
                self.same_params(old(self)),
                self.smallest == old(self).smallest,
                k + children@.len() == n,
                n == all.len(),
                n == total,
                children@ == all.subrange(k as int, n as int),
                n == used@.len(),
                n <= P::spec_directions().len(),
                forall|c: int|
                    0 <= c < n ==> self.walk_from_root(#[trigger] trail@.push(used@[c]))
                        == Some(all[c]),
                l == trail@.len(),
                frontier_weight(self.frontier@) == w1 + k * subtree_weight::<P>(l + 1),
                all == successors(f[i].0, P::spec_directions(), self.target, self.trim_larger, self.allow_fractions, self.smallest),
                queue_view(self.frontier@) == f.remove(i) + queued(all.take(k as int), self.target),
                has_valid_solutions == exists|c: int| 0 <= c < k && (#[trigger] all[c]).spec_value().spec_same_value(self.target),
            decreases children@.len(),
        {
            let ghost rest = children@;
            let new_path = children.remove(0);
            proof {
                assert(rest[0] == all[k as int]);
                assert(all[k as int] == new_path);
                lemma_walk_facts::<P>(self.negative, trail@.push(used@[k as int]), self.target, self.trim_larger, self.allow_fractions);
                lemma_weight_push(self.frontier@, QueuedPath { path: new_path, priority: 0, trail: Ghost(trail@.push(used@[k as int])) });
                assert(children@ =~= all.subrange(k + 1, n as int));
            }
            if new_path.value().same_value(&self.target) {
                has_valid_solutions = true;
            }
            let ghost before = self.frontier@;
            self.push_path(new_path, Ghost(trail@.push(used@[k as int])));
            proof {
                assert(self.frontier@ == before.push(self.frontier@.last()));
                lemma_weight_push(before, self.frontier@.last());
                assert((k + 1) * subtree_weight::<P>(l + 1) == k * subtree_weight::<P>(l + 1) + subtree_weight::<P>(l + 1)) by (nonlinear_arith);
                assert(queue_view(self.frontier@) =~= queue_view(before).push((new_path, self.frontier@.last().priority)));
                assert(queued(all.take(k + 1), self.target) =~= queued(all.take(k as int), self.target).push((new_path, self.frontier@.last().priority)));
                assert(queue_view(self.frontier@) =~= f.remove(i) + queued(all.take(k + 1), self.target));
            }
            k = k + 1;
        }
        proof {
            assert(all.take(k as int) =~= all);
        }
        proof {
            let d = P::spec_directions().len();
            let wc = subtree_weight::<P>(l + 1);
            if n > 0 {
                lemma_walk_facts::<P>(self.negative, trail@.push(used@[0]), self.target, self.trim_larger, self.allow_fractions);
                assert(l < P::max_moves());
                assert(subtree_weight::<P>(l) == 1 + d * wc);
                assert(n * wc <= d * wc) by (nonlinear_arith)
                    requires n <= d;
            }
        }
        has_valid_solutions
    }

    /// Runs the search to the end and hands back the best exact match, if any.
    ///
    /// A zero target is met by the empty path at once. Otherwise the entry of smallest
    /// priority is expanded until the frontier is empty; each time an expansion produces a
    /// match, the frontier's match of smallest quasi-area becomes the best one if it should
    /// replace the best so far, and the entries whose bounds are not at least as good as
    /// its bounds are dropped.
    pub fn run(self) -> (r: Option<P>)
        requires
            self.wf(),
        ensures
            self.is_run_outcome(r),
    {
        let ghost start = self;
        let mut gen = self;
        if gen.target.is_zero() {
            proof {
                P::lemma_zero(gen.negative);
                assert(gen.frontier@[0].path == start.root());
                assert(start.walk_from_root(Seq::empty()) == Some(start.root()));
            }
            return match gen.frontier.pop() {
                Some(q) => Some(q.path),
                None => None,
            };
        }
        let ghost mut n: nat = 0;
        while gen.frontier.len() > 0
            invariant
                gen.inv(),
                gen.same_params(&start),
                start.rounds(n) == (gen.spec_queue(), gen.spec_smallest()),
            decreases frontier_weight(gen.frontier@),
        {
            let ghost prev = gen;
            proof {
                assert(start.rounds(n + 1) == step(prev.spec_queue(), prev.spec_smallest(), gen.target, gen.trim_larger, gen.allow_fractions));
            }
            if gen.update_frontier() {
                if let Some(j) = gen.smallest_match() {
                    if gen.frontier[j].path.should_replace(&gen.smallest) {
                        let smallest = gen.frontier[j].path.duplicate();
                        let ghost trail = gen.frontier@[j as int].trail@;
                        proof {
                            assert(gen.entry_ok(gen.frontier@[j as int]));
                        }
                        gen.retain_better(&smallest);
                        gen.smallest = Some(smallest);
                        gen.smallest_trail = Ghost(trail);
                    }
                }
            }
            proof {
                n = n + 1;
            }
        }
        proof {
            assert(start.rounds(n).0.len() == 0 && start.rounds(n).1 == gen.smallest);
            if gen.smallest is Some {
                assert(gen.walk_from_root(gen.smallest_trail@) == gen.smallest);
                assert(start.walk_from_root(gen.smallest_trail@) == gen.smallest);
                lemma_walk_facts::<P>(gen.negative, gen.smallest_trail@, gen.target, gen.trim_larger, gen.allow_fractions);
            }
        }
        gen.smallest
    }

    /// The index of the first frontier entry of smallest quasi-area among those whose
    /// value is the target's; `None` when no entry has it.
    fn smallest_match(&self) -> (r: Option<usize>)
        ensures
            r matches Some(j) ==> {
                &&& j < self.frontier@.len()
                &&& self.frontier@[j as int].path.spec_value().spec_same_value(self.target)
                &&& forall|k: int|
                    0 <= k < self.frontier@.len() && (#[trigger] self.frontier@[k]).path.spec_value().spec_same_value(self.target)
                        ==> self.frontier@[j as int].path.spec_quasi_area() <= self.frontier@[k].path.spec_quasi_area()
            },
            r is None ==> forall|k: int|
                0 <= k < self.frontier@.len() ==> !(#[trigger] self.frontier@[k]).path.spec_value().spec_same_value(self.target),
            (match r {
                Some(j) => Some(j as int),
                None => None,
            }) == first_match_from(queue_view(self.frontier@), self.target, None, 0),
    {
        let ghost q = queue_view(self.frontier@);
        let mut found: Option<usize> = None;
        let mut area: u64 = 0;
        let mut i: usize = 0;
        while i < self.frontier.len()
            invariant
                i <= self.frontier@.len(),
                found matches Some(j) ==> {
                    &&& j < i
                    &&& self.frontier@[j as int].path.spec_value().spec_same_value(self.target)
                    &&& area == self.frontier@[j as int].path.spec_quasi_area()
                    &&& forall|k: int|
                        0 <= k < i && (#[trigger] self.frontier@[k]).path.spec_value().spec_same_value(self.target)
                            ==> area <= self.frontier@[k].path.spec_quasi_area()
                },
                found is None ==> forall|k: int|
                    0 <= k < i ==> !(#[trigger] self.frontier@[k]).path.spec_value().spec_same_value(self.target),
                q == queue_view(self.frontier@),
                first_match_from(q, self.target, match found {
                    Some(j) => Some(j as int),
                    None => None,
                }, i as int) == first_match_from(q, self.target, None, 0),
            decreases self.frontier@.len() - i,
        {
            let path = &self.frontier[i].path;
            if path.value().same_value(&self.target) {
                let a = path.quasi_area();
                match found {
                    None => {
                        found = Some(i);
                        area = a;
                    },
                    Some(_) => {
                        if a < area {
                            found = Some(i);
                            area = a;
                        }
                    },
                }
            }
            i = i + 1;
        }
        found
    }

    /// Keeps the frontier entries whose bounds are at least as good as those of `best`,
    /// in their order.
    fn retain_better(&mut self, best: &P)
        requires
            old(self).inv(),
        ensures
            final(self).inv(),
            final(self).same_params(old(self)),
            final(self).smallest == old(self).smallest,
            final(self).smallest_trail == old(self).smallest_trail,
            frontier_weight(final(self).frontier@) <= frontier_weight(old(self).frontier@),
            forall|i: int|
                0 <= i < final(self).frontier@.len() ==> (#[trigger] final(self).frontier@[i]).path.spec_better_bounds(best),
            queue_view(final(self).frontier@) == keep_better(queue_view(old(self).frontier@), *best),
    {
        let mut old_frontier = Vec::new();
        std::mem::swap(&mut old_frontier, &mut self.frontier);
        let ghost all = old_frontier@;
        let total: usize = old_frontier.len();
        let mut k: usize = 0;
        while old_frontier.len() > 0
            invariant
                k + old_frontier@.len() == total,
                total == all.len(),
                old_frontier@ == all.subrange(k as int, total as int),
                self.same_params(old(self)),
                self.smallest == old(self).smallest,
                self.smallest_trail == old(self).smallest_trail,
                forall|i: int| 0 <= i < all.len() ==> self.entry_ok(#[trigger] all[i]),
                forall|i: int| 0 <= i < self.frontier@.len() ==> self.entry_ok(#[trigger] self.frontier@[i]),
                forall|i: int|
                    0 <= i < self.frontier@.len() ==> (#[trigger] self.frontier@[i]).path.spec_better_bounds(best),
                frontier_weight(self.frontier@) <= frontier_weight(all.subrange(0, k as int)),
                queue_view(self.frontier@) == keep_better(queue_view(all.subrange(0, k as int)), *best),
            decreases old_frontier@.len(),
        {
            let ghost rest = old_frontier@;
            let q = old_frontier.remove(0);
            proof {
                assert(rest[0] == all[k as int]);
                assert(old_frontier@ =~= all.subrange(k + 1, total as int));
                assert(all.subrange(0, k + 1).drop_last() =~= all.subrange(0, k as int));
                assert(queue_view(all.subrange(0, k + 1)).drop_last() =~= queue_view(all.subrange(0, k as int)));
                assert(queue_view(all.subrange(0, k + 1)).last() == (q.path, q.priority));
            }
            if q.path.is_better_than(best) {
                let ghost before = self.frontier@;
                self.frontier.push(q);
                proof {
                    lemma_weight_push(before, q);
                    assert(queue_view(self.frontier@) =~= queue_view(before).push((q.path, q.priority)));
                    assert forall|i: int| 0 <= i < self.frontier@.len() implies self.entry_ok(#[trigger] self.frontier@[i]) && self.frontier@[i].path.spec_better_bounds(best) by {
                        if i < before.len() {
                            assert(self.frontier@[i] == before[i]);
                        }
                    }
                }
            }
            k = k + 1;
        }
        proof {
            assert(all.subrange(0, total as int) =~= all);
        }
    }

        /// The extensions of `path` by each direction that are legal, pass the filters and
    /// may still beat the best match; beside them, the direction each one took.
    fn next_paths(&self, path: &P, trail: Ghost<Seq<P::Direction>>) -> (r: (
        Vec<P>,
        Ghost<Seq<P::Direction>>,
    ))
        requires
            self.walk_from_root(trail@) == Some(*path),
        ensures
            r.0@.len() == r.1@.len(),
            r.0@.len() <= P::spec_directions().len(),
            forall|i: int|
                0 <= i < r.0@.len() ==> self.walk_from_root(#[trigger] trail@.push(r.1@[i]))
                    == Some(r.0@[i]),
            forall|i: int|
                0 <= i < r.0@.len() ==> (#[trigger] r.0@[i]).spec_should_replace(self.smallest),
            r.0@ == successors(*path, P::spec_directions(), self.target, self.trim_larger, self.allow_fractions, self.smallest),
    {
        let dirs = P::directions();
        let mut out: Vec<P> = Vec::new();
        let ghost mut used: Seq<P::Direction> = Seq::empty();
        let mut j: usize = 0;
        while j < dirs.len()
            invariant
                dirs@ == P::spec_directions(),
                j <= dirs@.len(),
                out@.len() == used.len(),
                out@.len() <= j,
                self.walk_from_root(trail@) == Some(*path),
                forall|i: int|
                    0 <= i < out@.len() ==> self.walk_from_root(#[trigger] trail@.push(used[i]))
                        == Some(out@[i]),
                forall|i: int|
                    0 <= i < out@.len() ==> (#[trigger] out@[i]).spec_should_replace(self.smallest),
                out@ == successors(*path, dirs@.take(j as int), self.target, self.trim_larger, self.allow_fractions, self.smallest),
            decreases dirs@.len() - j,
        {
            let d = &dirs[j];
            proof {
                lemma_walk_push(self.root(), trail@, *d, self.target, self.trim_larger, self.allow_fractions);
                assert(dirs@.take(j + 1).drop_last() =~= dirs@.take(j as int));
                assert(dirs@.take(j + 1).last() == *d);
            }
            if let Some(new_path) = path.with_angle(d) {
                proof {
                    lemma_walk_facts::<P>(self.negative, trail@, self.target, self.trim_larger, self.allow_fractions);
                    path.lemma_extend(*d);
                }
                let v = new_path.value();
                if (!self.trim_larger || v.le(&self.target)) && (self.allow_fractions || v.is_integer())
                    && new_path.should_replace(&self.smallest) {
                    out.push(new_path);
                    proof {
                        used = used.push(*d);
                    }
                }
            }
            j = j + 1;
        }
        proof {
            assert(dirs@.take(j as int) =~= dirs@);
        }
        (out, Ghost(used))
    }
}

/// A search never returns a path whose value is not the target's: where no walk from the
/// empty path under the filters reaches a path of the target's value, the result is absent.
pub proof fn lemma_unreachable_target_gives_none<P: LatticePath>(
    e: AStarPathGenerator<P>,
    r: Option<P>,
)
    requires
        e.is_run_outcome(r),
        forall|ds: Seq<P::Direction>|
            (#[trigger] e.walk_from_root(ds)) matches Some(p) ==> !p.spec_value().spec_same_value(
                e.spec_target(),
            ),
    ensures
        r is None,
{
    if r is Some {
        let p = r->Some_0;
        let ds = choose|ds: Seq<P::Direction>| e.walk_from_root(ds) == Some(p);
        assert(e.walk_from_root(ds) == Some(p));
    }
}

/// A search started with `new` is one for the target's magnitude and sign: what it returns
/// is an exact match for `target` under the given filters, and the empty path for zero.
pub proof fn lemma_outcome_for_target<P: LatticePath>(
    target: SignedRatio,
    trim_larger: bool,
    allow_fractions: bool,
    e: AStarPathGenerator<P>,
    r: Option<P>,
)
    requires
        target.wf(),
        e.is_started(target, trim_larger, allow_fractions),
        e.is_run_outcome(r),
    ensures
        is_search_outcome(r, target, trim_larger, allow_fractions),
{
    if r is Some {
        let p = r->Some_0;
        let ds = choose|ds: Seq<P::Direction>| e.walk_from_root(ds) == Some(p);
        assert(walk(P::spec_zero(target.spec_is_negative()), ds, target.spec_magnitude(), trim_larger, allow_fractions) == Some(p));
    }
}

/// Two searches for the same target under the same filters return the same result.
pub proof fn lemma_run_deterministic<P: LatticePath>(
    target: SignedRatio,
    trim_larger: bool,
    allow_fractions: bool,
    e1: AStarPathGenerator<P>,
    e2: AStarPathGenerator<P>,
    r1: Option<P>,
    r2: Option<P>,
)
    requires
        target.wf(),
        e1.is_started(target, trim_larger, allow_fractions),
        e2.is_started(target, trim_larger, allow_fractions),
        e1.is_run_outcome(r1),
        e2.is_run_outcome(r2),
    ensures
        r1 == r2,
{
    if !e1.spec_target().spec_is_zero() {
        assert(e1.spec_queue() =~= e2.spec_queue());
        let n1 = choose|n: nat| #[trigger] e1.rounds(n).0.len() == 0 && e1.rounds(n).1 == r1;
        let n2 = choose|n: nat| #[trigger] e2.rounds(n).0.len() == 0 && e2.rounds(n).1 == r2;
        if n1 <= n2 {
            lemma_iterate_settled(e1.spec_queue(), e1.spec_smallest(), e1.spec_target(),
                trim_larger, allow_fractions, n1, n2);
        } else {
            lemma_iterate_settled(e2.spec_queue(), e2.spec_smallest(), e2.spec_target(),
                trim_larger, allow_fractions, n2, n1);
        }
    }
}

/// Every prefix of a walk that reaches a path reaches a path too; under `trim_larger`
/// each path after a move is no larger than the target.
proof fn lemma_walk_prefix<P: LatticePath>(
    start: P,
    ds: Seq<P::Direction>,
    target: UnsignedRatio,
    trim_larger: bool,
    allow_fractions: bool,
    k: int,
)
    requires
        0 <= k <= ds.len(),
        walk(start, ds, target, trim_larger, allow_fractions) is Some,
    ensures
        walk(start, ds.take(k), target, trim_larger, allow_fractions) is Some,
        0 < k && trim_larger ==> walk(start, ds.take(k), target, trim_larger, allow_fractions)->Some_0.spec_value().spec_le(target),
    decreases ds.len(),
{
    if k < ds.len() {
        lemma_walk_prefix(start, ds.drop_last(), target, trim_larger, allow_fractions, k);
        assert(ds.drop_last().take(k) =~= ds.take(k));
    } else {
        assert(ds.take(k) =~= ds);
    }
}

/// With `trim_larger`, the path a search returns is reached by moves none of which goes
/// above the target: every path on the way has a value no larger than the target's.
pub proof fn lemma_trimmed_result_never_overshoots<P: LatticePath>(
    target: SignedRatio,
    allow_fractions: bool,
    e: AStarPathGenerator<P>,
    r: Option<P>,
)
    requires
        target.wf(),
        e.is_started(target, true, allow_fractions),
        e.is_run_outcome(r),
        r is Some,
    ensures
        exists|ds: Seq<P::Direction>|
            e.walk_from_root(ds) == r && forall|k: int|
                0 < k <= ds.len() ==> ((#[trigger] e.walk_from_root(ds.take(k))) matches Some(q)
                    && q.spec_value().spec_le(target.spec_magnitude())),
{
    let p = r->Some_0;
    let ds = choose|ds: Seq<P::Direction>| e.walk_from_root(ds) == Some(p);
    assert forall|k: int| 0 < k <= ds.len() implies ((#[trigger] e.walk_from_root(ds.take(k))) matches Some(q)
        && q.spec_value().spec_le(target.spec_magnitude())) by {
        lemma_walk_prefix(e.root(), ds, e.spec_target(), true, allow_fractions, k);
    }
}

} // verus!
