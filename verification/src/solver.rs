//! The enumeration engine: compatibility lists, relation index, shortcut
//! table, and the odometer driver that yields canonical combinations.
//!
//! A reservation with an empty compatibility list can never hold an
//! assignment: its digit wraps on every advance. The engine does not treat
//! such a reservation as emptying the whole search space up front; the
//! odometer's accept rule still emits combinations that leave it unassigned
//! while other digits advance. Only when every digit has wrapped does the
//! search report exhaustion.

use vstd::prelude::*;
use crate::inputs::{
    Reservation, Unit, sorted_reservations, sorted_units, sort_reservations, sort_units,
};
use crate::robin::RoundRobin;

verus! {

broadcast use vstd::seq_lib::lemma_seq_contains_after_push;

/// The compatibility list of reservation `r` over the unit arena `ys`: the
/// indices of every unit whose capacity covers `r`'s weight, ascending.
pub open spec fn links_of(r: Reservation, ys: Seq<Unit>) -> Seq<usize>
    decreases ys.len(),
{
    if ys.len() == 0 {
        Seq::empty()
    } else {
        links_of(r, ys.drop_last()) + (if r.spec_fits_in(ys.last()) {
            seq![(ys.len() - 1) as usize]
        } else {
            Seq::empty()
        })
    }
}

/// Every entry of a compatibility list is a fitting unit's index, and the
/// list is strictly increasing.
pub proof fn lemma_links_of_props(r: Reservation, ys: Seq<Unit>)
    requires
        ys.len() <= usize::MAX,
    ensures
        forall|p: int|
            0 <= p < links_of(r, ys).len() ==> (#[trigger] links_of(r, ys)[p]) < ys.len()
                && r.spec_fits_in(ys[links_of(r, ys)[p] as int]),
        forall|p: int, q: int|
            0 <= p < q < links_of(r, ys).len() ==> links_of(r, ys)[p] < links_of(r, ys)[q],
        forall|u: int|
            0 <= u < ys.len() && r.spec_fits_in(ys[u]) ==> links_of(r, ys).contains(u as usize),
    decreases ys.len(),
{
    if ys.len() > 0 {
        let prefix = links_of(r, ys.drop_last());
        lemma_links_of_props(r, ys.drop_last());
        assert forall|u: int|
            0 <= u < ys.len() && r.spec_fits_in(ys[u]) implies links_of(r, ys).contains(
            u as usize,
        ) by {
            if u < ys.len() - 1 {
                assert(ys.drop_last()[u] == ys[u]);
                assert(prefix.contains(u as usize));
                let w = choose|w: int| 0 <= w < prefix.len() && prefix[w] == u as usize;
                assert(links_of(r, ys)[w] == u as usize);
            } else {
                assert(ys[u] == ys.last());
                assert(links_of(r, ys)[prefix.len() as int] == u as usize);
            }
        }
        assert(forall|p: int|
            0 <= p < prefix.len() ==> ys.drop_last()[#[trigger] prefix[p] as int] == ys[prefix[p] as int]);
        if r.spec_fits_in(ys.last()) {
            assert(links_of(r, ys) == prefix + seq![(ys.len() - 1) as usize]);
            assert(forall|p: int| 0 <= p < prefix.len() ==> #[trigger] links_of(r, ys)[p] == prefix[p]);
            assert(links_of(r, ys)[prefix.len() as int] == (ys.len() - 1) as usize);
            assert(ys[ys.len() - 1] == ys.last());
        } else {
            assert(links_of(r, ys) =~= prefix);
        }
    }
}

/// The compatibility list depends on the reservation only through its
/// weight: reservations of equal weight get identical lists.
pub proof fn lemma_links_of_same_weight(r1: Reservation, r2: Reservation, ys: Seq<Unit>)
    requires
        r1.weight == r2.weight,
    ensures
        links_of(r1, ys) == links_of(r2, ys),
    decreases ys.len(),
{
    if ys.len() > 0 {
        lemma_links_of_same_weight(r1, r2, ys.drop_last());
    }
}

/// The compatibility lists and robins match the sorted inputs: one list
/// per reservation, each exactly `links_of`, each robin ranging over its
/// list's length.
pub open spec fn links_built_in(
    xs: Seq<Reservation>,
    ys: Seq<Unit>,
    y_links: Seq<Vec<usize>>,
    robins: Seq<RoundRobin>,
) -> bool {
    y_links.len() == xs.len() && robins.len() == xs.len() && (forall|i: int|
        0 <= i < xs.len() ==> (#[trigger] y_links[i])@ == links_of(xs[i], ys)) && (forall|i: int|
        0 <= i < xs.len() ==> (#[trigger] robins[i]).max == y_links[i]@.len())
}

/// Every robin's cursor is in range.
pub open spec fn cursors_wf_in(robins: Seq<RoundRobin>) -> bool {
    forall|i: int| 0 <= i < robins.len() ==> (#[trigger] robins[i]).wf()
}

/// Reservation `j > i` counts as interchangeable with `i`: literally
/// similar, or (a deliberately aggressive deduplication heuristic) merely
/// overlapping while holding an identical compatibility list.
pub open spec fn sim_pred_in(
    xs: Seq<Reservation>,
    y_links: Seq<Vec<usize>>,
    i: int,
    j: int,
) -> bool {
    xs[j].spec_similar(xs[i]) || (xs[j].spec_overlaps(xs[i]) && y_links[i]@ == y_links[j]@)
}

pub open spec fn ovl_pred_in(xs: Seq<Reservation>, i: int, j: int) -> bool {
    xs[j].spec_overlaps(xs[i])
}

/// A forward reference list for position `i`: strictly increasing entries,
/// all strictly between `i` and `n`.
pub open spec fn fwd_list_wf(list: Seq<usize>, i: int, n: int) -> bool {
    (forall|k: int| 0 <= k < list.len() ==> i < #[trigger] list[k] < n) && (forall|
        k1: int,
        k2: int,
    |
        0 <= k1 < k2 < list.len() ==> list[k1] < list[k2])
}

/// The relation index holds, per reservation, the exact ascending sets of
/// forward interchangeable and forward overlapping reservations.
pub open spec fn relations_built_in(
    xs: Seq<Reservation>,
    y_links: Seq<Vec<usize>>,
    similar: Seq<Vec<usize>>,
    overlapping: Seq<Vec<usize>>,
) -> bool {
    similar.len() == xs.len() && overlapping.len() == xs.len() && (forall|i: int|
        0 <= i < xs.len() ==> fwd_list_wf((#[trigger] similar[i])@, i, xs.len() as int)) && (
    forall|i: int|
        0 <= i < xs.len() ==> fwd_list_wf((#[trigger] overlapping[i])@, i, xs.len() as int)) && (
    forall|i: int, j: int|
        0 <= i < j < xs.len() ==> (similar[i]@.contains(j as usize)
            <==> #[trigger] sim_pred_in(xs, y_links, i, j))) && (forall|i: int, j: int|
        0 <= i < j < xs.len() ==> (overlapping[i]@.contains(j as usize)
            <==> #[trigger] ovl_pred_in(xs, i, j)))
}

/// Positions `p` and `p + 1` of the compatibility list `links` hold
/// interchangeable units of the arena `ys`.
pub open spec fn simpair_in(ys: Seq<Unit>, links: Seq<usize>, p: int) -> bool {
    p + 1 < links.len() && ys[links[p] as int].spec_similar(ys[links[p + 1] as int])
}

/// The exact shape of one shortcut entry, as the backward scan leaves it:
/// a position not opening an interchangeable pair carries no entry; inside
/// a run of interchangeable units, the entry jumps to the first position
/// past the run, or to unset when the run reaches the list's end.
pub open spec fn shortcut_entry_ok_in(
    ys: Seq<Unit>,
    links: Seq<usize>,
    entry: Option<Option<usize>>,
    p: int,
) -> bool {
    if !simpair_in(ys, links, p) {
        entry is None
    } else {
        match entry {
            None => false,
            Some(t) => match t {
                None => forall|j: int| p < j < links.len() - 1 ==> #[trigger] simpair_in(
                    ys,
                    links,
                    j,
                ),
                Some(k) => p + 2 <= k <= links.len() - 1 && !simpair_in(ys, links, k - 1) && (
                forall|j: int| p < j < k - 1 ==> #[trigger] simpair_in(ys, links, j)),
            },
        }
    }
}

pub open spec fn shortcuts_built_in(
    ys: Seq<Unit>,
    y_links: Seq<Vec<usize>>,
    shortcuts: Seq<Vec<Option<Option<usize>>>>,
) -> bool {
    shortcuts.len() == y_links.len() && (forall|i: int|
        0 <= i < y_links.len() ==> (#[trigger] shortcuts[i])@.len() == y_links[i]@.len()) && (
    forall|i: int, p: int|
        0 <= i < y_links.len() && 0 <= p < y_links[i]@.len() ==> #[trigger] shortcut_entry_ok_in(
            ys,
            y_links[i]@,
            shortcuts[i]@[p],
            p,
        ))
}

/// The enumeration engine. `xs` and `ys` are the sorted inputs; `y_links`,
/// `robins`, `similar`, `overlapping` and `shortcuts` are built once by
/// `init`; after that only the robins' cursors and `cursor` move.
pub struct Solver2 {
    pub xs: Vec<Reservation>,
    pub ys: Vec<Unit>,
    pub cursor: usize,
    pub max: usize,
    pub y_links: Vec<Vec<usize>>,
    pub robins: Vec<RoundRobin>,
    pub similar: Vec<Vec<usize>>,
    pub overlapping: Vec<Vec<usize>>,
    pub shortcuts: Vec<Vec<Option<Option<usize>>>>,
}

impl Solver2 {
    pub open spec fn n(self) -> int {
        self.xs@.len() as int
    }

    pub open spec fn m(self) -> int {
        self.ys@.len() as int
    }

    pub open spec fn links(self, i: int) -> Seq<usize> {
        self.y_links@[i]@
    }

    pub open spec fn digit_at(self, i: int) -> Option<usize> {
        self.robins@[i].cursor
    }

    /// Holds from construction on: sizes agree and both inputs are sorted
    /// under the global orders.
    pub open spec fn base_wf(self) -> bool {
        self.max == self.xs@.len() && sorted_reservations(self.xs@) && sorted_units(self.ys@)
    }

    pub open spec fn links_built(self) -> bool {
        links_built_in(self.xs@, self.ys@, self.y_links@, self.robins@)
    }

    pub open spec fn robins_wf(self) -> bool {
        cursors_wf_in(self.robins@)
    }

    pub open spec fn sim_pred(self, i: int, j: int) -> bool {
        sim_pred_in(self.xs@, self.y_links@, i, j)
    }

    pub open spec fn ovl_pred(self, i: int, j: int) -> bool {
        ovl_pred_in(self.xs@, i, j)
    }

    pub open spec fn relations_built(self) -> bool {
        relations_built_in(self.xs@, self.y_links@, self.similar@, self.overlapping@)
    }

    pub open spec fn simpair(self, i: int, p: int) -> bool {
        simpair_in(self.ys@, self.links(i), p)
    }

    pub open spec fn shortcuts_built(self) -> bool {
        shortcuts_built_in(self.ys@, self.y_links@, self.shortcuts@)
    }

    /// Everything `init` establishes; required by every later operation.
    pub open spec fn inited(self) -> bool {
        self.base_wf() && self.links_built() && self.robins_wf() && self.relations_built()
            && self.shortcuts_built()
    }

    /// The parts that never move after `init`: everything but the robins'
    /// cursors and the digit cursor.
    pub open spec fn statics_eq(s1: Solver2, s2: Solver2) -> bool {
        s2.xs == s1.xs && s2.ys == s1.ys && s2.y_links == s1.y_links && s2.similar == s1.similar
            && s2.overlapping == s1.overlapping && s2.shortcuts == s1.shortcuts && s2.max == s1.max
            && s2.robins@.len() == s1.robins@.len() && (forall|i: int|
            0 <= i < s1.robins@.len() ==> (#[trigger] s2.robins@[i]).max == s1.robins@[i].max)
    }

    /// Every robin below `c` is unset.
    pub open spec fn digits_none_below(self, c: int) -> bool {
        forall|j: int| 0 <= j < c ==> (#[trigger] self.robins@[j]).cursor is None
    }

    /// The unit arena index reservation `i` currently holds, resolved
    /// through its compatibility list.
    pub open spec fn unit_of(self, i: int) -> Option<usize> {
        match self.robins@[i].cursor {
            Some(p) => Some(self.links(i)[p as int]),
            None => None,
        }
    }

    /// No two assigned, overlapping reservations at or above `lo` hold the
    /// same unit.
    pub open spec fn conflict_ok_from(self, lo: int) -> bool {
        forall|i: int, j: int|
            #![trigger self.unit_of(i), self.unit_of(j)]
            lo <= i < j < self.n() && self.ovl_pred(i, j) ==> !(self.digit_at(i) is Some
                && self.digit_at(j) is Some && self.unit_of(i) == self.unit_of(j))
    }

    /// Every assigned interchangeable pair at or above `lo` sits in strictly
    /// descending list positions: the later reservation strictly lower.
    pub open spec fn sym_ok_from(self, lo: int) -> bool {
        forall|i: int, j: int|
            #![trigger self.digit_at(i), self.digit_at(j)]
            lo <= i < j < self.n() && self.sim_pred(i, j) ==> match (
                self.digit_at(i),
                self.digit_at(j),
            ) {
                (Some(p), Some(q)) => q < p,
                _ => true,
            }
    }

    /// A state the odometer may emit: both pruning rules hold over every
    /// pair of reservations.
    pub open spec fn accepted(self) -> bool {
        self.conflict_ok_from(0) && self.sym_ok_from(0)
    }

    /// A digit the advancement can reach: unset, the first list position,
    /// or a position whose left neighbour holds a different capacity. The
    /// shortcut table never parks a cursor in the interior of a run of
    /// interchangeable units.
    pub open spec fn run_canonical_at(self, i: int) -> bool {
        match self.digit_at(i) {
            Some(p) => p == 0 || !self.simpair(i, p as int - 1),
            None => true,
        }
    }

    pub open spec fn run_canonical_from(self, lo: int) -> bool {
        forall|i: int| lo <= i < self.n() ==> #[trigger] self.run_canonical_at(i)
    }

    /// One digit's radix: its list length plus one for the unset state.
    pub open spec fn radix(self, i: int) -> int {
        self.links(i).len() as int + 1
    }

    /// The mixed-radix value of the digits at `i` and above, least
    /// significant digit first; the odometer's progress measure.
    pub open spec fn ov(self, i: int) -> int
        decreases self.n() - i,
    {
        if i < 0 || i >= self.n() {
            0
        } else {
            self.robins@[i].digit() + self.radix(i) * self.ov(i + 1)
        }
    }

    /// Product of the radixes at `i` and above: the strict bound on `ov(i)`.
    pub open spec fn prodr(self, i: int) -> int
        decreases self.n() - i,
    {
        if i < 0 || i >= self.n() {
            1
        } else {
            self.radix(i) * self.prodr(i + 1)
        }
    }

    /// Product of the radixes strictly below `c`.
    pub open spec fn prodlow(self, c: int) -> int
        decreases c,
    {
        if c <= 0 {
            1
        } else {
            self.prodlow(c - 1) * self.radix(c - 1)
        }
    }

    pub proof fn lemma_prodlow_pos(self, c: int)
        ensures
            self.prodlow(c) >= 1,
        decreases c,
    {
        if c > 0 {
            self.lemma_prodlow_pos(c - 1);
            assert(self.prodlow(c - 1) * self.radix(c - 1) >= 1) by (nonlinear_arith)
                requires
                    self.prodlow(c - 1) >= 1,
                    self.radix(c - 1) >= 1,
            ;
        }
    }

    pub proof fn lemma_ov_bounds(self, i: int)
        requires
            self.links_built(),
            self.robins_wf(),
        ensures
            0 <= self.ov(i),
            self.ov(i) < self.prodr(i),
        decreases self.n() - i,
    {
        if i < 0 || i >= self.n() {
        } else {
            self.lemma_ov_bounds(i + 1);
            let d = self.robins@[i].digit();
            let r = self.radix(i);
            assert(self.robins@[i].max == self.y_links@[i]@.len());
            assert(0 <= d <= r - 1);
            assert(0 <= r * self.ov(i + 1) && d + r * self.ov(i + 1) < r * self.prodr(i + 1))
                by (nonlinear_arith)
                requires
                    0 <= d <= r - 1,
                    r >= 1,
                    0 <= self.ov(i + 1),
                    self.ov(i + 1) < self.prodr(i + 1),
            ;
        }
    }

    /// With every digit below `c` unset, the whole value factors through
    /// the low radix product.
    pub proof fn lemma_ov_split(self, c: int)
        requires
            0 <= c <= self.n(),
            self.digits_none_below(c),
        ensures
            self.ov(0) == self.prodlow(c) * self.ov(c),
        decreases c,
    {
        if c == 0 {
        } else {
            self.lemma_ov_split(c - 1);
            assert(self.robins@[c - 1].cursor is None);
            assert(self.ov(c - 1) == self.radix(c - 1) * self.ov(c));
            assert(self.prodlow(c - 1) * (self.radix(c - 1) * self.ov(c)) == (self.prodlow(c - 1)
                * self.radix(c - 1)) * self.ov(c)) by (nonlinear_arith);
        }
    }

    /// Digit-for-digit equal suffixes of statically equal engines have
    /// equal values.
    pub proof fn lemma_ov_congruence(s1: Solver2, s2: Solver2, i: int)
        requires
            Solver2::statics_eq(s1, s2),
            s1.xs == s2.xs,
            s1.y_links == s2.y_links,
            forall|j: int| i <= j < s1.n() ==> s1.robins@[j].cursor == s2.robins@[j].cursor,
        ensures
            s1.ov(i) == s2.ov(i),
        decreases s1.n() - i,
    {
        if i < 0 || i >= s1.n() {
        } else {
            Self::lemma_ov_congruence(s1, s2, i + 1);
        }
    }

    pub proof fn lemma_prodr_congruence(s1: Solver2, s2: Solver2, i: int)
        requires
            s1.xs@.len() == s2.xs@.len(),
            s1.y_links == s2.y_links,
        ensures
            s1.prodr(i) == s2.prodr(i),
        decreases s1.n() - i,
    {
        if !(i < 0 || i >= s1.n()) {
            Self::lemma_prodr_congruence(s1, s2, i + 1);
        }
    }

    pub proof fn lemma_prodlow_congruence(s1: Solver2, s2: Solver2, c: int)
        requires
            s1.xs@.len() == s2.xs@.len(),
            s1.y_links == s2.y_links,
        ensures
            s1.prodlow(c) == s2.prodlow(c),
        decreases c,
    {
        if c > 0 {
            Self::lemma_prodlow_congruence(s1, s2, c - 1);
        }
    }

    /// Constructs the engine: sorts both inputs under the global orders and
    /// leaves every derived structure empty for `init` to build.
    pub fn new(xs: Vec<Reservation>, ys: Vec<Unit>) -> (s: Solver2)
        ensures
            s.base_wf(),
            s.xs@.to_multiset() == xs@.to_multiset(),
            s.ys@.to_multiset() == ys@.to_multiset(),
            s.cursor == 0,
            s.max == s.xs@.len(),
            s.y_links@.len() == 0,
            s.robins@.len() == 0,
            s.similar@.len() == 0,
            s.overlapping@.len() == 0,
            s.shortcuts@.len() == 0,
    {
        let sorted_xs = sort_reservations(xs);
        let sorted_ys = sort_units(ys);
        let max = sorted_xs.len();
        Solver2 {
            xs: sorted_xs,
            ys: sorted_ys,
            cursor: 0,
            max,
            y_links: Vec::new(),
            robins: Vec::new(),
            similar: Vec::new(),
            overlapping: Vec::new(),
            shortcuts: Vec::new(),
        }
    }

    /// Builds every compatibility list in reservation order, and one robin
    /// per reservation, parked unset, over that list's length.
    pub fn fill_links_and_robins(&mut self)
        requires
            old(self).base_wf(),
            old(self).y_links@.len() == 0,
            old(self).robins@.len() == 0,
        ensures
            final(self).base_wf(),
            final(self).links_built(),
            final(self).robins_wf(),
            forall|i: int|
                0 <= i < final(self).robins@.len() ==> (#[trigger] final(self).robins@[i]).cursor
                    is None,
            final(self).xs == old(self).xs,
            final(self).ys == old(self).ys,
            final(self).cursor == old(self).cursor,
            final(self).max == old(self).max,
            final(self).similar == old(self).similar,
            final(self).overlapping == old(self).overlapping,
            final(self).shortcuts == old(self).shortcuts,
    {
        let n = self.xs.len();
        let mut i: usize = 0;
        while i < n
            invariant
                n == self.xs@.len(),
                i <= n,
                self.base_wf(),
                self.y_links@.len() == i,
                self.robins@.len() == i,
                forall|t: int|
                    0 <= t < i ==> (#[trigger] self.y_links@[t])@ == links_of(
                        self.xs@[t],
                        self.ys@,
                    ),
                forall|t: int|
                    0 <= t < i ==> (#[trigger] self.robins@[t]).max == self.y_links@[t]@.len(),
                forall|t: int| 0 <= t < i ==> (#[trigger] self.robins@[t]).cursor is None,
                self.xs == old(self).xs,
                self.ys == old(self).ys,
                self.cursor == old(self).cursor,
                self.max == old(self).max,
                self.similar == old(self).similar,
                self.overlapping == old(self).overlapping,
                self.shortcuts == old(self).shortcuts,
            decreases n - i,
        {
            let mut links: Vec<usize> = Vec::new();
            let mut u: usize = 0;
            let m = self.ys.len();
            while u < m
                invariant
                    m == self.ys@.len(),
                    u <= m,
                    i < self.xs@.len(),
                    links@ == links_of(self.xs@[i as int], self.ys@.take(u as int)),
                decreases m - u,
            {
                if self.xs[i].fits_in(&self.ys[u]) {
                    links.push(u);
                }
                proof {
                    assert(self.ys@.take(u + 1).drop_last() =~= self.ys@.take(u as int));
                    assert(self.ys@.take(u + 1).last() == self.ys@[u as int]);
                }
                u += 1;
            }
            proof {
                assert(self.ys@.take(m as int) =~= self.ys@);
            }
            self.robins.push(RoundRobin::new(links.len()));
            self.y_links.push(links);
            i += 1;
        }
    }

    /// True exactly when reservations `i` and `ii` have identical
    /// compatibility lists, element for element.
    pub fn both_robins_have_same_ys(&self, i: usize, ii: usize) -> (r: bool)
        requires
            i < self.y_links@.len(),
            ii < self.y_links@.len(),
        ensures
            r == (self.y_links@[i as int]@ == self.y_links@[ii as int]@),
    {
        let a = &self.y_links[i];
        let b = &self.y_links[ii];
        if a.len() != b.len() {
            return false;
        }
        let mut k: usize = 0;
        while k < a.len()
            invariant
                k <= a@.len(),
                a@.len() == b@.len(),
                a == self.y_links@[i as int],
                b == self.y_links@[ii as int],
                forall|t: int| 0 <= t < k ==> a@[t] == b@[t],
            decreases a@.len() - k,
        {
            if a[k] != b[k] {
                return false;
            }
            k += 1;
        }
        proof {
            assert(a@ =~= b@);
        }
        true
    }

    /// Builds the relation index: for every reservation, the ascending list
    /// of later reservations that count as interchangeable with it, and the
    /// ascending list of later reservations whose windows overlap its own.
    pub fn fill_similar_and_overlapping_xs(&mut self)
        requires
            old(self).base_wf(),
            old(self).links_built(),
            old(self).similar@.len() == 0,
            old(self).overlapping@.len() == 0,
        ensures
            final(self).relations_built(),
            final(self).xs == old(self).xs,
            final(self).ys == old(self).ys,
            final(self).cursor == old(self).cursor,
            final(self).max == old(self).max,
            final(self).y_links == old(self).y_links,
            final(self).robins == old(self).robins,
            final(self).shortcuts == old(self).shortcuts,
    {
        let n = self.xs.len();
        let mut i: usize = 0;
        while i < n
            invariant
                n == self.xs@.len(),
                i <= n,
                self.base_wf(),
                self.links_built(),
                self.similar@.len() == i,
                self.overlapping@.len() == i,
                forall|t: int|
                    0 <= t < i ==> fwd_list_wf((#[trigger] self.similar@[t])@, t, n as int),
                forall|t: int|
                    0 <= t < i ==> fwd_list_wf((#[trigger] self.overlapping@[t])@, t, n as int),
                forall|t: int, j: int|
                    0 <= t < i && t < j < n ==> (self.similar@[t]@.contains(j as usize)
                        <==> #[trigger] sim_pred_in(self.xs@, self.y_links@, t, j)),
                forall|t: int, j: int|
                    0 <= t < i && t < j < n ==> (self.overlapping@[t]@.contains(j as usize)
                        <==> #[trigger] ovl_pred_in(self.xs@, t, j)),
                self.xs == old(self).xs,
                self.ys == old(self).ys,
                self.cursor == old(self).cursor,
                self.max == old(self).max,
                self.y_links == old(self).y_links,
                self.robins == old(self).robins,
                self.shortcuts == old(self).shortcuts,
            decreases n - i,
        {
            let mut similar_to_this_x: Vec<usize> = Vec::new();
            let mut overlapping_this_x: Vec<usize> = Vec::new();
            let mut ii: usize = i + 1;
            while ii < n
                invariant
                    n == self.xs@.len(),
                    i < n,
                    i < ii <= n,
                    self.y_links@.len() == n,
                    fwd_list_wf(similar_to_this_x@, i as int, ii as int),
                    fwd_list_wf(overlapping_this_x@, i as int, ii as int),
                    forall|j: int|
                        i < j < ii ==> (similar_to_this_x@.contains(j as usize)
                            <==> #[trigger] sim_pred_in(self.xs@, self.y_links@, i as int, j)),
                    forall|j: int|
                        i < j < ii ==> (overlapping_this_x@.contains(j as usize)
                            <==> #[trigger] ovl_pred_in(self.xs@, i as int, j)),
                decreases n - ii,
            {
                let is_similar = self.xs[ii].similar(&self.xs[i]) || (self.xs[ii].overlaps(
                    &self.xs[i],
                ) && self.both_robins_have_same_ys(i, ii));
                if is_similar {
                    similar_to_this_x.push(ii);
                }
                if self.xs[ii].overlaps(&self.xs[i]) {
                    overlapping_this_x.push(ii);
                }
                ii += 1;
            }
            self.similar.push(similar_to_this_x);
            self.overlapping.push(overlapping_this_x);
            i += 1;
        }
    }

    /// Builds the shortcut table: one entry per compatibility-list
    /// position, by a backward scan that propagates the first position past
    /// each run of interchangeable units.
    pub fn fill_similar_ys_shortcuts(&mut self)
        requires
            old(self).base_wf(),
            old(self).links_built(),
            old(self).shortcuts@.len() == 0,
        ensures
            final(self).shortcuts_built(),
            final(self).xs == old(self).xs,
            final(self).ys == old(self).ys,
            final(self).cursor == old(self).cursor,
            final(self).max == old(self).max,
            final(self).y_links == old(self).y_links,
            final(self).robins == old(self).robins,
            final(self).similar == old(self).similar,
            final(self).overlapping == old(self).overlapping,
    {
        let n = self.xs.len();
        let mut i: usize = 0;
        while i < n
            invariant
                n == self.xs@.len(),
                i <= n,
                self.base_wf(),
                self.links_built(),
                self.shortcuts@.len() == i,
                forall|t: int|
                    0 <= t < i ==> (#[trigger] self.shortcuts@[t])@.len()
                        == self.y_links@[t]@.len(),
                forall|t: int, p: int|
                    0 <= t < i && 0 <= p < self.y_links@[t]@.len()
                        ==> #[trigger] shortcut_entry_ok_in(
                        self.ys@,
                        self.y_links@[t]@,
                        self.shortcuts@[t]@[p],
                        p,
                    ),
                self.xs == old(self).xs,
                self.ys == old(self).ys,
                self.cursor == old(self).cursor,
                self.max == old(self).max,
                self.y_links == old(self).y_links,
                self.robins == old(self).robins,
                self.similar == old(self).similar,
                self.overlapping == old(self).overlapping,
            decreases n - i,
        {
            let len = self.y_links[i].len();
            let m = self.ys.len();
            proof {
                assert(self.ys@.len() == m);
                lemma_links_of_props(self.xs@[i as int], self.ys@);
            }
            let mut xith_shortcuts: Vec<Option<Option<usize>>> = Vec::new();
            let mut t: usize = 0;
            while t < len
                invariant
                    t <= len,
                    xith_shortcuts@.len() == t,
                    forall|q: int| 0 <= q < t ==> #[trigger] xith_shortcuts@[q] is None,
                decreases len - t,
            {
                xith_shortcuts.push(None);
                t += 1;
            }
            if len > 0 {
                let ghost lks = self.y_links@[i as int]@;
                let mut last_not_same_i: Option<usize> = None;
                let mut p: usize = len - 1;
                while p > 0
                    invariant
                        n == self.xs@.len(),
                        i < n,
                        self.y_links@.len() == n,
                        lks == self.y_links@[i as int]@,
                        len == lks.len(),
                        p < len,
                        xith_shortcuts@.len() == len,
                        forall|q: int|
                            0 <= q < len ==> (#[trigger] lks[q] as int) < self.ys@.len(),
                        forall|q: int| 0 <= q < p ==> #[trigger] xith_shortcuts@[q] is None,
                        forall|q: int|
                            p <= q < len ==> #[trigger] shortcut_entry_ok_in(
                                self.ys@,
                                lks,
                                xith_shortcuts@[q],
                                q,
                            ),
                        match last_not_same_i {
                            None => forall|j: int|
                                p <= j < len - 1 ==> #[trigger] simpair_in(self.ys@, lks, j),
                            Some(k) => p + 1 <= k <= len - 1 && !simpair_in(self.ys@, lks, k - 1)
                                && (forall|j: int|
                                p <= j < k - 1 ==> #[trigger] simpair_in(self.ys@, lks, j)),
                        },
                    decreases p,
                {
                    p -= 1;
                    let ya = self.y_links[i][p];
                    let yb = self.y_links[i][p + 1];
                    if self.ys[ya].similar(&self.ys[yb]) {
                        xith_shortcuts.set(p, Some(last_not_same_i));
                        proof {
                            assert(simpair_in(self.ys@, lks, p as int));
                        }
                    } else {
                        last_not_same_i = Some(p + 1);
                        proof {
                            assert(!simpair_in(self.ys@, lks, p as int));
                        }
                    }
                }
            }
            self.shortcuts.push(xith_shortcuts);
            i += 1;
        }
    }

    /// Builds every derived structure; must run exactly once, before any
    /// stepping.
    pub fn init(&mut self)
        requires
            old(self).base_wf(),
            old(self).y_links@.len() == 0,
            old(self).robins@.len() == 0,
            old(self).similar@.len() == 0,
            old(self).overlapping@.len() == 0,
            old(self).shortcuts@.len() == 0,
        ensures
            final(self).inited(),
            forall|i: int|
                0 <= i < final(self).robins@.len() ==> (#[trigger] final(self).robins@[i]).cursor
                    is None,
            final(self).xs == old(self).xs,
            final(self).ys == old(self).ys,
            final(self).cursor == old(self).cursor,
            final(self).max == old(self).max,
    {
        self.fill_links_and_robins();
        self.fill_similar_and_overlapping_xs();
        self.fill_similar_ys_shortcuts();
    }

    /// Conflict rule: true exactly when some later overlapping reservation
    /// currently holds the same unit as the reservation under the cursor.
    pub fn further_overlapping_have_same(&self) -> (r: bool)
        requires
            self.inited(),
            (self.cursor as int) < self.n(),
        ensures
            r ==> exists|j: int|
                #![trigger self.digit_at(j)]
                (self.cursor as int) < j < self.n() && self.ovl_pred(self.cursor as int, j)
                    && self.digit_at(self.cursor as int) is Some && self.digit_at(j) is Some
                    && self.unit_of(self.cursor as int) == self.unit_of(j),
            !r ==> forall|j: int|
                #![trigger self.digit_at(j)]
                (self.cursor as int) < j < self.n() && self.ovl_pred(self.cursor as int, j)
                    && self.digit_at(self.cursor as int) is Some && self.digit_at(j) is Some
                    ==> self.unit_of(self.cursor as int) != self.unit_of(j),
    {
        let c = self.cursor;
        let ghost ci = c as int;
        let current_state_at_x = self.robins[c].state();
        match current_state_at_x {
            Some(cur_p) => {
                proof {
                    assert(self.robins@[ci].wf());
                    assert(self.robins@[ci].max == self.y_links@[ci]@.len());
                }
                let cur_unit = self.y_links[c][cur_p];
                let mut k: usize = 0;
                let len = self.overlapping[c].len();
                while k < len
                    invariant
                        self.inited(),
                        c == self.cursor,
                        ci == c as int,
                        ci < self.n(),
                        len == self.overlapping@[ci]@.len(),
                        k <= len,
                        self.digit_at(ci) == Some(cur_p),
                        self.unit_of(ci) == Some(cur_unit),
                        forall|t: int|
                            0 <= t < k ==> !((#[trigger] self.digit_at(
                                self.overlapping@[ci]@[t] as int,
                            )) is Some && self.unit_of(ci) == self.unit_of(
                                self.overlapping@[ci]@[t] as int,
                            )),
                    decreases len - k,
                {
                    let j = self.overlapping[c][k];
                    proof {
                        assert(fwd_list_wf(self.overlapping@[ci]@, ci, self.n()));
                        assert(ci < self.overlapping@[ci]@[k as int] < self.n());
                        assert(self.robins@[j as int].wf());
                        assert(self.robins@[j as int].max == self.y_links@[j as int]@.len());
                    }
                    match self.robins[j].state() {
                        Some(q) => {
                            let ju = self.y_links[j][q];
                            if cur_unit == ju {
                                proof {
                                    assert(self.ovl_pred(ci, j as int)) by {
                                        assert(self.overlapping@[ci]@.contains(j));
                                    }
                                    assert((self.cursor as int) < (j as int) < self.n()
                                        && self.ovl_pred(self.cursor as int, j as int)
                                        && self.digit_at(self.cursor as int) is Some
                                        && (#[trigger] self.digit_at(j as int)) is Some
                                        && self.unit_of(self.cursor as int) == self.unit_of(
                                        j as int,
                                    ));
                                }
                                return true;
                            }
                        },
                        None => {},
                    }
                    k += 1;
                }
                proof {
                    assert forall|j: int|
                        ci < j < self.n() && self.ovl_pred(ci, j) && self.digit_at(ci) is Some
                            && (#[trigger] self.digit_at(j)) is Some implies self.unit_of(ci)
                        != self.unit_of(j) by {
                        assert(self.overlapping@[ci]@.contains(j as usize));
                        let t = choose|t: int|
                            0 <= t < self.overlapping@[ci]@.len() && self.overlapping@[ci]@[t] == j
                                as usize;
                        assert(!(self.digit_at(self.overlapping@[ci]@[t] as int) is Some
                            && self.unit_of(ci) == self.unit_of(
                            self.overlapping@[ci]@[t] as int,
                        )));
                    }
                }
                false
            },
            None => {
                false
            },
        }
    }

    /// Symmetry rule: true exactly when some later interchangeable
    /// reservation currently sits at a list position at or above the one
    /// held by the reservation under the cursor.
    pub fn any_further_similar_xs_state_is_higher_than_current(&self) -> (r: bool)
        requires
            self.inited(),
            (self.cursor as int) < self.n(),
        ensures
            r ==> exists|j: int|
                #![trigger self.digit_at(j)]
                (self.cursor as int) < j < self.n() && self.sim_pred(self.cursor as int, j)
                    && (match (self.digit_at(self.cursor as int), self.digit_at(j)) {
                    (Some(p), Some(q)) => q >= p,
                    _ => false,
                }),
            !r ==> forall|j: int|
                #![trigger self.digit_at(j)]
                (self.cursor as int) < j < self.n() && self.sim_pred(self.cursor as int, j)
                    ==> (match (self.digit_at(self.cursor as int), self.digit_at(j)) {
                    (Some(p), Some(q)) => q < p,
                    _ => true,
                }),
    {
        let c = self.cursor;
        let ghost ci = c as int;
        let current_state_at_x = self.robins[c].state();
        match current_state_at_x {
            Some(cur_p) => {
                let mut k: usize = 0;
                let len = self.similar[c].len();
                while k < len
                    invariant
                        self.inited(),
                        c == self.cursor,
                        ci == c as int,
                        ci < self.n(),
                        len == self.similar@[ci]@.len(),
                        k <= len,
                        self.digit_at(ci) == Some(cur_p),
                        forall|t: int|
                            0 <= t < k ==> (match (#[trigger] self.digit_at(
                                self.similar@[ci]@[t] as int,
                            )) {
                                Some(q) => q < cur_p,
                                None => true,
                            }),
                    decreases len - k,
                {
                    let j = self.similar[c][k];
                    proof {
                        assert(fwd_list_wf(self.similar@[ci]@, ci, self.n()));
                        assert(ci < self.similar@[ci]@[k as int] < self.n());
                    }
                    match self.robins[j].state() {
                        Some(q) => {
                            if q >= cur_p {
                                proof {
                                    assert(self.sim_pred(ci, j as int)) by {
                                        assert(self.similar@[ci]@.contains(j));
                                    }
                                    assert((self.cursor as int) < (j as int) < self.n()
                                        && self.sim_pred(self.cursor as int, j as int) && (match (
                                        self.digit_at(self.cursor as int),
                                        #[trigger] self.digit_at(j as int),
                                    ) {
                                        (Some(p2), Some(q2)) => q2 >= p2,
                                        _ => false,
                                    }));
                                }
                                return true;
                            }
                        },
                        None => {},
                    }
                    k += 1;
                }
                proof {
                    assert forall|j: int|
                        ci < j < self.n() && self.sim_pred(ci, j) implies (match (
                        self.digit_at(ci),
                        #[trigger] self.digit_at(j),
                    ) {
                        (Some(p), Some(q)) => q < p,
                        _ => true,
                    }) by {
                        assert(self.similar@[ci]@.contains(j as usize));
                        let t = choose|t: int|
                            0 <= t < self.similar@[ci]@.len() && self.similar@[ci]@[t] == j
                                as usize;
                        assert(match self.digit_at(self.similar@[ci]@[t] as int) {
                            Some(q) => q < cur_p,
                            None => true,
                        });
                    }
                }
                false
            },
            None => {
                false
            },
        }
    }

    /// Both pruning predicates carry over between engines that agree on the
    /// inputs and on every digit at or above `lo`.
    pub proof fn lemma_rules_transfer(s1: Solver2, s2: Solver2, lo: int)
        requires
            s1.xs == s2.xs,
            s1.ys == s2.ys,
            s1.y_links == s2.y_links,
            s1.robins@.len() == s2.robins@.len(),
            forall|t: int| lo <= t < s1.n() ==> s1.robins@[t].cursor == s2.robins@[t].cursor,
            s1.conflict_ok_from(lo),
            s1.sym_ok_from(lo),
            s1.run_canonical_from(lo),
        ensures
            s2.conflict_ok_from(lo),
            s2.sym_ok_from(lo),
            s2.run_canonical_from(lo),
    {
        assert forall|i: int| lo <= i < s2.n() implies #[trigger] s2.run_canonical_at(i) by {
            assert(s1.run_canonical_at(i));
            assert(s1.digit_at(i) == s2.digit_at(i));
            assert(s1.links(i) == s2.links(i));
        }
        assert forall|i: int, j: int|
            #![trigger s2.unit_of(i), s2.unit_of(j)]
            lo <= i < j < s2.n() && s2.ovl_pred(i, j) implies !(s2.digit_at(i) is Some
            && s2.digit_at(j) is Some && s2.unit_of(i) == s2.unit_of(j)) by {
            assert(s1.unit_of(i) == s2.unit_of(i));
            assert(s1.unit_of(j) == s2.unit_of(j));
            assert(s1.digit_at(i) == s2.digit_at(i));
            assert(s1.digit_at(j) == s2.digit_at(j));
            assert(s1.ovl_pred(i, j) == s2.ovl_pred(i, j));
        }
        assert forall|i: int, j: int|
            #![trigger s2.digit_at(i), s2.digit_at(j)]
            lo <= i < j < s2.n() && s2.sim_pred(i, j) implies (match (
            s2.digit_at(i),
            s2.digit_at(j),
        ) {
            (Some(p), Some(q)) => q < p,
            _ => true,
        }) by {
            assert(s1.digit_at(i) == s2.digit_at(i));
            assert(s1.digit_at(j) == s2.digit_at(j));
            assert(s1.sim_pred(i, j) == s2.sim_pred(i, j));
        }
    }

    /// Both pruning predicates are antitone in their lower bound.
    pub proof fn lemma_rules_mono(self, lo1: int, lo2: int)
        requires
            lo1 <= lo2,
            self.conflict_ok_from(lo1),
            self.sym_ok_from(lo1),
            self.run_canonical_from(lo1),
        ensures
            self.conflict_ok_from(lo2),
            self.sym_ok_from(lo2),
            self.run_canonical_from(lo2),
    {
    }

    /// Advances the digit under the cursor by one move: through its
    /// shortcut entry when one is present at its position, else one plain
    /// turn. Returns the carry.
    pub fn next(&mut self) -> (turned: bool)
        requires
            old(self).inited(),
            (old(self).cursor as int) < old(self).n(),
        ensures
            final(self).inited(),
            Solver2::statics_eq(*old(self), *final(self)),
            final(self).xs == old(self).xs,
            final(self).ys == old(self).ys,
            final(self).y_links == old(self).y_links,
            final(self).similar == old(self).similar,
            final(self).overlapping == old(self).overlapping,
            final(self).shortcuts == old(self).shortcuts,
            final(self).max == old(self).max,
            final(self).cursor == old(self).cursor,
            final(self).robins@.len() == old(self).robins@.len(),
            forall|t: int|
                0 <= t < old(self).robins@.len() && t != old(self).cursor as int
                    ==> final(self).robins@[t] == old(self).robins@[t],
            ({
                let c = old(self).cursor as int;
                let r_old = old(self).robins@[c];
                let r_new = final(self).robins@[c];
                r_new.max == r_old.max && (match r_old.cursor {
                    None => r_new.cursor == (if r_old.max > 0 {
                        Some(0usize)
                    } else {
                        None
                    }),
                    Some(p) => (match old(self).shortcuts@[c]@[p as int] {
                        Some(t) => r_new.cursor == (match t {
                            Some(k) => if (k as int) < r_old.max as int {
                                Some(k)
                            } else {
                                None
                            },
                            None => None::<usize>,
                        }),
                        None => r_new.cursor == (if p + 1 < r_old.max {
                            Some((p + 1) as usize)
                        } else {
                            None
                        }),
                    }),
                })
            }),
            turned == (final(self).digit_at(old(self).cursor as int) is None),
            !turned ==> final(self).robins@[old(self).cursor as int].digit() > old(
                self,
            ).robins@[old(self).cursor as int].digit(),
    {
        let c = self.cursor;
        let ghost ci = c as int;
        let ghost pre = *self;
        proof {
            assert(self.robins@[ci].wf());
            assert(self.robins@[ci].max == self.y_links@[ci]@.len());
            assert((#[trigger] self.shortcuts@[ci])@.len() == self.y_links@[ci]@.len());
        }
        let robin_s_state = self.robins[c].state();
        let mut r = self.robins[c];
        let turned = match robin_s_state {
            Some(p) => {
                proof {
                    assert(shortcut_entry_ok_in(
                        self.ys@,
                        self.y_links@[ci]@,
                        self.shortcuts@[ci]@[p as int],
                        p as int,
                    ));
                }
                let possible_shortcut = self.shortcuts[c][p];
                match possible_shortcut {
                    Some(possible) => r.jump(possible),
                    None => r.next(),
                }
            },
            None => r.next(),
        };
        self.robins.set(c, r);
        proof {
            assert(self.robins@ == pre.robins@.update(ci, r));
            assert forall|t: int| 0 <= t < self.robins@.len() implies (#[trigger] self.robins@[t]).wf()
                && self.robins@[t].max == self.y_links@[t]@.len() by {
                if t != ci {
                    assert(self.robins@[t] == pre.robins@[t]);
                }
            }
            assert(links_built_in(self.xs@, self.ys@, self.y_links@, self.robins@));
        }
        turned
    }

    /// A good combination at or past the advance threshold of digit `ci`
    /// stays at or past the position the advance reaches: the positions a
    /// shortcut skips are run interiors, which no run-canonical combination
    /// occupies.
    pub proof fn lemma_gap_advance(pre: Solver2, cur: Solver2, ci: int, cmb: Seq<Option<usize>>)
        requires
            pre.inited(),
            cur.inited(),
            Solver2::statics_eq(pre, cur),
            0 <= ci < pre.n(),
            forall|t: int| 0 <= t < pre.n() && t != ci ==> cur.robins@[t] == pre.robins@[t],
            ({
                let d_new = cur.robins@[ci].digit();
                let d_old = pre.robins@[ci].digit();
                d_new == d_old + 1 || (match pre.robins@[ci].cursor {
                    Some(p0) => (match pre.shortcuts@[ci]@[p0 as int] {
                        Some(t) => (match t {
                            Some(k) => d_new == k + 1,
                            None => false,
                        }),
                        None => false,
                    }),
                    None => false,
                })
            }),
            combo_good_in(pre.xs@, pre.ys@, pre.y_links@, cmb),
            combo_value_in(pre.y_links@, cmb, 0) >= pre.prodlow(ci) * (pre.ov(ci) + 1),
        ensures
            combo_value_in(pre.y_links@, cmb, 0) >= cur.prodlow(ci) * cur.ov(ci),
    {
        Self::lemma_prodlow_congruence(pre, cur, ci);
        Self::lemma_ov_congruence(pre, cur, ci + 1);
        let p_low = pre.prodlow(ci);
        let r = pre.radix(ci);
        let v = pre.ov(ci + 1);
        let dvo = pre.robins@[ci].digit();
        let dvn = cur.robins@[ci].digit();
        pre.lemma_prodlow_pos(ci);
        pre.lemma_ov_bounds(ci + 1);
        assert(cur.radix(ci) == r);
        assert(cur.ov(ci + 1) == v);
        assert(cur.ov(ci) == dvn + r * v);
        assert(pre.ov(ci) == dvo + r * v);
        let cv = combo_value_in(pre.y_links@, cmb, 0);
        if cv < cur.prodlow(ci) * cur.ov(ci) {
            if dvn == dvo + 1 {
                assert(pre.ov(ci) + 1 == cur.ov(ci));
                assert(false);
            } else {
                match pre.robins@[ci].cursor {
                    Some(p0) => {
                        match pre.shortcuts@[ci]@[p0 as int] {
                            Some(t) => {
                                match t {
                                    Some(k) => {
                                        assert(pre.robins@[ci].wf());
                                        assert(pre.robins@[ci].max == pre.y_links@[ci]@.len());
                                        assert((#[trigger] pre.shortcuts@[ci])@.len()
                                            == pre.y_links@[ci]@.len());
                                        assert(shortcut_entry_ok_in(
                                            pre.ys@,
                                            pre.y_links@[ci]@,
                                            pre.shortcuts@[ci]@[p0 as int],
                                            p0 as int,
                                        ));
                                        Self::lemma_gap_interior(
                                            pre,
                                            cmb,
                                            ci,
                                            p0 as int,
                                            k as int,
                                            cur.ov(ci),
                                        );
                                    },
                                    None => {
                                        assert(false);
                                    },
                                }
                            },
                            None => {
                                assert(false);
                            },
                        }
                    },
                    None => {
                        assert(false);
                    },
                }
            }
        }
    }

    /// The shared interior argument: a good combination cannot place digit
    /// `ci` on any position strictly inside the run that starts at `p0`,
    /// so its value avoids the whole skipped band.
    pub proof fn lemma_gap_interior(pre: Solver2, cmb: Seq<Option<usize>>, ci: int, p0: int, k: int, hi: int)
        requires
            pre.inited(),
            0 <= ci < pre.n(),
            pre.robins@[ci].cursor == Some(p0 as usize),
            0 <= p0,
            p0 + 2 <= k <= pre.y_links@[ci]@.len(),
            simpair_in(pre.ys@, pre.y_links@[ci]@, p0),
            forall|j: int| p0 < j < k - 1 ==> #[trigger] simpair_in(pre.ys@, pre.y_links@[ci]@, j),
            hi <= k + 1 + pre.radix(ci) * pre.ov(ci + 1),
            combo_good_in(pre.xs@, pre.ys@, pre.y_links@, cmb),
            combo_value_in(pre.y_links@, cmb, 0) >= pre.prodlow(ci) * (pre.ov(ci) + 1),
        ensures
            combo_value_in(pre.y_links@, cmb, 0) >= pre.prodlow(ci) * hi,
    {
        if combo_value_in(pre.y_links@, cmb, 0) < pre.prodlow(ci) * hi {
        vstd::std_specs::vec::axiom_spec_len(&pre.ys);
        let p_low = pre.prodlow(ci);
        let r = pre.radix(ci);
        let v = pre.ov(ci + 1);
        let dvo = pre.robins@[ci].digit();
        pre.lemma_prodlow_pos(ci);
        pre.lemma_ov_bounds(ci + 1);
        assert(pre.robins@[ci].wf());
        assert(pre.robins@[ci].max == pre.y_links@[ci]@.len());
        assert(dvo == p0 + 1);
        pre.lemma_cv_split(cmb, ci);
        pre.lemma_cv_bounds(cmb, ci);
        pre.lemma_cv_bounds(cmb, ci + 1);
        let cv = combo_value_in(pre.y_links@, cmb, 0);
        let lv = pre.combo_lowvalue(cmb, ci);
        let cvc = combo_value_in(pre.y_links@, cmb, ci);
        let dcm = combo_digit_in(pre.y_links@, cmb, ci);
        let w = combo_value_in(pre.y_links@, cmb, ci + 1);
        assert(cvc == dcm + r * w);
        assert(cvc >= pre.ov(ci) + 1) by (nonlinear_arith)
            requires
                cv == lv + p_low * cvc,
                0 <= lv < p_low,
                cv >= p_low * (pre.ov(ci) + 1),
                p_low >= 1,
        ;
        assert(cvc < hi) by (nonlinear_arith)
            requires
                cv == lv + p_low * cvc,
                0 <= lv,
                cv < p_low * hi,
                p_low >= 1,
        ;
        lemma_digit_range(dcm, w, r, dvo + 1, k + 1, v);
        let pt = dcm - 1;
        assert(p0 + 1 <= pt < k);
        match cmb[ci] {
            Some(u) => {
                assert(pre.links(ci) == links_of(pre.xs@[ci], pre.ys@));
                lemma_links_of_props(pre.xs@[ci], pre.ys@);
                assert((u as int) < pre.m() && pre.xs@[ci].spec_fits_in(pre.ys@[u as int]));
                assert(pre.links(ci).contains(u));
                lemma_pos_in(pre.links(ci), u);
                assert(pos_in(pre.y_links@[ci]@, u) == pt);
                assert(simpair_in(pre.ys@, pre.y_links@[ci]@, pt - 1));
                let pw = choose|p: int|
                    0 <= p < pre.y_links@[ci]@.len() && pre.y_links@[ci]@[p] == u && (p == 0
                        || !simpair_in(pre.ys@, pre.y_links@[ci]@, p - 1));
                assert(exists|p: int|
                    0 <= p < pre.y_links@[ci]@.len() && (#[trigger] pre.y_links@[ci]@[p]) == u && (
                    p == 0 || !simpair_in(pre.ys@, pre.y_links@[ci]@, p - 1)));
                assert(pw == pt);
                assert(false);
            },
            None => {
                assert(dcm == 0);
                assert(false);
            },
        }
        }
    }

    /// A good combination at or past the advance threshold of a wrapping
    /// digit lies at or past the carry threshold of the next digit: the
    /// positions a wrap passes over are run interiors or empty.
    pub proof fn lemma_gap_wrap(pre: Solver2, cur: Solver2, ci: int, cmb: Seq<Option<usize>>)
        requires
            pre.inited(),
            cur.inited(),
            Solver2::statics_eq(pre, cur),
            0 <= ci < pre.n(),
            forall|t: int| 0 <= t < pre.n() && t != ci ==> cur.robins@[t] == pre.robins@[t],
            cur.robins@[ci].cursor is None,
            ({
                match pre.robins@[ci].cursor {
                    None => pre.robins@[ci].max == 0,
                    Some(p0) => (match pre.shortcuts@[ci]@[p0 as int] {
                        Some(t) => t is None,
                        None => p0 + 1 >= pre.robins@[ci].max,
                    }),
                }
            }),
            combo_good_in(pre.xs@, pre.ys@, pre.y_links@, cmb),
            combo_value_in(pre.y_links@, cmb, 0) >= pre.prodlow(ci) * (pre.ov(ci) + 1),
        ensures
            combo_value_in(pre.y_links@, cmb, 0) >= cur.prodlow(ci + 1) * (cur.ov(ci + 1) + 1),
    {
        Self::lemma_prodlow_congruence(pre, cur, ci);
        Self::lemma_prodlow_congruence(pre, cur, ci + 1);
        Self::lemma_ov_congruence(pre, cur, ci + 1);
        let p_low = pre.prodlow(ci);
        let r = pre.radix(ci);
        let v = pre.ov(ci + 1);
        let dvo = pre.robins@[ci].digit();
        pre.lemma_prodlow_pos(ci);
        pre.lemma_ov_bounds(ci + 1);
        assert(pre.robins@[ci].wf());
        assert(pre.robins@[ci].max == pre.y_links@[ci]@.len());
        assert(pre.ov(ci) == dvo + r * v);
        assert(cur.prodlow(ci + 1) == p_low * r);
        assert(cur.ov(ci + 1) == v);
        let cv = combo_value_in(pre.y_links@, cmb, 0);
        if dvo >= r - 1 {
            assert(pre.ov(ci) + 1 >= r * (v + 1)) by (nonlinear_arith)
                requires
                    pre.ov(ci) == dvo + r * v,
                    dvo >= r - 1,
            ;
            assert(p_low * (pre.ov(ci) + 1) >= p_low * (r * (v + 1))) by (nonlinear_arith)
                requires
                    p_low >= 1,
                    pre.ov(ci) + 1 >= r * (v + 1),
            ;
            assert(p_low * (r * (v + 1)) == (p_low * r) * (v + 1)) by (nonlinear_arith);
        } else {
            match pre.robins@[ci].cursor {
                None => {
                    assert(r == 1);
                    assert(false);
                },
                Some(p0) => {
                    match pre.shortcuts@[ci]@[p0 as int] {
                        Some(t) => {
                            assert((#[trigger] pre.shortcuts@[ci])@.len()
                                == pre.y_links@[ci]@.len());
                            assert(shortcut_entry_ok_in(
                                pre.ys@,
                                pre.y_links@[ci]@,
                                pre.shortcuts@[ci]@[p0 as int],
                                p0 as int,
                            ));
                            let len = pre.y_links@[ci]@.len() as int;
                            assert(simpair_in(pre.ys@, pre.y_links@[ci]@, p0 as int));
                            assert(r * (v + 1) == r * v + r) by (nonlinear_arith);
                            Self::lemma_gap_interior(pre, cmb, ci, p0 as int, len, r * (v + 1));
                            assert(p_low * (r * (v + 1)) == (p_low * r) * (v + 1))
                                by (nonlinear_arith);
                        },
                        None => {
                            assert(false);
                        },
                    }
                },
            }
        }
    }

    /// A good combination at or past a state both pruning rules reject
    /// clears that state's whole low band: sharing the state's suffix would
    /// share its rule violation.
    pub proof fn lemma_gap_rules(cur: Solver2, ci: int, cmb: Seq<Option<usize>>)
        requires
            cur.inited(),
            0 <= ci < cur.n(),
            (exists|j: int|
                #![trigger cur.digit_at(j)]
                ci < j < cur.n() && cur.ovl_pred(ci, j) && cur.digit_at(ci) is Some
                    && cur.digit_at(j) is Some && cur.unit_of(ci) == cur.unit_of(j)) || (exists|
                j: int,
            |
                #![trigger cur.digit_at(j)]
                ci < j < cur.n() && cur.sim_pred(ci, j) && (match (
                    cur.digit_at(ci),
                    cur.digit_at(j),
                ) {
                    (Some(p), Some(q)) => q >= p,
                    _ => false,
                })),
            combo_good_in(cur.xs@, cur.ys@, cur.y_links@, cmb),
            combo_value_in(cur.y_links@, cmb, 0) >= cur.prodlow(ci) * cur.ov(ci),
        ensures
            combo_value_in(cur.y_links@, cmb, 0) >= cur.prodlow(ci) * (cur.ov(ci) + 1),
    {
        vstd::std_specs::vec::axiom_spec_len(&cur.ys);
        if combo_value_in(cur.y_links@, cmb, 0) < cur.prodlow(ci) * (cur.ov(ci) + 1) {
            let p_low = cur.prodlow(ci);
            cur.lemma_prodlow_pos(ci);
            cur.lemma_cv_split(cmb, ci);
            let cv = combo_value_in(cur.y_links@, cmb, 0);
            let lv = cur.combo_lowvalue(cmb, ci);
            let cvc = combo_value_in(cur.y_links@, cmb, ci);
            assert(cvc >= cur.ov(ci)) by (nonlinear_arith)
                requires
                    cv == lv + p_low * cvc,
                    0 <= lv < p_low,
                    cv >= p_low * cur.ov(ci),
                    p_low >= 1,
            ;
            assert(cvc <= cur.ov(ci)) by (nonlinear_arith)
                requires
                    cv == lv + p_low * cvc,
                    0 <= lv,
                    cv < p_low * (cur.ov(ci) + 1),
                    p_low >= 1,
            ;
            cur.lemma_value_determines_suffix(cmb, ci);
            if exists|j: int|
                #![trigger cur.digit_at(j)]
                ci < j < cur.n() && cur.ovl_pred(ci, j) && cur.digit_at(ci) is Some
                    && cur.digit_at(j) is Some && cur.unit_of(ci) == cur.unit_of(j) {
                let j = choose|j: int|
                    #![trigger cur.digit_at(j)]
                    ci < j < cur.n() && cur.ovl_pred(ci, j) && cur.digit_at(ci) is Some
                        && cur.digit_at(j) is Some && cur.unit_of(ci) == cur.unit_of(j);
                assert(cmb[ci] == cur.unit_of(ci));
                assert(cmb[j] == cur.unit_of(j));
                assert(!(cmb[ci] is Some && cmb[j] is Some && cmb[ci] == cmb[j]));
                assert(false);
            } else {
                let j = choose|j: int|
                    #![trigger cur.digit_at(j)]
                    ci < j < cur.n() && cur.sim_pred(ci, j) && (match (
                        cur.digit_at(ci),
                        cur.digit_at(j),
                    ) {
                        (Some(p), Some(q)) => q >= p,
                        _ => false,
                    });
                assert(cmb[ci] == cur.unit_of(ci));
                assert(cmb[j] == cur.unit_of(j));
                cur.lemma_sim_same_links(ci, j);
                assert(cur.links(ci) == links_of(cur.xs@[ci], cur.ys@));
                lemma_links_of_props(cur.xs@[ci], cur.ys@);
                match (cur.robins@[ci].cursor, cur.robins@[j].cursor) {
                    (Some(p), Some(q)) => {
                        assert(cur.robins@[ci].wf());
                        assert(cur.robins@[j].wf());
                        assert(cur.robins@[ci].max == cur.y_links@[ci]@.len());
                        assert(cur.robins@[j].max == cur.y_links@[j]@.len());
                        if (q as int) > (p as int) {
                            assert(cur.links(ci)[p as int] < cur.links(ci)[q as int]);
                        }
                        assert(match (cmb[ci], cmb[j]) {
                            (Some(a), Some(b)) => (b as int) < a as int,
                            _ => true,
                        });
                        assert(false);
                    },
                    _ => {
                        assert(false);
                    },
                }
            }
        }
    }

    /// One odometer move: propagates carries, applies the conflict and
    /// symmetry rules, and either parks on the next combination it accepts
    /// (returning false, with the cursor reset) or reports the search space
    /// exhausted (returning true, every robin back to unset). The accepted
    /// state satisfies both rules over all pairs, advances exactly one
    /// digit past its prior value with every lower digit unset and every
    /// higher digit kept, and is the least lawful combination strictly
    /// beyond the state stepped from; true comes back only when no lawful
    /// combination lies beyond it at all.
    pub fn step(&mut self) -> (done: bool)
        requires
            old(self).inited(),
            old(self).cursor == 0,
            old(self).conflict_ok_from(1),
            old(self).sym_ok_from(1),
            old(self).run_canonical_from(1),
        ensures
            final(self).inited(),
            Solver2::statics_eq(*old(self), *final(self)),
            final(self).xs == old(self).xs,
            final(self).ys == old(self).ys,
            final(self).y_links == old(self).y_links,
            final(self).similar == old(self).similar,
            final(self).overlapping == old(self).overlapping,
            final(self).shortcuts == old(self).shortcuts,
            final(self).max == old(self).max,
            final(self).run_canonical_from(0),
            !done ==> final(self).cursor == 0 && final(self).accepted() && final(self).ov(0) > old(
                self,
            ).ov(0),
            done ==> (final(self).cursor as int) == final(self).n() && (forall|i: int|
                0 <= i < final(self).n() ==> (#[trigger] final(self).robins@[i]).cursor is None),
            !done ==> forall|cmb: Seq<Option<usize>>|
                #![trigger combo_good_in(old(self).xs@, old(self).ys@, old(self).y_links@, cmb)]
                combo_good_in(old(self).xs@, old(self).ys@, old(self).y_links@, cmb)
                    && combo_value_in(old(self).y_links@, cmb, 0) > old(self).ov(0)
                    ==> combo_value_in(old(self).y_links@, cmb, 0) >= final(self).ov(0),
            !done ==> exists|c: int|
                #![trigger final(self).digit_at(c)]
                0 <= c < final(self).n() && (forall|j: int|
                    0 <= j < c ==> (#[trigger] final(self).robins@[j]).cursor is None)
                    && final(self).digit_at(c) is Some && final(self).robins@[c].digit() > old(
                    self,
                ).robins@[c].digit() && (forall|j: int|
                    c < j < final(self).n() ==> final(self).robins@[j] == old(self).robins@[j]),
            done ==> forall|cmb: Seq<Option<usize>>|
                #![trigger combo_good_in(old(self).xs@, old(self).ys@, old(self).y_links@, cmb)]
                combo_good_in(old(self).xs@, old(self).ys@, old(self).y_links@, cmb)
                    ==> combo_value_in(old(self).y_links@, cmb, 0) <= old(self).ov(0),
    {
        let ghost s0 = *self;
        let n_total = self.robins.len();
        if n_total == 0 {
            proof {
                assert forall|cmb: Seq<Option<usize>>|
                    combo_good_in(s0.xs@, s0.ys@, s0.y_links@, cmb) implies combo_value_in(
                    s0.y_links@,
                    cmb,
                    0,
                ) <= s0.ov(0) by {
                    assert(s0.y_links@.len() == 0);
                    assert(combo_value_in(s0.y_links@, cmb, 0) == 0);
                    assert(s0.ov(0) == 0);
                }
            }
            return true;
        }
        proof {
            self.lemma_ov_bounds(0);
        }
        let ghost mut n_begin: int = 0;
        loop
            invariant
                self.inited(),
                s0 == *old(self),
                s0.inited(),
                self.xs == s0.xs,
                self.ys == s0.ys,
                self.y_links == s0.y_links,
                self.similar == s0.similar,
                self.overlapping == s0.overlapping,
                self.shortcuts == s0.shortcuts,
                self.max == s0.max,
                Solver2::statics_eq(s0, *self),
                n_total == self.robins@.len(),
                self.n() > 0,
                (self.cursor as int) < self.n(),
                self.digits_none_below(self.cursor as int),
                self.conflict_ok_from(self.cursor as int + 1),
                self.sym_ok_from(self.cursor as int + 1),
                self.run_canonical_from(self.cursor as int + 1),
                self.ov(0) >= s0.ov(0),
                self.ov(0) < self.prodr(0),
                forall|j: int|
                    (self.cursor as int) < j < self.n() ==> #[trigger] self.robins@[j]
                        == s0.robins@[j],
                self.robins@[self.cursor as int].digit() >= s0.robins@[self.cursor as int].digit(),
                forall|cmb: Seq<Option<usize>>|
                    #![trigger combo_good_in(s0.xs@, s0.ys@, s0.y_links@, cmb)]
                    combo_good_in(s0.xs@, s0.ys@, s0.y_links@, cmb) && combo_value_in(
                        s0.y_links@,
                        cmb,
                        0,
                    ) > s0.ov(0) ==> combo_value_in(s0.y_links@, cmb, 0) >= self.prodlow(
                        self.cursor as int,
                    ) * (self.ov(self.cursor as int) + 1),
            decreases self.prodr(0) - self.ov(0),
        {
            let ghost head = *self;
            proof {
                n_begin = self.ov(0);
                let ci = self.cursor as int;
                self.lemma_ov_split(ci);
                self.lemma_prodlow_pos(ci);
                let pl = self.prodlow(ci);
                let o = self.ov(ci);
                assert(pl * (o + 1) == pl * o + pl) by (nonlinear_arith);
                assert(n_begin < self.prodlow(ci) * (self.ov(ci) + 1));
            }
            loop
                invariant_except_break
                    n_begin < self.prodlow(self.cursor as int) * (self.ov(self.cursor as int)
                        + 1),
                    forall|cmb: Seq<Option<usize>>|
                    #![trigger combo_good_in(s0.xs@, s0.ys@, s0.y_links@, cmb)]
                        combo_good_in(s0.xs@, s0.ys@, s0.y_links@, cmb) && combo_value_in(
                            s0.y_links@,
                            cmb,
                            0,
                        ) > s0.ov(0) ==> combo_value_in(s0.y_links@, cmb, 0) >= self.prodlow(
                            self.cursor as int,
                        ) * (self.ov(self.cursor as int) + 1),
                invariant
                    self.inited(),
                    s0 == *old(self),
                    s0.inited(),
                    self.xs == s0.xs,
                    self.ys == s0.ys,
                    self.y_links == s0.y_links,
                    self.similar == s0.similar,
                    self.overlapping == s0.overlapping,
                    self.shortcuts == s0.shortcuts,
                    self.max == s0.max,
                    Solver2::statics_eq(s0, *self),
                    n_total == self.robins@.len(),
                    self.n() > 0,
                    (self.cursor as int) < self.n(),
                    self.digits_none_below(self.cursor as int),
                    self.conflict_ok_from(self.cursor as int + 1),
                    self.sym_ok_from(self.cursor as int + 1),
                    self.run_canonical_from(self.cursor as int + 1),
                    n_begin >= s0.ov(0),
                    forall|j: int|
                        (self.cursor as int) < j < self.n() ==> #[trigger] self.robins@[j]
                            == s0.robins@[j],
                    self.robins@[self.cursor as int].digit() >= s0.robins@[self.cursor as int].digit(),
                    head.xs@.len() == self.xs@.len(),
                    head.y_links == self.y_links,
                    n_begin == head.ov(0),
                ensures
                    self.inited(),
                    s0 == *old(self),
                    self.xs == s0.xs,
                    self.ys == s0.ys,
                    self.y_links == s0.y_links,
                    self.similar == s0.similar,
                    self.overlapping == s0.overlapping,
                    self.shortcuts == s0.shortcuts,
                    self.max == s0.max,
                    Solver2::statics_eq(s0, *self),
                    n_total == self.robins@.len(),
                    (self.cursor as int) < self.n(),
                    self.digits_none_below(self.cursor as int),
                    self.conflict_ok_from(self.cursor as int + 1),
                    self.sym_ok_from(self.cursor as int + 1),
                    self.run_canonical_from(self.cursor as int + 1),
                    self.run_canonical_at(self.cursor as int),
                    self.digit_at(self.cursor as int) is Some,
                    forall|j: int|
                        (self.cursor as int) < j < self.n() ==> #[trigger] self.robins@[j]
                            == s0.robins@[j],
                    self.robins@[self.cursor as int].digit() > s0.robins@[self.cursor as int].digit(),
                    self.ov(0) > n_begin,
                    forall|cmb: Seq<Option<usize>>|
                        #![trigger combo_good_in(s0.xs@, s0.ys@, s0.y_links@, cmb)]
                        combo_good_in(s0.xs@, s0.ys@, s0.y_links@, cmb) && combo_value_in(
                            s0.y_links@,
                            cmb,
                            0,
                        ) > s0.ov(0) ==> combo_value_in(s0.y_links@, cmb, 0) >= self.ov(0),
                    self.ov(0) < self.prodr(0),
                    n_begin >= s0.ov(0),
                    head.xs@.len() == self.xs@.len(),
                    head.y_links == self.y_links,
                    n_begin == head.ov(0),
                decreases self.n() - self.cursor,
            {
                let ghost pre = *self;
                let turned = self.next();
                proof {
                    let ci = pre.cursor as int;
                    assert(self.cursor == pre.cursor);
                    Self::lemma_ov_congruence(pre, *self, ci + 1);
                    Self::lemma_prodlow_congruence(pre, *self, ci);
                    Self::lemma_prodlow_congruence(pre, *self, ci + 1);
                    Self::lemma_prodr_congruence(pre, *self, 0);
                    assert forall|j: int| 0 <= j < ci implies (#[trigger] self.robins@[j]).cursor
                        is None by {
                        assert(self.robins@[j] == pre.robins@[j]);
                        assert(pre.robins@[j].cursor is None);
                    }
                    Self::lemma_rules_transfer(pre, *self, ci + 1);
                }
                if !turned {
                    proof {
                        let ci = self.cursor as int;
                        assert(self.run_canonical_at(ci)) by {
                            match pre.robins@[ci].cursor {
                                Some(p) => {
                                    assert(pre.robins@[ci].wf());
                                    assert(pre.robins@[ci].max == pre.y_links@[ci]@.len());
                                    assert((#[trigger] pre.shortcuts@[ci])@.len()
                                        == pre.y_links@[ci]@.len());
                                    assert(shortcut_entry_ok_in(
                                        pre.ys@,
                                        pre.y_links@[ci]@,
                                        pre.shortcuts@[ci]@[p as int],
                                        p as int,
                                    ));
                                },
                                None => {},
                            }
                        }
                        assert(self.robins@[ci].digit() >= pre.robins@[ci].digit() + 1);
                        assert(self.ov(ci) == self.robins@[ci].digit() + self.radix(ci) * self.ov(
                            ci + 1,
                        ));
                        assert(pre.ov(ci) == pre.robins@[ci].digit() + pre.radix(ci) * pre.ov(
                            ci + 1,
                        ));
                        assert(self.radix(ci) == pre.radix(ci));
                        assert(self.ov(ci) >= pre.ov(ci) + 1);
                        let pl = self.prodlow(ci);
                        self.lemma_prodlow_pos(ci);
                        assert(pl * (pre.ov(ci) + 1) <= pl * self.ov(ci)) by (nonlinear_arith)
                            requires
                                pl >= 1,
                                pre.ov(ci) + 1 <= self.ov(ci),
                        ;
                        self.lemma_ov_split(ci);
                        assert(self.ov(0) > n_begin);
                        self.lemma_ov_bounds(0);
                        assert(({
                            let d_new = self.robins@[ci].digit();
                            let d_old = pre.robins@[ci].digit();
                            d_new == d_old + 1 || (match pre.robins@[ci].cursor {
                                Some(p0) => (match pre.shortcuts@[ci]@[p0 as int] {
                                    Some(t) => (match t {
                                        Some(k) => d_new == k + 1,
                                        None => false,
                                    }),
                                    None => false,
                                }),
                                None => false,
                            })
                        }));
                        assert forall|cmb: Seq<Option<usize>>|
                            combo_good_in(s0.xs@, s0.ys@, s0.y_links@, cmb) && combo_value_in(
                            s0.y_links@,
                            cmb,
                            0,
                        ) > s0.ov(0) implies combo_value_in(s0.y_links@, cmb, 0) >= self.ov(
                            0,
                        ) by {
                            Self::lemma_gap_advance(pre, *self, ci, cmb);
                        }
                    }
                    break;
                }
                proof {
                    let ci = self.cursor as int;
                    assert(self.robins@[ci].cursor is None);
                    assert(pre.robins@[ci].wf());
                    assert(pre.robins@[ci].max == pre.y_links@[ci]@.len());
                    let r = pre.radix(ci);
                    assert(pre.robins@[ci].digit() <= r - 1);
                    assert(pre.ov(ci) == pre.robins@[ci].digit() + r * pre.ov(ci + 1));
                    let pl = pre.prodlow(ci);
                    pre.lemma_prodlow_pos(ci);
                    pre.lemma_ov_bounds(ci + 1);
                    assert(pre.prodlow(ci + 1) == pl * r);
                    assert(pl * (pre.ov(ci) + 1) <= (pl * r) * (pre.ov(ci + 1) + 1))
                        by (nonlinear_arith)
                        requires
                            pl >= 1,
                            r >= 1,
                            pre.ov(ci) == pre.robins@[ci].digit() + r * pre.ov(ci + 1),
                            pre.robins@[ci].digit() <= r - 1,
                            pre.ov(ci + 1) >= 0,
                    ;
                    assert(n_begin < pre.prodlow(ci + 1) * (pre.ov(ci + 1) + 1));
                    assert(self.prodlow(ci + 1) == pre.prodlow(ci + 1));
                    assert(self.ov(ci + 1) == pre.ov(ci + 1));
                    assert forall|j: int| 0 <= j < ci + 1 implies (#[trigger] self.robins@[j]).cursor
                        is None by {
                        if j < ci {
                            assert(self.robins@[j] == pre.robins@[j]);
                        }
                    }
                    self.lemma_rules_mono(ci + 1, ci + 2);
                    assert((#[trigger] pre.shortcuts@[ci])@.len() == pre.y_links@[ci]@.len());
                    assert(({
                        match pre.robins@[ci].cursor {
                            None => pre.robins@[ci].max == 0,
                            Some(p0) => (match pre.shortcuts@[ci]@[p0 as int] {
                                Some(t) => t is None,
                                None => p0 + 1 >= pre.robins@[ci].max,
                            }),
                        }
                    })) by {
                        match pre.robins@[ci].cursor {
                            Some(p0) => {
                                assert(shortcut_entry_ok_in(
                                    pre.ys@,
                                    pre.y_links@[ci]@,
                                    pre.shortcuts@[ci]@[p0 as int],
                                    p0 as int,
                                ));
                            },
                            None => {},
                        }
                    }
                    assert forall|cmb: Seq<Option<usize>>|
                        combo_good_in(s0.xs@, s0.ys@, s0.y_links@, cmb) && combo_value_in(
                        s0.y_links@,
                        cmb,
                        0,
                    ) > s0.ov(0) implies combo_value_in(s0.y_links@, cmb, 0) >= self.prodlow(
                        ci + 1,
                    ) * (self.ov(ci + 1) + 1) by {
                        Self::lemma_gap_wrap(pre, *self, ci, cmb);
                    }
                }
                let ghost mid = *self;
                self.cursor = self.cursor + 1;
                proof {
                    let ci = mid.cursor as int;
                    Self::lemma_rules_transfer(mid, *self, ci + 2);
                    Self::lemma_prodlow_congruence(mid, *self, ci + 1);
                    Self::lemma_ov_congruence(mid, *self, ci + 1);
                }
                if self.cursor >= n_total {
                    proof {
                        assert((self.cursor as int) == self.n());
                        assert forall|i: int| 0 <= i < self.n() implies (#[trigger] self.robins@[i]).cursor
                            is None by {
                            assert(mid.robins@[i].cursor is None);
                        }
                        assert forall|i: int|
                            0 <= i < self.n() implies #[trigger] self.run_canonical_at(i) by {
                            assert(self.robins@[i].cursor is None);
                        }
                        self.lemma_prod_split(self.n());
                        assert(self.ov(self.n()) == 0);
                        assert forall|cmb: Seq<Option<usize>>|
                            combo_good_in(s0.xs@, s0.ys@, s0.y_links@, cmb) implies combo_value_in(
                            s0.y_links@,
                            cmb,
                            0,
                        ) <= s0.ov(0) by {
                            if combo_value_in(s0.y_links@, cmb, 0) > s0.ov(0) {
                                Self::lemma_prodlow_congruence(mid, *self, self.n());
                                Self::lemma_ov_congruence(mid, *self, self.n());
                                self.lemma_cv_bounds(cmb, 0);
                            }
                        }
                    }
                    return true;
                }
            }
            if self.further_overlapping_have_same() {
                proof {
                    self.lemma_ov_bounds(0);
                    Self::lemma_prodr_congruence(head, *self, 0);
                    let ci = self.cursor as int;
                    self.lemma_ov_split(ci);
                    assert forall|cmb: Seq<Option<usize>>|
                        combo_good_in(s0.xs@, s0.ys@, s0.y_links@, cmb) && combo_value_in(
                        s0.y_links@,
                        cmb,
                        0,
                    ) > s0.ov(0) implies combo_value_in(s0.y_links@, cmb, 0) >= self.prodlow(
                        ci,
                    ) * (self.ov(ci) + 1) by {
                        Self::lemma_gap_rules(*self, ci, cmb);
                    }
                }
                continue;
            }
            if self.any_further_similar_xs_state_is_higher_than_current() {
                proof {
                    self.lemma_ov_bounds(0);
                    Self::lemma_prodr_congruence(head, *self, 0);
                    let ci = self.cursor as int;
                    self.lemma_ov_split(ci);
                    assert forall|cmb: Seq<Option<usize>>|
                        combo_good_in(s0.xs@, s0.ys@, s0.y_links@, cmb) && combo_value_in(
                        s0.y_links@,
                        cmb,
                        0,
                    ) > s0.ov(0) implies combo_value_in(s0.y_links@, cmb, 0) >= self.prodlow(
                        ci,
                    ) * (self.ov(ci) + 1) by {
                        Self::lemma_gap_rules(*self, ci, cmb);
                    }
                }
                continue;
            }
            proof {
                let ci = self.cursor as int;
                assert forall|i: int, j: int|
                    #![trigger self.unit_of(i), self.unit_of(j)]
                    0 <= i < j < self.n() && self.ovl_pred(i, j) implies !(self.digit_at(i)
                    is Some && self.digit_at(j) is Some && self.unit_of(i) == self.unit_of(
                    j,
                )) by {
                    if i < ci {
                        assert(self.robins@[i].cursor is None);
                    }
                }
                assert forall|i: int, j: int|
                    #![trigger self.digit_at(i), self.digit_at(j)]
                    0 <= i < j < self.n() && self.sim_pred(i, j) implies (match (
                    self.digit_at(i),
                    self.digit_at(j),
                ) {
                    (Some(p), Some(q)) => q < p,
                    _ => true,
                }) by {
                    if i < ci {
                        assert(self.robins@[i].cursor is None);
                    }
                }
                assert(self.accepted());
                assert forall|i: int| 0 <= i < self.n() implies #[trigger] self.run_canonical_at(
                    i,
                ) by {
                    if i < ci {
                        assert(self.robins@[i].cursor is None);
                    }
                }
                assert(self.run_canonical_from(0));
            }
            let ghost fin0 = *self;
            self.cursor = 0;
            proof {
                Self::lemma_rules_transfer(fin0, *self, 0);
                Self::lemma_ov_congruence(fin0, *self, 0);
                assert(self.ov(0) > n_begin);
                let ci = fin0.cursor as int;
                assert(0 <= ci < self.n() && (forall|j: int|
                    0 <= j < ci ==> (#[trigger] self.robins@[j]).cursor is None)
                    && (#[trigger] self.digit_at(ci)) is Some && self.robins@[ci].digit()
                    > s0.robins@[ci].digit() && (forall|j: int|
                    ci < j < self.n() ==> self.robins@[j] == s0.robins@[j]));
            }
            return false;
        }
    }

    /// The current assignment snapshot as ghost data: per reservation, the
    /// held unit's arena index, or nothing when unassigned.
    pub open spec fn combination_view(self) -> Seq<Option<usize>> {
        Seq::new(self.n() as nat, |i: int| self.unit_of(i))
    }

    /// Reads the current assignment snapshot: per reservation, the held
    /// unit's arena index resolved through its compatibility list, or
    /// nothing when unassigned. Idempotent: no side effect, so the result
    /// is a pure function of the engine's state.
    pub fn current_combination(&self) -> (result: Vec<Option<usize>>)
        requires
            self.inited(),
        ensures
            result@ == self.combination_view(),
    {
        let n = self.robins.len();
        let mut result: Vec<Option<usize>> = Vec::new();
        let mut i: usize = 0;
        while i < n
            invariant
                self.inited(),
                n == self.robins@.len(),
                i <= n,
                result@.len() == i,
                forall|t: int| 0 <= t < i ==> result@[t] == self.unit_of(t),
            decreases n - i,
        {
            proof {
                assert(self.robins@[i as int].wf());
                assert(self.robins@[i as int].max == self.y_links@[i as int]@.len());
            }
            let state = self.robins[i].state();
            let chosen_y = match state {
                Some(ii) => Some(self.y_links[i][ii]),
                None => None,
            };
            result.push(chosen_y);
            i += 1;
        }
        proof {
            assert(result@ =~= self.combination_view());
        }
        result
    }

    /// Every state the engine accepts materializes into a combination that
    /// keeps all three laws: capacities cover weights, overlapping
    /// reservations hold distinct units, and interchangeable pairs sit in
    /// the one canonical (strictly descending) order.
    pub proof fn lemma_accepted_combination(self)
        requires
            self.inited(),
            self.accepted(),
            self.run_canonical_from(0),
        ensures
            combo_wf_in(self.xs@, self.ys@, self.combination_view()),
            combo_conflict_free_in(self.xs@, self.combination_view()),
            combo_canonical_in(self.xs@, self.y_links@, self.combination_view()),
            combo_run_canonical_in(self.ys@, self.y_links@, self.combination_view()),
    {
        vstd::std_specs::vec::axiom_spec_len(&self.ys);
        let cmb = self.combination_view();
        assert forall|i: int| 0 <= i < cmb.len() implies (match #[trigger] cmb[i] {
            Some(u) => (u as int) < self.ys@.len() && self.xs@[i].spec_fits_in(self.ys@[u as int]),
            None => true,
        }) by {
            assert(cmb[i] == self.unit_of(i));
            match self.robins@[i].cursor {
                Some(p) => {
                    assert(self.robins@[i].wf());
                    assert(self.robins@[i].max == self.y_links@[i]@.len());
                    assert(self.links(i) == links_of(self.xs@[i], self.ys@));
                    lemma_links_of_props(self.xs@[i], self.ys@);
                },
                None => {},
            }
        }
        assert forall|i: int, j: int|
            #![trigger cmb[i], cmb[j]]
            0 <= i < j < self.xs@.len() && ovl_pred_in(self.xs@, i, j) implies !(cmb[i] is Some
            && cmb[j] is Some && cmb[i] == cmb[j]) by {
            assert(cmb[i] == self.unit_of(i));
            assert(cmb[j] == self.unit_of(j));
        }
        assert forall|i: int, j: int|
            #![trigger cmb[i], cmb[j]]
            0 <= i < j < self.xs@.len() && sim_pred_in(self.xs@, self.y_links@, i, j) implies (
        match (cmb[i], cmb[j]) {
            (Some(a), Some(b)) => (b as int) < a as int,
            _ => true,
        }) by {
            assert(cmb[i] == self.unit_of(i));
            assert(cmb[j] == self.unit_of(j));
            assert(self.digit_at(i) == self.robins@[i].cursor);
            assert(self.digit_at(j) == self.robins@[j].cursor);
            match (self.robins@[i].cursor, self.robins@[j].cursor) {
                (Some(p), Some(q)) => {
                    assert((q as int) < p as int);
                    assert(self.links(i) == self.links(j)) by {
                        if self.xs@[j].spec_similar(self.xs@[i]) {
                            lemma_links_of_same_weight(self.xs@[i], self.xs@[j], self.ys@);
                        }
                    }
                    assert(self.robins@[i].wf());
                    assert(self.robins@[i].max == self.y_links@[i]@.len());
                    lemma_links_of_props(self.xs@[i], self.ys@);
                    assert(self.links(i)[q as int] < self.links(i)[p as int]);
                },
                _ => {},
            }
        }
        assert forall|i: int| 0 <= i < cmb.len() implies (match #[trigger] cmb[i] {
            Some(u) => exists|p: int|
                #![trigger self.y_links@[i]@[p]]
                0 <= p < self.y_links@[i]@.len() && self.y_links@[i]@[p] == u && (p == 0
                    || !simpair_in(self.ys@, self.y_links@[i]@, p - 1)),
            None => true,
        }) by {
            assert(cmb[i] == self.unit_of(i));
            assert(self.run_canonical_at(i));
            match self.robins@[i].cursor {
                Some(p) => {
                    assert(self.robins@[i].wf());
                    assert(self.robins@[i].max == self.y_links@[i]@.len());
                    assert(0 <= p < self.y_links@[i]@.len() && self.y_links@[i]@[p as int]
                        == cmb[i]->Some_0 && (p == 0 || !simpair_in(
                        self.ys@,
                        self.y_links@[i]@,
                        p as int - 1,
                    )));
                },
                None => {},
            }
        }
    }

    /// Interchangeable reservations hold identical compatibility lists.
    pub proof fn lemma_sim_same_links(self, i: int, j: int)
        requires
            self.inited(),
            0 <= i < self.n(),
            0 <= j < self.n(),
            self.sim_pred(i, j),
        ensures
            self.links(i) == self.links(j),
    {
        if self.xs@[j].spec_similar(self.xs@[i]) {
            lemma_links_of_same_weight(self.xs@[i], self.xs@[j], self.ys@);
        }
    }

    /// Every digit of a well-formed combination is in range, and so is its
    /// whole value.
    pub proof fn lemma_cv_bounds(self, cmb: Seq<Option<usize>>, i: int)
        requires
            self.inited(),
            combo_wf_in(self.xs@, self.ys@, cmb),
        ensures
            0 <= combo_value_in(self.y_links@, cmb, i),
            combo_value_in(self.y_links@, cmb, i) < self.prodr(i),
            forall|j: int|
                0 <= j < self.n() ==> 0 <= #[trigger] combo_digit_in(self.y_links@, cmb, j)
                    < self.radix(j),
        decreases self.n() - i,
    {
        vstd::std_specs::vec::axiom_spec_len(&self.ys);
        assert forall|j: int|
            0 <= j < self.n() implies 0 <= #[trigger] combo_digit_in(self.y_links@, cmb, j)
            < self.radix(j) by {
            match cmb[j] {
                Some(u) => {
                    assert((u as int) < self.m() && self.xs@[j].spec_fits_in(self.ys@[u as int]));
                    assert(self.links(j) == links_of(self.xs@[j], self.ys@));
                    lemma_links_of_props(self.xs@[j], self.ys@);
                    assert(self.links(j).contains(u));
                    lemma_pos_in(self.links(j), u);
                },
                None => {},
            }
        }
        if i < 0 || i >= self.n() {
        } else {
            self.lemma_cv_bounds(cmb, i + 1);
            let d = combo_digit_in(self.y_links@, cmb, i);
            let r = self.radix(i);
            let w = combo_value_in(self.y_links@, cmb, i + 1);
            assert(0 <= r * w && d + r * w < r * self.prodr(i + 1)) by (nonlinear_arith)
                requires
                    0 <= d <= r - 1,
                    r >= 1,
                    0 <= w,
                    w < self.prodr(i + 1),
            ;
        }
    }

    /// The value of the digits strictly below `i`.
    pub open spec fn combo_lowvalue(self, cmb: Seq<Option<usize>>, i: int) -> int
        decreases i,
    {
        if i <= 0 {
            0
        } else {
            self.combo_lowvalue(cmb, i - 1) + self.prodlow(i - 1) * combo_digit_in(
                self.y_links@,
                cmb,
                i - 1,
            )
        }
    }

    /// A combination's value factors into the digits below `c` and the
    /// suffix at `c`, with the low part strictly under the low radix
    /// product.
    pub proof fn lemma_cv_split(self, cmb: Seq<Option<usize>>, c: int)
        requires
            self.inited(),
            combo_wf_in(self.xs@, self.ys@, cmb),
            0 <= c <= self.n(),
        ensures
            combo_value_in(self.y_links@, cmb, 0) == self.combo_lowvalue(cmb, c) + self.prodlow(c)
                * combo_value_in(self.y_links@, cmb, c),
            0 <= self.combo_lowvalue(cmb, c) < self.prodlow(c),
        decreases c,
    {
        self.lemma_cv_bounds(cmb, 0);
        if c == 0 {
        } else {
            self.lemma_cv_split(cmb, c - 1);
            let lv = self.combo_lowvalue(cmb, c - 1);
            let pl = self.prodlow(c - 1);
            let d = combo_digit_in(self.y_links@, cmb, c - 1);
            let r = self.radix(c - 1);
            let w = combo_value_in(self.y_links@, cmb, c);
            assert(combo_value_in(self.y_links@, cmb, c - 1) == d + r * w);
            self.lemma_prodlow_pos(c - 1);
            assert(pl * (d + r * w) == pl * d + (pl * r) * w) by (nonlinear_arith);
            assert(0 <= pl * d && lv + pl * d < pl * r) by (nonlinear_arith)
                requires
                    pl >= 1,
                    0 <= lv < pl,
                    0 <= d <= r - 1,
                    r >= 1,
            ;
        }
    }

    /// The low and high radix products compose to the whole product.
    pub proof fn lemma_prod_split(self, i: int)
        requires
            0 <= i <= self.n(),
        ensures
            self.prodlow(i) * self.prodr(i) == self.prodr(0),
        decreases i,
    {
        if i == 0 {
        } else {
            self.lemma_prod_split(i - 1);
            assert(self.prodr(i - 1) == self.radix(i - 1) * self.prodr(i));
            assert((self.prodlow(i - 1) * self.radix(i - 1)) * self.prodr(i) == self.prodlow(i - 1)
                * (self.radix(i - 1) * self.prodr(i))) by (nonlinear_arith);
        }
    }

    /// A combination whose suffix value matches the engine's own pins every
    /// digit of that suffix to the engine's assignment.
    pub proof fn lemma_value_determines_suffix(self, cmb: Seq<Option<usize>>, i: int)
        requires
            self.inited(),
            combo_wf_in(self.xs@, self.ys@, cmb),
            0 <= i,
            combo_value_in(self.y_links@, cmb, i) == self.ov(i),
        ensures
            forall|j: int| i <= j < self.n() ==> cmb[j] == self.unit_of(j),
        decreases self.n() - i,
    {
        vstd::std_specs::vec::axiom_spec_len(&self.ys);
        if i >= self.n() {
        } else {
            self.lemma_cv_bounds(cmb, i + 1);
            self.lemma_ov_bounds(i + 1);
            let d1 = combo_digit_in(self.y_links@, cmb, i);
            let d2 = self.robins@[i].digit();
            let r = self.radix(i);
            assert(self.robins@[i].wf());
            assert(self.robins@[i].max == self.y_links@[i]@.len());
            assert(0 <= d2 < r);
            lemma_digit_split_unique(
                d1,
                combo_value_in(self.y_links@, cmb, i + 1),
                d2,
                self.ov(i + 1),
                r,
            );
            self.lemma_value_determines_suffix(cmb, i + 1);
            assert(cmb[i] == self.unit_of(i)) by {
                assert(self.links(i) == links_of(self.xs@[i], self.ys@));
                lemma_links_of_props(self.xs@[i], self.ys@);
                match cmb[i] {
                    Some(u) => {
                        assert(self.links(i).contains(u));
                        lemma_pos_in(self.links(i), u);
                        assert(pos_in(self.links(i), u) + 1 == d1);
                        match self.robins@[i].cursor {
                            Some(p) => {
                                assert(p + 1 == d2);
                                assert(self.links(i)[pos_in(self.links(i), u)] == u);
                            },
                            None => {
                                assert(d2 == 0);
                                assert(false);
                            },
                        }
                    },
                    None => {
                        assert(d1 == 0);
                        match self.robins@[i].cursor {
                            Some(p) => {
                                assert(d2 == p + 1);
                                assert(false);
                            },
                            None => {},
                        }
                    },
                }
            }
        }
    }

    /// The engine's own snapshot has exactly the engine's odometer value.
    pub proof fn lemma_view_value(self, i: int)
        requires
            self.inited(),
            0 <= i,
        ensures
            combo_value_in(self.y_links@, self.combination_view(), i) == self.ov(i),
        decreases self.n() - i,
    {
        vstd::std_specs::vec::axiom_spec_len(&self.ys);
        if i >= self.n() {
        } else {
            self.lemma_view_value(i + 1);
            let cmb = self.combination_view();
            assert(cmb[i] == self.unit_of(i));
            match self.robins@[i].cursor {
                Some(p) => {
                    assert(self.robins@[i].wf());
                    assert(self.robins@[i].max == self.y_links@[i]@.len());
                    assert(self.links(i) == links_of(self.xs@[i], self.ys@));
                    lemma_links_of_props(self.xs@[i], self.ys@);
                    assert(self.links(i).contains(self.links(i)[p as int])) by {
                        assert(self.links(i)[p as int] == self.links(i)[p as int]);
                    }
                    lemma_pos_in(self.links(i), self.links(i)[p as int]);
                    assert(pos_in(self.links(i), self.links(i)[p as int]) == p as int);
                    assert(combo_digit_in(self.y_links@, cmb, i) == self.robins@[i].digit());
                },
                None => {
                    assert(combo_digit_in(self.y_links@, cmb, i) == 0);
                },
            }
        }
    }

    /// The snapshot determines the odometer value: two statically equal
    /// engines whose combinations coincide sit at the same point of the
    /// search, because each compatibility list is strictly increasing.
    pub proof fn lemma_view_determines_value(s1: Solver2, s2: Solver2)
        requires
            s1.inited(),
            s2.inited(),
            Solver2::statics_eq(s1, s2),
            s1.combination_view() == s2.combination_view(),
        ensures
            s1.ov(0) == s2.ov(0),
    {
        vstd::std_specs::vec::axiom_spec_len(&s1.ys);
        assert forall|i: int| 0 <= i < s1.n() implies s1.robins@[i].cursor
            == s2.robins@[i].cursor by {
            assert(s1.combination_view()[i] == s2.combination_view()[i]);
            assert(s1.unit_of(i) == s2.unit_of(i));
            assert(s1.robins@[i].wf() && s2.robins@[i].wf());
            assert(s1.robins@[i].max == s1.y_links@[i]@.len());
            assert(s2.robins@[i].max == s2.y_links@[i]@.len());
            match (s1.robins@[i].cursor, s2.robins@[i].cursor) {
                (Some(p1), Some(p2)) => {
                    assert(s1.links(i) == s2.links(i));
                    assert(s1.links(i)[p1 as int] == s1.links(i)[p2 as int]);
                    assert(s1.links(i) == links_of(s1.xs@[i], s1.ys@));
                    lemma_links_of_props(s1.xs@[i], s1.ys@);
                    if p1 < p2 {
                        assert(s1.links(i)[p1 as int] < s1.links(i)[p2 as int]);
                    } else if p2 < p1 {
                        assert(s1.links(i)[p2 as int] < s1.links(i)[p1 as int]);
                    }
                },
                (None, None) => {},
                _ => {
                    assert(false);
                },
            }
        }
        Self::lemma_ov_congruence(s1, s2, 0);
    }

    /// Steps the engine to exhaustion, collecting every accepted
    /// combination. Terminates for every input: the loop strictly increases
    /// the mixed-radix odometer value, which the product of the digit
    /// radixes bounds, and that product also bounds how many combinations
    /// come back. The result is pinned exactly: every returned combination
    /// satisfies the capacity, conflict, canonical-symmetry and
    /// run-canonical laws, every combination satisfying them (beyond the
    /// starting point) is returned, and they come in strictly increasing
    /// mixed-radix order, so no two are equal.
    pub fn produce_combinations(&mut self) -> (combinations: Vec<Vec<Option<usize>>>)
        requires
            old(self).inited(),
            old(self).cursor == 0,
            old(self).conflict_ok_from(1),
            old(self).sym_ok_from(1),
            old(self).run_canonical_from(1),
        ensures
            final(self).inited(),
            final(self).xs == old(self).xs,
            final(self).ys == old(self).ys,
            final(self).y_links == old(self).y_links,
            forall|i: int|
                0 <= i < final(self).n() ==> (#[trigger] final(self).robins@[i]).cursor is None,
            forall|k: int|
                0 <= k < combinations@.len() ==> combo_wf_in(
                    old(self).xs@,
                    old(self).ys@,
                    (#[trigger] combinations@[k])@,
                ) && combo_conflict_free_in(old(self).xs@, combinations@[k]@)
                    && combo_canonical_in(old(self).xs@, old(self).y_links@, combinations@[k]@)
                    && combo_run_canonical_in(old(self).ys@, old(self).y_links@, combinations@[k]@),
            forall|k1: int, k2: int|
                0 <= k1 < k2 < combinations@.len() ==> (#[trigger] combinations@[k1])@ != (
                #[trigger] combinations@[k2])@,
            forall|cmb: Seq<Option<usize>>|
                #![trigger combo_good_in(old(self).xs@, old(self).ys@, old(self).y_links@, cmb)]
                combo_good_in(old(self).xs@, old(self).ys@, old(self).y_links@, cmb)
                    && combo_value_in(old(self).y_links@, cmb, 0) > old(self).ov(0) ==> exists|
                    k: int,
                |
                    0 <= k < combinations@.len() && (#[trigger] combinations@[k])@ == cmb,
            forall|k: int|
                0 <= k < combinations@.len() ==> combo_value_in(
                    old(self).y_links@,
                    (#[trigger] combinations@[k])@,
                    0,
                ) > old(self).ov(0),
            forall|k1: int, k2: int|
                0 <= k1 < k2 < combinations@.len() ==> combo_value_in(
                    old(self).y_links@,
                    (#[trigger] combinations@[k1])@,
                    0,
                ) < combo_value_in(old(self).y_links@, (#[trigger] combinations@[k2])@, 0),
            old(self).ov(0) + combinations@.len() <= old(self).prodr(0),
    {
        let ghost s0 = *self;
        proof {
            self.lemma_ov_bounds(0);
        }
        let mut combinations: Vec<Vec<Option<usize>>> = Vec::new();
        let ghost mut states: Seq<Solver2> = Seq::empty();
        let ghost mut hi: int = self.ov(0);
        loop
            invariant_except_break
                self.cursor == 0,
                self.conflict_ok_from(1),
                self.sym_ok_from(1),
                self.run_canonical_from(1),
                forall|k: int| 0 <= k < states.len() ==> (#[trigger] states[k]).ov(0) <= self.ov(0),
                hi == self.ov(0),
            invariant
                self.inited(),
                s0 == *old(self),
                s0.inited(),
                self.xs == s0.xs,
                self.ys == s0.ys,
                self.y_links == s0.y_links,
                self.similar == s0.similar,
                self.overlapping == s0.overlapping,
                self.shortcuts == s0.shortcuts,
                self.max == s0.max,
                Solver2::statics_eq(s0, *self),
                self.ov(0) < self.prodr(0),
                forall|k: int|
                    0 <= k < combinations@.len() ==> combo_wf_in(
                        s0.xs@,
                        s0.ys@,
                        (#[trigger] combinations@[k])@,
                    ) && combo_conflict_free_in(s0.xs@, combinations@[k]@)
                        && combo_canonical_in(s0.xs@, s0.y_links@, combinations@[k]@)
                        && combo_run_canonical_in(s0.ys@, s0.y_links@, combinations@[k]@),
                states.len() == combinations@.len(),
                forall|k: int|
                    0 <= k < states.len() ==> (#[trigger] states[k]).inited()
                        && Solver2::statics_eq(s0, states[k]) && combinations@[k]@
                        == states[k].combination_view(),
                forall|k1: int, k2: int|
                    0 <= k1 < k2 < states.len() ==> (#[trigger] states[k1]).ov(0) < (
                    #[trigger] states[k2]).ov(0),
                hi >= s0.ov(0),
                hi < s0.prodr(0),
                s0.ov(0) + combinations@.len() <= hi,
                forall|k: int|
                    0 <= k < combinations@.len() ==> combo_value_in(
                        s0.y_links@,
                        (#[trigger] combinations@[k])@,
                        0,
                    ) == states[k].ov(0) && states[k].ov(0) > s0.ov(0) && states[k].ov(0) <= hi,
                forall|cmb: Seq<Option<usize>>|
                    #![trigger combo_good_in(s0.xs@, s0.ys@, s0.y_links@, cmb)]
                    combo_good_in(s0.xs@, s0.ys@, s0.y_links@, cmb) && s0.ov(0) < combo_value_in(
                        s0.y_links@,
                        cmb,
                        0,
                    ) <= hi ==> exists|k: int|
                        0 <= k < combinations@.len() && (#[trigger] combinations@[k])@ == cmb,
            ensures
                self.inited(),
                s0 == *old(self),
                self.xs == s0.xs,
                self.ys == s0.ys,
                self.y_links == s0.y_links,
                forall|i: int|
                    0 <= i < self.n() ==> (#[trigger] self.robins@[i]).cursor is None,
                forall|k: int|
                    0 <= k < combinations@.len() ==> combo_wf_in(
                        s0.xs@,
                        s0.ys@,
                        (#[trigger] combinations@[k])@,
                    ) && combo_conflict_free_in(s0.xs@, combinations@[k]@)
                        && combo_canonical_in(s0.xs@, s0.y_links@, combinations@[k]@)
                        && combo_run_canonical_in(s0.ys@, s0.y_links@, combinations@[k]@),
                hi >= s0.ov(0),
                hi < s0.prodr(0),
                s0.ov(0) + combinations@.len() <= hi,
                forall|k: int|
                    0 <= k < combinations@.len() ==> combo_value_in(
                        s0.y_links@,
                        (#[trigger] combinations@[k])@,
                        0,
                    ) == states[k].ov(0) && states[k].ov(0) > s0.ov(0) && states[k].ov(0) <= hi,
                forall|k1: int, k2: int|
                    0 <= k1 < k2 < states.len() ==> (#[trigger] states[k1]).ov(0) < (
                    #[trigger] states[k2]).ov(0),
                states.len() == combinations@.len(),
                forall|cmb: Seq<Option<usize>>|
                    #![trigger combo_good_in(s0.xs@, s0.ys@, s0.y_links@, cmb)]
                    combo_good_in(s0.xs@, s0.ys@, s0.y_links@, cmb) && combo_value_in(
                        s0.y_links@,
                        cmb,
                        0,
                    ) > s0.ov(0) ==> exists|k: int|
                        0 <= k < combinations@.len() && (#[trigger] combinations@[k])@ == cmb,
            decreases self.prodr(0) - self.ov(0),
        {
            let ghost pre = *self;
            let done = self.step();
            proof {
                Self::lemma_prodr_congruence(pre, *self, 0);
                Self::lemma_prodr_congruence(s0, *self, 0);
                self.lemma_ov_bounds(0);
            }
            if done {
                break;
            }
            proof {
                self.lemma_rules_mono(0, 1);
            }
            let current = self.current_combination();
            proof {
                self.lemma_accepted_combination();
                self.lemma_view_value(0);
                let ghost hi_old = hi;
                hi = self.ov(0);
                states = states.push(*self);
                assert forall|cmb: Seq<Option<usize>>|
                    combo_good_in(s0.xs@, s0.ys@, s0.y_links@, cmb) && s0.ov(0) < combo_value_in(
                    s0.y_links@,
                    cmb,
                    0,
                ) <= hi implies exists|k: int|
                    0 <= k < combinations@.len() + 1 && (#[trigger] combinations@.push(
                    current,
                )[k])@ == cmb by {
                    let cv = combo_value_in(s0.y_links@, cmb, 0);
                    if cv <= hi_old {
                        let k0 = choose|k: int|
                            0 <= k < combinations@.len() && (#[trigger] combinations@[k])@ == cmb;
                        assert(combinations@.push(current)[k0]@ == cmb);
                    } else {
                        assert(cv >= self.ov(0));
                        assert(cv == self.ov(0));
                        self.lemma_value_determines_suffix(cmb, 0);
                        assert(cmb =~= self.combination_view());
                        assert(combinations@.push(current)[combinations@.len() as int]@ == cmb);
                    }
                }
            }
            combinations.push(current);
        }
        proof {
            assert forall|k1: int, k2: int|
                0 <= k1 < k2 < combinations@.len() implies (#[trigger] combinations@[k1])@ != (
            #[trigger] combinations@[k2])@ by {
                if combinations@[k1]@ == combinations@[k2]@ {
                    assert(Solver2::statics_eq(states[k1], states[k2])) by {
                        assert forall|i: int|
                            0 <= i < states[k1].robins@.len() implies (
                        #[trigger] states[k2].robins@[i]).max == states[k1].robins@[i].max by {
                            assert(states[k1].robins@[i].max == s0.robins@[i].max);
                            assert(states[k2].robins@[i].max == s0.robins@[i].max);
                        }
                    }
                    Self::lemma_view_determines_value(states[k1], states[k2]);
                }
            }
        }
        combinations
    }
}

/// Capacity law over one emitted combination: every assigned arena index
/// is in range and names a unit whose capacity covers the reservation's
/// weight.
pub open spec fn combo_wf_in(xs: Seq<Reservation>, ys: Seq<Unit>, cmb: Seq<Option<usize>>) -> bool {
    cmb.len() == xs.len() && (forall|i: int|
        0 <= i < cmb.len() ==> (match #[trigger] cmb[i] {
            Some(u) => (u as int) < ys.len() && xs[i].spec_fits_in(ys[u as int]),
            None => true,
        }))
}

/// Conflict law over one emitted combination: no two assigned reservations
/// with overlapping windows hold the same unit.
pub open spec fn combo_conflict_free_in(xs: Seq<Reservation>, cmb: Seq<Option<usize>>) -> bool {
    forall|i: int, j: int|
        #![trigger cmb[i], cmb[j]]
        0 <= i < j < xs.len() && ovl_pred_in(xs, i, j) ==> !(cmb[i] is Some && cmb[j] is Some
            && cmb[i] == cmb[j])
}

/// Canonical-symmetry law over one emitted combination: of two assigned
/// interchangeable reservations, the later one always holds the strictly
/// smaller arena index.
pub open spec fn combo_canonical_in(
    xs: Seq<Reservation>,
    y_links: Seq<Vec<usize>>,
    cmb: Seq<Option<usize>>,
) -> bool {
    forall|i: int, j: int|
        #![trigger cmb[i], cmb[j]]
        0 <= i < j < xs.len() && sim_pred_in(xs, y_links, i, j) ==> (match (cmb[i], cmb[j]) {
            (Some(a), Some(b)) => (b as int) < a as int,
            _ => true,
        })
}

/// Unit-level collapse over one emitted combination: every assigned unit
/// opens its run of interchangeable units inside the reservation's
/// compatibility list, so at most one representative of each capacity
/// class ever appears in a given slot.
pub open spec fn combo_run_canonical_in(
    ys: Seq<Unit>,
    y_links: Seq<Vec<usize>>,
    cmb: Seq<Option<usize>>,
) -> bool {
    forall|i: int|
        0 <= i < cmb.len() ==> (match #[trigger] cmb[i] {
            Some(u) => exists|p: int|
                #![trigger y_links[i]@[p]]
                0 <= p < y_links[i]@.len() && y_links[i]@[p] == u && (p == 0 || !simpair_in(
                    ys,
                    y_links[i]@,
                    p - 1,
                )),
            None => true,
        })
}

/// The list position holding unit `u` inside `links`; a strictly
/// increasing list makes it unique.
pub open spec fn pos_in(links: Seq<usize>, u: usize) -> int {
    choose|p: int| 0 <= p < links.len() && links[p] == u
}

/// In a strictly increasing list, `pos_in` is the one position of any unit
/// the list contains.
pub proof fn lemma_pos_in(links: Seq<usize>, u: usize)
    requires
        forall|p: int, q: int| 0 <= p < q < links.len() ==> links[p] < links[q],
        links.contains(u),
    ensures
        0 <= pos_in(links, u) < links.len(),
        links[pos_in(links, u)] == u,
        forall|p: int| 0 <= p < links.len() && links[p] == u ==> p == pos_in(links, u),
{
    let p0 = pos_in(links, u);
    assert(0 <= p0 < links.len() && links[p0] == u);
    assert forall|p: int| 0 <= p < links.len() && links[p] == u implies p == p0 by {
        if p < p0 {
            assert(links[p] < links[p0]);
        } else if p0 < p {
            assert(links[p0] < links[p]);
        }
    }
}

/// One digit of a combination read back as a cyclic-order value: an unset
/// slot is 0, the unit at list position `p` is `p + 1`.
pub open spec fn combo_digit_in(y_links: Seq<Vec<usize>>, cmb: Seq<Option<usize>>, i: int) -> int {
    match cmb[i] {
        None => 0,
        Some(u) => pos_in(y_links[i]@, u) + 1,
    }
}

/// The mixed-radix value of a combination, least significant digit first:
/// the point of the search space the combination denotes.
pub open spec fn combo_value_in(y_links: Seq<Vec<usize>>, cmb: Seq<Option<usize>>, i: int) -> int
    decreases y_links.len() - i,
{
    if i < 0 || i >= y_links.len() {
        0
    } else {
        combo_digit_in(y_links, cmb, i) + (y_links[i]@.len() as int + 1) * combo_value_in(
            y_links,
            cmb,
            i + 1,
        )
    }
}

/// All four per-combination laws together: a combination the engine may
/// return.
pub open spec fn combo_good_in(
    xs: Seq<Reservation>,
    ys: Seq<Unit>,
    y_links: Seq<Vec<usize>>,
    cmb: Seq<Option<usize>>,
) -> bool {
    combo_wf_in(xs, ys, cmb) && combo_conflict_free_in(xs, cmb) && combo_canonical_in(
        xs,
        y_links,
        cmb,
    ) && combo_run_canonical_in(ys, y_links, cmb)
}

/// Mixed-radix digits are unique: within one radix, a value forces its
/// digit and its suffix.
pub proof fn lemma_digit_split_unique(d1: int, w1: int, d2: int, w2: int, r: int)
    requires
        0 <= d1 < r,
        0 <= d2 < r,
        d1 + r * w1 == d2 + r * w2,
    ensures
        d1 == d2,
        w1 == w2,
{
    if w1 < w2 {
        assert(r * w2 >= r * w1 + r) by (nonlinear_arith)
            requires
                w1 < w2,
                r >= 1,
        ;
        assert(false);
    } else if w2 < w1 {
        assert(r * w1 >= r * w2 + r) by (nonlinear_arith)
            requires
                w2 < w1,
                r >= 1,
        ;
        assert(false);
    }
}

/// A value lying in one digit-c band forces the digit into the band and
/// pins the whole suffix above.
pub proof fn lemma_digit_range(d: int, w: int, r: int, a: int, b: int, v: int)
    requires
        0 <= d < r,
        0 <= w,
        0 <= a,
        a < b,
        b <= r,
        0 <= v,
        a + r * v <= d + r * w,
        d + r * w < b + r * v,
    ensures
        w == v,
        a <= d < b,
{
    if w < v {
        assert(r * w + r <= r * v) by (nonlinear_arith)
            requires
                w + 1 <= v,
                r >= 1,
        ;
        assert(false);
    }
    if w > v {
        assert(r * w >= r * v + r) by (nonlinear_arith)
            requires
                v + 1 <= w,
                r >= 1,
        ;
        assert(false);
    }
}

/// Reading the combination is idempotent: without an intervening step, two
/// snapshots of one engine state are identical.
pub proof fn lemma_current_combination_idempotent(
    s: Solver2,
    r1: Seq<Option<usize>>,
    r2: Seq<Option<usize>>,
)
    requires
        r1 == s.combination_view(),
        r2 == s.combination_view(),
    ensures
        r1 == r2,
{
}

/// Symmetry collapse: swapping the assignments of an interchangeable pair
/// inside a canonical combination never yields another canonical
/// combination, so only one ordering of such a pair ever appears in the
/// result set.
pub proof fn lemma_symmetry_collapse(
    xs: Seq<Reservation>,
    y_links: Seq<Vec<usize>>,
    cmb: Seq<Option<usize>>,
    i: int,
    j: int,
)
    requires
        cmb.len() == xs.len(),
        combo_canonical_in(xs, y_links, cmb),
        0 <= i < j < xs.len(),
        sim_pred_in(xs, y_links, i, j),
        cmb[i] is Some,
        cmb[j] is Some,
        cmb[i] != cmb[j],
    ensures
        !combo_canonical_in(xs, y_links, cmb.update(i, cmb[j]).update(j, cmb[i])),
{
    let swapped = cmb.update(i, cmb[j]).update(j, cmb[i]);
    assert(swapped[i] == cmb[j]);
    assert(swapped[j] == cmb[i]);
    if combo_canonical_in(xs, y_links, swapped) {
        assert(match (swapped[i], swapped[j]) {
            (Some(a), Some(b)) => (b as int) < a as int,
            _ => true,
        });
        assert(match (cmb[i], cmb[j]) {
            (Some(a), Some(b)) => (b as int) < a as int,
            _ => true,
        });
        assert(false);
    }
}

} // verus!
