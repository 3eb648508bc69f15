//! Areas of closed tiles annotated with a range of possible mine counts, and
//! the difference and intersection operations a solver deduces with.

use vstd::prelude::*;
use vstd::math::{max, min};
use vstd::std_specs::cmp::PartialEqSpecImpl;
use vstd::std_specs::convert::FromSpecImpl;

use crate::position::Position;

verus! {

broadcast use vstd::seq_lib::lemma_seq_contains_after_push;

/// An inclusive range of how many mines a set of positions may hold.
#[derive(Debug, Clone, Copy, PartialEq, Eq, Structural)]
pub struct MineCount {
    min: usize,
    max: usize,
}

/// `a - b`, floored at zero.
pub open spec fn sat_sub(a: int, b: int) -> int {
    if a >= b {
        a - b
    } else {
        0
    }
}

impl MineCount {
    pub closed spec fn spec_min(&self) -> usize {
        self.min
    }

    pub closed spec fn spec_max(&self) -> usize {
        self.max
    }

    /// The range `min..=max`.
    pub closed spec fn spec_from_range(min: usize, max: usize) -> MineCount {
        MineCount { min, max }
    }

    /// The range holding `exact` alone.
    pub open spec fn spec_from_exact(exact: usize) -> MineCount {
        MineCount::spec_from_range(exact, exact)
    }

    /// The count is known exactly.
    pub open spec fn is_exact(&self) -> bool {
        self.min() == self.max()
    }

    pub fn from_exact(exact: usize) -> (r: Self)
        ensures
            r.min() == exact,
            r.max() == exact,
            r == Self::spec_from_exact(exact),
    {
        Self { min: exact, max: exact }
    }

    pub fn from_range(min: usize, max: usize) -> (r: Self)
        ensures
            r.min() == min,
            r.max() == max,
            r == Self::spec_from_range(min, max),
    {
        Self { min, max }
    }

    #[verifier::when_used_as_spec(spec_min)]
    pub fn min(&self) -> (r: usize)
        ensures
            r == self.min(),
    {
        self.min
    }

    #[verifier::when_used_as_spec(spec_max)]
    pub fn max(&self) -> (r: usize)
        ensures
            r == self.max(),
    {
        self.max
    }

    /// Returns the exact number of mines if min and max are equal, `None`
    /// otherwise.
    pub fn exact_count(&self) -> (r: Option<usize>)
        ensures
            r == (if self.is_exact() {
                Some(self.min())
            } else {
                None::<usize>
            }),
    {
        let min = self.min;
        if min == self.max {
            Some(min)
        } else {
            None
        }
    }
}

/// A mine count is its two bounds: counts with equal bounds are equal, and
/// every count is the range between its bounds.
pub proof fn lemma_mine_count_eq(a: MineCount, b: MineCount)
    ensures
        a == b <==> (a.min() == b.min() && a.max() == b.max()),
        a == MineCount::spec_from_range(a.min(), a.max()),
        MineCount::spec_from_range(a.min(), a.max()).min() == a.min(),
        MineCount::spec_from_range(a.min(), a.max()).max() == a.max(),
{
}

/// The range `min..=max` has bounds `min` and `max`.
pub proof fn lemma_from_range_bounds(min: usize, max: usize)
    ensures
        MineCount::spec_from_range(min, max).min() == min,
        MineCount::spec_from_range(min, max).max() == max,
{
}

impl From<usize> for MineCount {
    fn from(exact: usize) -> (r: Self) {
        Self::from_exact(exact)
    }
}

impl FromSpecImpl<usize> for MineCount {
    open spec fn obeys_from_spec() -> bool {
        true
    }

    open spec fn from_spec(exact: usize) -> MineCount {
        MineCount::spec_from_exact(exact)
    }
}

/// The action an [`Area`] allows, when it allows one.
#[derive(Debug, Clone, Copy, PartialEq, Eq, Structural)]
pub enum AreaAction {
    Open,
    Flag,
}

/// A set of positions together with the range of mines they hold.
#[derive(Debug)]
pub struct Area {
    positions: Vec<Position>,
    mine_count: MineCount,
}

proof fn lemma_push_distinct(s: Seq<Position>, e: Position)
    requires
        s.no_duplicates(),
        !s.contains(e),
    ensures
        s.push(e).no_duplicates(),
{
    assert forall|i: int, j: int| 0 <= i < j < s.len() + 1 implies s.push(e)[i] != s.push(e)[j] by {
        if j == s.len() {
            assert(s[i] == s.push(e)[i]);
        }
    }
}

/// Whether `v` holds `p`.
fn holds(v: &Vec<Position>, p: Position) -> (r: bool)
    ensures
        r == v@.contains(p),
{
    let mut i: usize = 0;
    while i < v.len()
        invariant
            i <= v@.len(),
            forall|j: int| 0 <= j < i ==> v@[j] != p,
        decreases v@.len() - i,
    {
        if v[i] == p {
            return true;
        }
        i += 1;
    }
    false
}

impl Area {
    #[verifier::type_invariant]
    spec fn distinct(self) -> bool {
        self.positions@.no_duplicates()
    }

    /// The positions of the area, as a set.
    pub closed spec fn cells(&self) -> Set<Position> {
        self.positions@.to_set()
    }

    pub closed spec fn spec_mine_count(&self) -> MineCount {
        self.mine_count
    }

    /// The number of positions of the area.
    pub open spec fn size(&self) -> nat {
        self.cells().len()
    }

    /// The set of mines `mines` places as many mines on the area as its
    /// count allows.
    pub open spec fn admits(&self, mines: Set<Position>) -> bool {
        self.mine_count().min() <= mines.intersect(self.cells()).len() <= self.mine_count().max()
    }

    /// The number of shared positions.
    pub open spec fn shared(&self, other: &Area) -> nat {
        self.cells().intersect(other.cells()).len()
    }

    /// Lower bound of mines in `self \ other`: what `self` holds at least,
    /// less the most the shared part can take (bounded by its size, by
    /// `self`'s minimum and by `other`'s maximum).
    pub open spec fn difference_min(&self, other: &Area) -> int {
        let a_min = self.mine_count().min() as int;
        a_min - min(min(self.shared(other) as int, a_min), other.mine_count().max() as int)
    }

    /// Upper bound of mines in `self \ other`: at most its size, and at most
    /// `self`'s maximum less the mines that `other`'s minimum forces into the
    /// shared part.
    pub open spec fn difference_max(&self, other: &Area) -> int {
        let overflow = sat_sub(
            other.mine_count().min() as int,
            other.size() - self.shared(other),
        );
        min(
            self.cells().difference(other.cells()).len() as int,
            sat_sub(self.mine_count().max() as int, overflow),
        )
    }

    /// Lower bound of mines in the shared part: what either side's minimum
    /// forces into it, at most its size.
    pub open spec fn intersection_min(&self, other: &Area) -> int {
        let shared = self.shared(other) as int;
        min(
            shared,
            max(
                sat_sub(self.mine_count().min() as int, self.size() - shared),
                sat_sub(other.mine_count().min() as int, other.size() - shared),
            ),
        )
    }

    /// Upper bound of mines in the shared part: its size and both maxima.
    pub open spec fn intersection_max(&self, other: &Area) -> int {
        min(
            min(self.shared(other) as int, self.mine_count().max() as int),
            other.mine_count().max() as int,
        )
    }

    /// What [`Area::next_action`] returns.
    pub open spec fn spec_next_action(&self) -> Option<AreaAction> {
        if self.mine_count().is_exact() {
            if self.mine_count().min() == 0 {
                Some(AreaAction::Open)
            } else if self.mine_count().min() == self.size() {
                Some(AreaAction::Flag)
            } else {
                None
            }
        } else {
            None
        }
    }

    /// Creates a new area with the given positions (each kept once) and mine
    /// count.
    pub fn new(positions: Vec<Position>, mine_count: MineCount) -> (r: Self)
        ensures
            r.cells() == positions@.to_set(),
            r.mine_count() == mine_count,
    {
        let mut unique: Vec<Position> = Vec::new();
        let mut i: usize = 0;
        while i < positions.len()
            invariant
                i <= positions@.len(),
                unique@.no_duplicates(),
                forall|q: Position| unique@.contains(q) <==> positions@.subrange(0, i as int).contains(q),
            decreases positions@.len() - i,
        {
            let p = positions[i];
            if !holds(&unique, p) {
                proof {
                    lemma_push_distinct(unique@, p);
                }
                unique.push(p);
            }
            assert(positions@.subrange(0, i + 1) =~= positions@.subrange(0, i as int).push(p));
            i += 1;
        }
        assert(positions@.subrange(0, i as int) =~= positions@);
        assert(unique@.to_set() =~= positions@.to_set());
        Self { positions: unique, mine_count }
    }

    /// Returns the mine count of the area.
    #[verifier::when_used_as_spec(spec_mine_count)]
    pub fn mine_count(&self) -> (r: MineCount)
        ensures
            r == self.mine_count(),
    {
        self.mine_count
    }

    /// Returns the positions of the area, each once, in no particular order.
    pub fn positions(&self) -> (r: &Vec<Position>)
        ensures
            r@.to_set() == self.cells(),
            r@.no_duplicates(),
    {
        proof {
            use_type_invariant(self);
        }
        &self.positions
    }

    /// Splits the positions of `self` into those `other` holds and the rest.
    fn split(&self, other: &Self) -> (r: (Vec<Position>, Vec<Position>))
        ensures
            r.0@.no_duplicates(),
            r.1@.no_duplicates(),
            r.0@.to_set() == self.cells().intersect(other.cells()),
            r.1@.to_set() == self.cells().difference(other.cells()),
            r.0@.len() == self.shared(other),
            r.1@.len() == self.cells().difference(other.cells()).len(),
            r.0@.len() + r.1@.len() == self.size(),
            self.shared(other) <= other.size(),
    {
        proof {
            use_type_invariant(self);
            use_type_invariant(other);
        }
        let mut inside: Vec<Position> = Vec::new();
        let mut outside: Vec<Position> = Vec::new();
        let n = self.positions.len();
        let mut i: usize = 0;
        while i < n
            invariant
                n == self.positions@.len(),
                i <= n,
                self.positions@.no_duplicates(),
                inside@.no_duplicates(),
                outside@.no_duplicates(),
                forall|q: Position|
                    inside@.contains(q) <==> self.positions@.subrange(0, i as int).contains(q)
                        && other.positions@.contains(q),
                forall|q: Position|
                    outside@.contains(q) <==> self.positions@.subrange(0, i as int).contains(q)
                        && !other.positions@.contains(q),
            decreases n - i,
        {
            let p = self.positions[i];
            assert(!self.positions@.subrange(0, i as int).contains(p)) by {
                if self.positions@.subrange(0, i as int).contains(p) {
                    let j = choose|j: int| 0 <= j < i && self.positions@.subrange(0, i as int)[j] == p;
                    assert(self.positions@[j] == self.positions@[i as int]);
                }
            }
            if holds(&other.positions, p) {
                proof {
                    lemma_push_distinct(inside@, p);
                }
                inside.push(p);
            } else {
                proof {
                    lemma_push_distinct(outside@, p);
                }
                outside.push(p);
            }
            assert(self.positions@.subrange(0, i + 1) =~= self.positions@.subrange(0, i as int).push(p));
            i += 1;
        }
        proof {
            let a = self.cells();
            let b = other.cells();
            assert(self.positions@.subrange(0, n as int) =~= self.positions@);
            assert(inside@.to_set() =~= a.intersect(b));
            assert(outside@.to_set() =~= a.difference(b));
            inside@.unique_seq_to_set();
            outside@.unique_seq_to_set();
            self.positions@.unique_seq_to_set();
            vstd::set_lib::lemma_set_difference_len(a, b);
            vstd::set_lib::lemma_len_intersect(b, a);
            assert(b.intersect(a) =~= a.intersect(b));
        }
        (inside, outside)
    }

    /// Returns the area of the positions of `self` that are not in `other`,
    /// with the range of mines they can hold.
    pub fn difference(&self, other: &Self) -> (r: Self)
        ensures
            r.cells() == self.cells().difference(other.cells()),
            r.mine_count().min() == self.difference_min(other),
            r.mine_count().max() == self.difference_max(other),
    {
        proof {
            use_type_invariant(self);
            self.positions@.unique_seq_to_set();
            use_type_invariant(other);
            other.positions@.unique_seq_to_set();
        }
        let (inside, outside) = self.split(other);
        let shared = inside.len();
        let a_min = self.mine_count.min;
        let mut absorbed = shared;
        if a_min < absorbed {
            absorbed = a_min;
        }
        if other.mine_count.max < absorbed {
            absorbed = other.mine_count.max;
        }
        let min = a_min - absorbed;
        let other_only = other.positions.len() - shared;
        let overflow = other.mine_count.min.saturating_sub(other_only);
        let mut max = self.mine_count.max.saturating_sub(overflow);
        if outside.len() < max {
            max = outside.len();
        }
        Self { positions: outside, mine_count: MineCount { min, max } }
    }

    /// Returns the area of the positions that `self` and `other` share, with
    /// the range of mines they can hold.
    pub fn intersection(&self, other: &Self) -> (r: Self)
        ensures
            r.cells() == self.cells().intersect(other.cells()),
            r.mine_count().min() == self.intersection_min(other),
            r.mine_count().max() == self.intersection_max(other),
    {
        proof {
            use_type_invariant(self);
            self.positions@.unique_seq_to_set();
            use_type_invariant(other);
            other.positions@.unique_seq_to_set();
        }
        let (inside, outside) = self.split(other);
        let shared = inside.len();
        let self_only = self.positions.len() - shared;
        let other_only = other.positions.len() - shared;
        let forced_by_self = self.mine_count.min.saturating_sub(self_only);
        let forced_by_other = other.mine_count.min.saturating_sub(other_only);
        let mut min = forced_by_self;
        if forced_by_other > min {
            min = forced_by_other;
        }
        if shared < min {
            min = shared;
        }
        let mut max = shared;
        if self.mine_count.max < max {
            max = self.mine_count.max;
        }
        if other.mine_count.max < max {
            max = other.mine_count.max;
        }
        Self { positions: inside, mine_count: MineCount { min, max } }
    }

    /// Returns the action the area allows: open every position when it holds
    /// exactly no mine, flag every position when all of them are mines.
    pub fn next_action(&self) -> (r: Option<AreaAction>)
        ensures
            r == self.spec_next_action(),
    {
        proof {
            use_type_invariant(self);
            self.positions@.unique_seq_to_set();
        }
        match self.mine_count.exact_count() {
            Some(count) => {
                if count == 0 {
                    Some(AreaAction::Open)
                } else if count == self.positions.len() {
                    Some(AreaAction::Flag)
                } else {
                    None
                }
            },
            None => None,
        }
    }
}

impl Clone for Area {
    fn clone(&self) -> (r: Self)
        ensures
            r.cells() == self.cells(),
            r.mine_count() == self.mine_count(),
    {
        proof {
            use_type_invariant(self);
        }
        let positions = self.positions.clone();
        assert(positions@ =~= self.positions@);
        Area { positions, mine_count: self.mine_count }
    }
}

impl PartialEq for Area {
    fn eq(&self, other: &Area) -> (r: bool) {
        proof {
            use_type_invariant(self);
            self.positions@.unique_seq_to_set();
            use_type_invariant(other);
            other.positions@.unique_seq_to_set();
        }
        if self.mine_count != other.mine_count || self.positions.len() != other.positions.len() {
            return false;
        }
        let mut i: usize = 0;
        while i < self.positions.len()
            invariant
                i <= self.positions@.len(),
                forall|j: int| 0 <= j < i ==> other.positions@.contains(#[trigger] self.positions@[j]),
            decreases self.positions@.len() - i,
        {
            if !holds(&other.positions, self.positions[i]) {
                assert(!other.cells().contains(self.positions@[i as int]));
                assert(self.cells().contains(self.positions@[i as int]));
                return false;
            }
            i += 1;
        }
        proof {
            assert forall|q: Position| self.cells().contains(q) implies other.cells().contains(q) by {
                let j = choose|j: int| 0 <= j < self.positions@.len() && self.positions@[j] == q;
            }
            vstd::set_lib::lemma_subset_equality(self.cells(), other.cells());
        }
        true
    }
}

impl PartialEqSpecImpl for Area {
    open spec fn obeys_eq_spec() -> bool {
        true
    }

    open spec fn eq_spec(&self, other: &Area) -> bool {
        self.cells() == other.cells() && self.mine_count() == other.mine_count()
    }
}

/// The mines on `a` split into those on `a \ b` and those on `a ∩ b`, and
/// no part holds more mines than positions.
proof fn lemma_mines_split(mines: Set<Position>, a: Set<Position>, b: Set<Position>)
    requires
        a.finite(),
        b.finite(),
    ensures
        mines.intersect(a).len() == mines.intersect(a.difference(b)).len() + mines.intersect(
            a.intersect(b),
        ).len(),
        mines.intersect(a.difference(b)).len() <= a.difference(b).len(),
        mines.intersect(a.intersect(b)).len() <= a.intersect(b).len(),
        a.difference(b).len() + a.intersect(b).len() == a.len(),
{
    let d = mines.intersect(a.difference(b));
    let s = mines.intersect(a.intersect(b));
    vstd::set_lib::lemma_len_subset(d, a.difference(b));
    vstd::set_lib::lemma_len_subset(s, a.intersect(b));
    vstd::set_lib::lemma_set_disjoint_lens(d, s);
    assert(d + s =~= mines.intersect(a));
    vstd::set_lib::lemma_set_difference_len(a, b);
}

/// Soundness of [`Area::difference`]: whenever one placement of mines agrees
/// with both areas, the range computed for `a \ b` is a non-empty range of
/// non-negative counts, no larger than the number of positions in `a \ b`, and
/// it holds the number of mines that placement puts on `a \ b`.
pub proof fn lemma_difference_sound(a: Area, b: Area, mines: Set<Position>)
    requires
        a.admits(mines),
        b.admits(mines),
    ensures
        0 <= a.difference_min(&b) <= a.difference_max(&b) <= a.cells().difference(b.cells()).len(),
        a.difference_min(&b) <= mines.intersect(a.cells().difference(b.cells())).len()
            <= a.difference_max(&b),
{
    let (sa, sb) = (a.cells(), b.cells());
    lemma_mines_split(mines, sa, sb);
    lemma_mines_split(mines, sb, sa);
    assert(sb.intersect(sa) =~= sa.intersect(sb));
}

/// Soundness of [`Area::intersection`]: whenever one placement of mines
/// agrees with both areas, the range computed for `a ∩ b` is a non-empty
/// range of non-negative counts, no larger than the number of shared
/// positions, and it holds the number of mines that placement puts on them.
pub proof fn lemma_intersection_sound(a: Area, b: Area, mines: Set<Position>)
    requires
        a.admits(mines),
        b.admits(mines),
    ensures
        0 <= a.intersection_min(&b) <= a.intersection_max(&b) <= a.shared(&b),
        a.intersection_min(&b) <= mines.intersect(a.cells().intersect(b.cells())).len()
            <= a.intersection_max(&b),
{
    let (sa, sb) = (a.cells(), b.cells());
    lemma_mines_split(mines, sa, sb);
    lemma_mines_split(mines, sb, sa);
    assert(sb.intersect(sa) =~= sa.intersect(sb));
}

/// A deduced action is safe: when some placement of mines agrees with the
/// area, `Open` means that placement puts no mine on it and `Flag` means it
/// puts a mine on every position.
pub proof fn lemma_next_action_sound(a: Area, mines: Set<Position>)
    requires
        a.admits(mines),
    ensures
        a.spec_next_action() == Some(AreaAction::Open) ==> mines.intersect(a.cells()).is_empty(),
        a.spec_next_action() == Some(AreaAction::Flag) ==> a.cells().subset_of(mines),
{
    let m = mines.intersect(a.cells());
    vstd::set_lib::lemma_len_subset(m, a.cells());
    if a.spec_next_action() == Some(AreaAction::Open) {
        assert(m.len() == 0);
        assert(m =~= Set::empty()) by {
            if exists|q: Position| m.contains(q) {
                let q = choose|q: Position| m.contains(q);
                assert(m.remove(q).len() < m.len());
            }
        }
    }
    if a.spec_next_action() == Some(AreaAction::Flag) {
        vstd::set_lib::lemma_subset_equality(m, a.cells());
    }
}

} // verus!
