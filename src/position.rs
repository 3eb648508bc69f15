//! Grid coordinates, their row-major index and their bounded neighborhood.

use vstd::arithmetic::div_mod::{lemma_fundamental_div_mod, lemma_fundamental_div_mod_converse};
use vstd::prelude::*;
use vstd::std_specs::convert::FromSpecImpl;

verus! {

/// Stores 2-dimensional non-negative coordinates in uniform grid space.
#[derive(Debug, Clone, Copy, PartialEq, Eq, Structural, Hash)]
pub struct Position {
    pub x: usize,
    pub y: usize,
}

/// Appends the position `(x, y)` to `s` when it lies inside a `w` by `h` grid.
pub open spec fn push_if_inside(s: Seq<Position>, x: int, y: int, w: int, h: int) -> Seq<Position> {
    if 0 <= x < w && 0 <= y < h {
        s.push(Position { x: x as usize, y: y as usize })
    } else {
        s
    }
}

impl Position {
    pub open spec fn in_bounds(self, width: int, height: int) -> bool {
        self.x < width && self.y < height
    }

    pub open spec fn index_of(self, width: int) -> int {
        self.y * width + self.x
    }

    /// The two positions differ and are at most one step apart on each axis.
    pub open spec fn adjacent(self, other: Position) -> bool {
        &&& self != other
        &&& -1 <= other.x - self.x <= 1
        &&& -1 <= other.y - self.y <= 1
    }

    /// The in-bounds neighbors in row-major order, starting at offset (-1, -1).
    pub open spec fn neighbor_seq(self, width: int, height: int) -> Seq<Position> {
        let (x, y) = (self.x as int, self.y as int);
        let s = Seq::empty();
        let s = push_if_inside(s, x - 1, y - 1, width, height);
        let s = push_if_inside(s, x, y - 1, width, height);
        let s = push_if_inside(s, x + 1, y - 1, width, height);
        let s = push_if_inside(s, x - 1, y, width, height);
        let s = push_if_inside(s, x + 1, y, width, height);
        let s = push_if_inside(s, x - 1, y + 1, width, height);
        let s = push_if_inside(s, x, y + 1, width, height);
        push_if_inside(s, x + 1, y + 1, width, height)
    }

    /// Creates a new position at given x and y coordinates.
    pub fn new(x: usize, y: usize) -> (r: Self)
        ensures
            r.x == x,
            r.y == y,
    {
        Self { x, y }
    }

    /// Converts an index into a position in row-major order, where `width` is
    /// the width of each row.
    pub fn from_index(index: usize, width: usize) -> (r: Self)
        requires
            width > 0,
        ensures
            r.x == index % width,
            r.y == index / width,
    {
        Self { x: index % width, y: index / width }
    }

    /// Converts the position into its index in row-major order.
    pub fn to_index(self, width: usize) -> (r: usize)
        requires
            self.index_of(width as int) <= usize::MAX,
        ensures
            r == self.index_of(width as int),
    {
        self.y * width + self.x
    }

    /// Returns the neighbor positions inside the `width` by `height` grid, in
    /// row-major order starting at the lower bound of the coordinates.
    pub fn neighbors(self, width: usize, height: usize) -> (r: Vec<Position>)
        ensures
            r@ == self.neighbor_seq(width as int, height as int),
            r@.no_duplicates(),
            r@.len() <= 8,
            forall|q: Position|
                r@.contains(q) <==> self.adjacent(q) && q.in_bounds(width as int, height as int),
    {
        let mut out: Vec<Position> = Vec::new();
        push_neighbor(&mut out, self, -1, -1, width, height);
        push_neighbor(&mut out, self, 0, -1, width, height);
        push_neighbor(&mut out, self, 1, -1, width, height);
        push_neighbor(&mut out, self, -1, 0, width, height);
        push_neighbor(&mut out, self, 1, 0, width, height);
        push_neighbor(&mut out, self, -1, 1, width, height);
        push_neighbor(&mut out, self, 0, 1, width, height);
        push_neighbor(&mut out, self, 1, 1, width, height);
        proof {
            lemma_neighbor_seq(self, width as int, height as int);
        }
        out
    }
}

impl Default for Position {
    fn default() -> (r: Self)
        ensures
            r.x == 0,
            r.y == 0,
    {
        Self { x: 0, y: 0 }
    }
}

impl From<(usize, usize)> for Position {
    /// Converts a pair of x and y coordinates into a position.
    fn from(xy: (usize, usize)) -> (r: Self) {
        Self { x: xy.0, y: xy.1 }
    }
}

impl FromSpecImpl<(usize, usize)> for Position {
    open spec fn obeys_from_spec() -> bool {
        true
    }

    open spec fn from_spec(xy: (usize, usize)) -> Position {
        Position { x: xy.0, y: xy.1 }
    }
}

/// The coordinate `c + d` when it lies in `0..bound`.
fn shifted(c: usize, d: i8, bound: usize) -> (r: Option<usize>)
    requires
        -1 <= d <= 1,
    ensures
        r == (if 0 <= c + d < bound {
            Some((c + d) as usize)
        } else {
            None::<usize>
        }),
{
    if d < 0 {
        if c >= 1 && c - 1 < bound {
            Some(c - 1)
        } else {
            None
        }
    } else if d == 0 {
        if c < bound {
            Some(c)
        } else {
            None
        }
    } else {
        if c < bound && c + 1 < bound {
            Some(c + 1)
        } else {
            None
        }
    }
}

fn push_neighbor(out: &mut Vec<Position>, p: Position, dx: i8, dy: i8, width: usize, height: usize)
    requires
        -1 <= dx <= 1,
        -1 <= dy <= 1,
    ensures
        final(out)@ == push_if_inside(old(out)@, p.x + dx, p.y + dy, width as int, height as int),
{
    match (shifted(p.x, dx, width), shifted(p.y, dy, height)) {
        (Some(x), Some(y)) => out.push(Position { x, y }),
        _ => {},
    }
}

proof fn lemma_push_if_inside(s: Seq<Position>, x: int, y: int, w: int, h: int)
    requires
        w <= usize::MAX,
        h <= usize::MAX,
    ensures
        forall|q: Position|
            #[trigger] push_if_inside(s, x, y, w, h).contains(q) <==> s.contains(q) || (0 <= x < w && 0 <= y
                < h && q.x == x && q.y == y),
        s.no_duplicates() && (forall|q: Position| s.contains(q) ==> !(q.x == x && q.y == y))
            ==> push_if_inside(s, x, y, w, h).no_duplicates(),
        push_if_inside(s, x, y, w, h).len() <= s.len() + 1,
{
    let r = push_if_inside(s, x, y, w, h);
    if 0 <= x < w && 0 <= y < h {
        let e = Position { x: x as usize, y: y as usize };
        assert(r == s.push(e));
        assert(r[s.len() as int] == e);
        assert forall|q: Position| r.contains(q) implies s.contains(q) || (q.x == x && q.y == y) by {
            let i = choose|i: int| 0 <= i < r.len() && r[i] == q;
            if i < s.len() {
                assert(s[i] == q);
            }
        }
        assert forall|q: Position| s.contains(q) || (q.x == x && q.y == y) implies r.contains(q) by {
            if q.x == x && q.y == y {
                assert(q == e);
                assert(r[s.len() as int] == q);
            } else {
                let i = choose|i: int| 0 <= i < s.len() && s[i] == q;
                assert(r[i] == q);
            }
        }
        if s.no_duplicates() && (forall|q: Position| s.contains(q) ==> !(q.x == x && q.y == y)) {
            assert forall|i: int, j: int| 0 <= i < r.len() && 0 <= j < r.len() && i != j implies r[i]
                != r[j] by {
                if i == s.len() {
                    assert(s.contains(r[j]));
                } else if j == s.len() {
                    assert(s.contains(r[i]));
                }
            }
        }
    }
}

/// The index of an in-bounds position lies below `width * height`, and the
/// position is read back from it by remainder and quotient.
pub proof fn lemma_index_of(p: Position, width: int, height: int)
    requires
        p.in_bounds(width, height),
    ensures
        0 <= p.index_of(width) < width * height,
        p.index_of(width) % width == p.x,
        p.index_of(width) / width == p.y,
{
    lemma_fundamental_div_mod_converse(p.index_of(width), width, p.y as int, p.x as int);
    let (x, y) = (p.x as int, p.y as int);
    assert(0 <= y * width + x < width * height) by (nonlinear_arith)
        requires
            0 <= x < width,
            0 <= y < height,
    ;
}

/// Every index below `width * height` is the index of the in-bounds position
/// given by its remainder and quotient.
pub proof fn lemma_from_index(i: int, width: int, height: int)
    requires
        0 <= i < width * height,
        width > 0,
    ensures
        0 <= i % width < width,
        0 <= i / width < height,
        (i / width) * width + i % width == i,
{
    lemma_fundamental_div_mod(i, width);
    let (q, r) = (i / width, i % width);
    assert(q * width == width * q) by (nonlinear_arith);
    assert(q < height) by (nonlinear_arith)
        requires
            i == width * q + r,
            0 <= r < width,
            i < width * height,
            width > 0,
    ;
    assert(q >= 0) by (nonlinear_arith)
        requires
            i == width * q + r,
            0 <= r < width,
            i >= 0,
            width > 0,
    ;
}

/// Distinct in-bounds positions have distinct indices.
pub proof fn lemma_index_injective(p: Position, q: Position, width: int, height: int)
    requires
        p.in_bounds(width, height),
        q.in_bounds(width, height),
    ensures
        p.index_of(width) == q.index_of(width) <==> p == q,
{
    lemma_index_of(p, width, height);
    lemma_index_of(q, width, height);
}

/// Membership, distinctness and size of the neighbor sequence.
pub proof fn lemma_neighbor_seq(p: Position, width: int, height: int)
    requires
        width <= usize::MAX,
        height <= usize::MAX,
    ensures
        p.neighbor_seq(width, height).no_duplicates(),
        p.neighbor_seq(width, height).len() <= 8,
        forall|q: Position|
            p.neighbor_seq(width, height).contains(q) <==> p.adjacent(q) && q.in_bounds(width, height),
{
    let (x, y) = (p.x as int, p.y as int);
    let s0 = Seq::<Position>::empty();
    let s1 = push_if_inside(s0, x - 1, y - 1, width, height);
    let s2 = push_if_inside(s1, x, y - 1, width, height);
    let s3 = push_if_inside(s2, x + 1, y - 1, width, height);
    let s4 = push_if_inside(s3, x - 1, y, width, height);
    let s5 = push_if_inside(s4, x + 1, y, width, height);
    let s6 = push_if_inside(s5, x - 1, y + 1, width, height);
    let s7 = push_if_inside(s6, x, y + 1, width, height);
    let s8 = p.neighbor_seq(width, height);
    lemma_push_if_inside(s0, x - 1, y - 1, width, height);
    lemma_push_if_inside(s1, x, y - 1, width, height);
    assert(s2.no_duplicates());
    lemma_push_if_inside(s2, x + 1, y - 1, width, height);
    assert(s3.no_duplicates());
    lemma_push_if_inside(s3, x - 1, y, width, height);
    assert(s4.no_duplicates());
    lemma_push_if_inside(s4, x + 1, y, width, height);
    assert(s5.no_duplicates());
    lemma_push_if_inside(s5, x - 1, y + 1, width, height);
    assert(s6.no_duplicates());
    lemma_push_if_inside(s6, x, y + 1, width, height);
    assert(s7.no_duplicates());
    lemma_push_if_inside(s7, x + 1, y + 1, width, height);
    assert(s8.no_duplicates());
    assert forall|q: Position| s8.contains(q) implies p.adjacent(q) && q.in_bounds(width, height) by {
        let _ = (s1.contains(q), s2.contains(q), s3.contains(q), s4.contains(q));
        let _ = (s5.contains(q), s6.contains(q), s7.contains(q), s8.contains(q));
    }
    assert forall|q: Position| p.adjacent(q) && q.in_bounds(width, height) implies s8.contains(q) by {
        assert(q.x != p.x || q.y != p.y);
        if q.y + 1 == y {
            if q.x + 1 == x {
                assert(s1.contains(q));
            } else if q.x == x {
                assert(s2.contains(q));
            } else {
                assert(s3.contains(q));
            }
        } else if q.y == y {
            if q.x + 1 == x {
                assert(s4.contains(q));
            } else {
                assert(s5.contains(q));
            }
        } else {
            if q.x + 1 == x {
                assert(s6.contains(q));
            } else if q.x == x {
                assert(s7.contains(q));
            } else {
                assert(s8.contains(q));
            }
        }
    }
}

} // verus!
