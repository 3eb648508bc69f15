//! The board: seeded placement of mines and counts, opening (with cascade) and
//! flagging of tiles, and the area of closed tiles around a clue.

use vstd::prelude::*;

use crate::area::{Area, MineCount, sat_sub};
use crate::position::{lemma_from_index, lemma_index_injective, lemma_index_of, Position};
use crate::tile::{lemma_tile_eq, State, Tile, Value};

verus! {

broadcast use vstd::seq_lib::lemma_seq_contains_after_push;

/// A seed for the stable generation of a board.
#[derive(Debug, Clone, Copy)]
pub struct Seed(u64);

impl Seed {
    pub closed spec fn spec_value(&self) -> u64 {
        self.0
    }

    /// The seed in the most significant 64 bits of a 128-bit value.
    pub open spec fn spec_to_u128(&self) -> u128 {
        (self.spec_value() as int * 0x1_0000_0000_0000_0000) as u128
    }

    pub fn new(seed: u64) -> (r: Self)
        ensures
            r.spec_value() == seed,
    {
        Self(seed)
    }

    /// Returns the seed as `u128`, filling the most significant 64 bits.
    pub fn to_u128(&self) -> (r: u128)
        ensures
            r == self.spec_to_u128(),
            r as int == self.spec_value() as int * 0x1_0000_0000_0000_0000,
    {
        (self.0 as u128) * 0x1_0000_0000_0000_0000
    }
}

/// Parameters for generating a [`Board`]. Two boards with the same settings
/// are the same.
#[derive(Debug, Clone, Copy)]
pub struct GenerationSettings {
    pub seed: Seed,
    pub width: usize,
    pub height: usize,
    pub mine_count: usize,
    pub start_pos: Position,
}

/// Why a board could not be generated.
#[derive(Debug, Clone, Copy, PartialEq, Eq, Structural)]
pub enum BoardError {
    /// The mine count is not below the number of tiles.
    InvalidConfiguration,
}

/// The indices that a `Pcg64Mcg` generator seeded with `seed` draws through
/// `rand::seq::index::sample(rng, length, amount)`, in the order drawn.
pub uninterp spec fn sampled_indices(seed: u128, length: usize, amount: usize) -> Seq<usize>;

/// Relies on `rand_pcg::Pcg64Mcg::new`, whose state is a function of `seed`
/// alone, and on `rand::seq::index::sample`, which draws exactly `amount`
/// distinct indices from `0..length`. It panics when `amount > length`, and
/// its rejection sampler (taken for lengths above `u32::MAX`) asserts
/// `amount < length` in debug builds, so the draw asks for fewer indices than
/// there are.
#[verifier::external_body]
fn sample_indices(seed: u128, length: usize, amount: usize) -> (r: Vec<usize>)
    requires
        amount < length,
    ensures
        r@ == sampled_indices(seed, length, amount),
        r@.len() == amount,
        r@.no_duplicates(),
        forall|i: int| 0 <= i < r@.len() ==> r@[i] < length,
{
    let mut rng = rand_pcg::Pcg64Mcg::new(seed);
    rand::seq::index::sample(&mut rng, length, amount).into_vec()
}

/// How many of the eight cells around `(x, y)` are marked.
pub open spec fn count_around(marked: spec_fn(int, int) -> bool, x: int, y: int) -> int {
    (if marked(x - 1, y - 1) { 1int } else { 0 }) + (if marked(x, y - 1) { 1int } else { 0 }) + (
    if marked(x + 1, y - 1) { 1int } else { 0 }) + (if marked(x - 1, y) { 1int } else { 0 }) + (
    if marked(x + 1, y) { 1int } else { 0 }) + (if marked(x - 1, y + 1) { 1int } else { 0 }) + (
    if marked(x, y + 1) { 1int } else { 0 }) + (if marked(x + 1, y + 1) { 1int } else { 0 })
}

/// `(a, b)` is one of the eight cells around `(x, y)`.
pub open spec fn around(x: int, y: int, a: int, b: int) -> bool {
    &&& !(a == x && b == y)
    &&& -1 <= a - x <= 1
    &&& -1 <= b - y <= 1
}

/// The cell `(x, y)` of a `width` by `height` grid has its index in `s`.
pub open spec fn in_sample(s: Seq<usize>, width: int, height: int, x: int, y: int) -> bool {
    0 <= x < width && 0 <= y < height && s.contains((y * width + x) as usize)
}

/// How many cells around `(x, y)` have their index in `s`.
pub open spec fn drawn_around(s: Seq<usize>, width: int, height: int, x: int, y: int) -> int {
    count_around(|a: int, b: int| in_sample(s, width, height, a, b), x, y)
}

/// Drawing one more cell `(a, b)` adds one to the count of each cell around
/// it, which counted at most seven before.
proof fn lemma_drawn_around_mark(
    prev: Seq<usize>,
    next: Seq<usize>,
    width: int,
    height: int,
    x: int,
    y: int,
    a: int,
    b: int,
)
    requires
        forall|u: int, v: int|
            #[trigger] in_sample(next, width, height, u, v) == (in_sample(prev, width, height, u, v)
                || (u == a && v == b)),
        !in_sample(prev, width, height, a, b),
    ensures
        drawn_around(next, width, height, x, y) == drawn_around(prev, width, height, x, y) + (if around(
            x,
            y,
            a,
            b,
        ) {
            1int
        } else {
            0
        }),
        0 <= drawn_around(prev, width, height, x, y) <= 8,
        around(x, y, a, b) ==> drawn_around(prev, width, height, x, y) <= 7,
{
    let _ = (
        in_sample(next, width, height, x - 1, y - 1),
        in_sample(next, width, height, x, y - 1),
        in_sample(next, width, height, x + 1, y - 1),
        in_sample(next, width, height, x - 1, y),
    );
    let _ = (
        in_sample(next, width, height, x + 1, y),
        in_sample(next, width, height, x - 1, y + 1),
        in_sample(next, width, height, x, y + 1),
        in_sample(next, width, height, x + 1, y + 1),
    );
}

/// `tiles` is a closed `width` by `height` grid whose mines are the tiles
/// with their index in `s` and whose other tiles count the mines around them.
pub open spec fn laid_out(tiles: Seq<Tile>, s: Seq<usize>, width: int, height: int) -> bool {
    &&& tiles.len() == width * height
    &&& forall|i: int|
        0 <= i < width * height ==> (#[trigger] tiles[i]).state() == State::Closed && (
        tiles[i].value() is Mine <==> s.contains(i as usize))
    &&& forall|p: Position|
        p.in_bounds(width, height) && !s.contains(p.index_of(width) as usize) ==> (#[trigger] tiles[p.index_of(
            width,
        )]).value() == Value::Near(drawn_around(s, width, height, p.x as int, p.y as int) as u8)
}

/// Puts a mine on tile `idx` and counts it on every tile around it.
fn place_mine(tiles: &mut Vec<Tile>, idx: usize, width: usize, height: usize, Ghost(prev): Ghost<Seq<usize>>)
    requires
        width > 0,
        width * height <= usize::MAX,
        idx < width * height,
        !prev.contains(idx),
        laid_out(old(tiles)@, prev, width as int, height as int),
    ensures
        laid_out(final(tiles)@, prev.push(idx), width as int, height as int),
{
    let ghost (w, h) = (width as int, height as int);
    let ghost next = prev.push(idx);
    tiles[idx] = Tile::with_value(Value::Mine);
    let m = Position::from_index(idx, width);
    proof {
        lemma_from_index(idx as int, w, h);
        lemma_index_of(m, w, h);
        assert forall|u: int, v: int|
            #[trigger] in_sample(next, w, h, u, v) == (in_sample(prev, w, h, u, v) || (u == m.x && v
                == m.y)) by {
            if 0 <= u < w && 0 <= v < h {
                let q = Position { x: u as usize, y: v as usize };
                lemma_index_injective(q, m, w, h);
                lemma_index_of(q, w, h);
            }
        }
    }
    let nbrs = m.neighbors(width, height);
    assert(nbrs@.subrange(0, 0) =~= Seq::<Position>::empty());
    assert forall|p: Position| p.in_bounds(w, h) && !next.contains(p.index_of(w) as usize) implies (#[trigger] tiles@[p.index_of(
        w,
    )]).value() == Value::Near(
        (drawn_around(prev, w, h, p.x as int, p.y as int) + if nbrs@.subrange(0, 0).contains(p) {
            1int
        } else {
            0
        }) as u8,
    ) by {
        lemma_index_of(p, w, h);
    }
    let mut t: usize = 0;
    while t < nbrs.len()
        invariant
            w == width,
            h == height,
            w > 0,
            w * h <= usize::MAX,
            tiles@.len() == w * h,
            m.in_bounds(w, h),
            m.index_of(w) == idx,
            nbrs@.no_duplicates(),
            forall|q: Position| #[trigger] nbrs@.contains(q) <==> m.adjacent(q) && q.in_bounds(w, h),
            t <= nbrs@.len(),
            !in_sample(prev, w, h, m.x as int, m.y as int),
            forall|u: int, v: int|
                #[trigger] in_sample(next, w, h, u, v) == (in_sample(prev, w, h, u, v) || (u == m.x
                    && v == m.y)),
            forall|j: int|
                0 <= j < w * h ==> (#[trigger] tiles@[j]).state() == State::Closed && (
                tiles@[j].value() is Mine <==> next.contains(j as usize)),
            forall|p: Position|
                p.in_bounds(w, h) && !next.contains(p.index_of(w) as usize) ==> (#[trigger] tiles@[p.index_of(
                    w,
                )]).value() == Value::Near(
                    (drawn_around(prev, w, h, p.x as int, p.y as int) + if nbrs@.subrange(
                        0,
                        t as int,
                    ).contains(p) {
                        1int
                    } else {
                        0
                    }) as u8,
                ),
        decreases nbrs@.len() - t,
    {
        let q = nbrs[t];
        assert(nbrs@.contains(q));
        proof {
            lemma_index_of(q, w, h);
        }
        let j = q.to_index(width);
        assert(!nbrs@.subrange(0, t as int).contains(q)) by {
            if nbrs@.subrange(0, t as int).contains(q) {
                let l = choose|l: int| 0 <= l < t && nbrs@.subrange(0, t as int)[l] == q;
                assert(nbrs@[l] == nbrs@[t as int]);
            }
        }
        proof {
            lemma_drawn_around_mark(prev, next, w, h, q.x as int, q.y as int, m.x as int, m.y as int);
            assert(tiles@[j as int].value() is Near ==> !next.contains(j));
        }
        tiles[j].increment_value();
        let ghost done = nbrs@.subrange(0, t + 1);
        assert(done =~= nbrs@.subrange(0, t as int).push(q));
        proof {
            assert forall|p: Position|
                p.in_bounds(w, h) && !next.contains(p.index_of(w) as usize) implies (#[trigger] tiles@[p.index_of(
                    w,
                )]).value() == Value::Near(
                    (drawn_around(prev, w, h, p.x as int, p.y as int) + if done.contains(p) {
                        1int
                    } else {
                        0
                    }) as u8,
                ) by {
                lemma_index_of(p, w, h);
                lemma_index_injective(p, q, w, h);
            }
        }
        t += 1;
    }
    proof {
        assert(nbrs@.subrange(0, t as int) =~= nbrs@);
        assert forall|p: Position|
            p.in_bounds(w, h) && !next.contains(p.index_of(w) as usize) implies (#[trigger] tiles@[p.index_of(
                w,
            )]).value() == Value::Near(drawn_around(next, w, h, p.x as int, p.y as int) as u8) by {
            lemma_drawn_around_mark(prev, next, w, h, p.x as int, p.y as int, m.x as int, m.y as int);
            assert(around(p.x as int, p.y as int, m.x as int, m.y as int) <==> m.adjacent(p));
        }
    }
}

/// The number of `true` entries of `s`.
spec fn count_true(s: Seq<bool>) -> nat
    decreases s.len(),
{
    if s.len() == 0 {
        0
    } else {
        count_true(s.drop_last()) + if s.last() {
            1nat
        } else {
            0
        }
    }
}

proof fn lemma_count_true_bound(s: Seq<bool>)
    ensures
        count_true(s) <= s.len(),
    decreases s.len(),
{
    if s.len() > 0 {
        lemma_count_true_bound(s.drop_last());
    }
}

proof fn lemma_count_true_set(s: Seq<bool>, k: int)
    requires
        0 <= k < s.len(),
        !s[k],
    ensures
        count_true(s.update(k, true)) == count_true(s) + 1,
    decreases s.len(),
{
    if k == s.len() - 1 {
        assert(s.update(k, true).drop_last() =~= s.drop_last());
    } else {
        assert(s.update(k, true).drop_last() =~= s.drop_last().update(k, true));
        lemma_count_true_set(s.drop_last(), k);
    }
}

/// The tiles of a board, row by row, and the board's width.
#[derive(Debug)]
pub struct Board {
    tiles: Vec<Tile>,
    width: usize,
}

impl Board {
    pub closed spec fn tiles_view(&self) -> Seq<Tile> {
        self.tiles@
    }

    pub closed spec fn spec_width(&self) -> usize {
        self.width
    }

    pub open spec fn spec_height(&self) -> usize {
        if self.width() == 0 {
            0
        } else {
            (self.tiles_view().len() / self.width() as nat) as usize
        }
    }

    /// The tiles fill whole rows.
    pub open spec fn is_rectangular(&self) -> bool {
        self.tiles_view().len() == self.width() * self.height()
    }

    /// `p` lies on the board.
    pub open spec fn holds(&self, p: Position) -> bool {
        p.in_bounds(self.width() as int, self.height() as int)
    }

    pub open spec fn tile_at(&self, p: Position) -> Tile {
        self.tiles_view()[p.index_of(self.width() as int)]
    }

    pub open spec fn is_mine_at(&self, x: int, y: int) -> bool {
        &&& 0 <= x < self.width()
        &&& 0 <= y < self.height()
        &&& self.tiles_view()[y * self.width() + x].value() is Mine
    }

    /// The number of mines around `p`.
    pub open spec fn mines_around(&self, p: Position) -> int {
        count_around(|x: int, y: int| self.is_mine_at(x, y), p.x as int, p.y as int)
    }

    /// Every count on the board is the number of mines around its tile.
    pub open spec fn numbers_consistent(&self) -> bool {
        forall|p: Position|
            self.holds(p) ==> ((#[trigger] self.tile_at(p)).value() matches Value::Near(n) ==> n
                == self.mines_around(p))
    }

    /// The indices of the tiles that hold a mine.
    pub open spec fn mine_indices(&self) -> Set<usize> {
        Set::new(|i: usize| i < self.tiles_view().len() && self.tiles_view()[i as int].value() is Mine)
    }

    /// The board is the one `settings` describe: the tiles whose indices
    /// were drawn from the seed hold mines, every other tile counts the drawn
    /// cells around it, and every tile is closed.
    pub open spec fn is_generated_from(&self, settings: GenerationSettings) -> bool {
        let (w, h) = (settings.width as int, settings.height as int);
        &&& self.width() == settings.width
        &&& laid_out(
            self.tiles_view(),
            sampled_indices(settings.seed.spec_to_u128(), (w * h) as usize, settings.mine_count),
            w,
            h,
        )
    }

    /// The facts a generated board owes its callers, from what the draw of
    /// mine indices guarantees.
    proof fn lemma_generated_facts(&self, settings: GenerationSettings)
        requires
            self.is_generated_from(settings),
            settings.width > 0,
            settings.width * settings.height <= usize::MAX,
            ({
                let s = sampled_indices(
                    settings.seed.spec_to_u128(),
                    (settings.width * settings.height) as usize,
                    settings.mine_count,
                );
                &&& s.no_duplicates()
                &&& s.len() == settings.mine_count
                &&& forall|j: int| 0 <= j < s.len() ==> s[j] < settings.width * settings.height
            }),
        ensures
            self.height() == settings.height,
            self.is_rectangular(),
            self.numbers_consistent(),
            self.mine_indices().len() == settings.mine_count,
    {
        let (w, h) = (settings.width as int, settings.height as int);
        let s = sampled_indices(settings.seed.spec_to_u128(), (w * h) as usize, settings.mine_count);
        assert(w * h == h * w) by (nonlinear_arith);
        vstd::arithmetic::div_mod::lemma_fundamental_div_mod_converse(w * h, w, h, 0);
        assert forall|u: int, v: int| #[trigger] in_sample(s, w, h, u, v) == self.is_mine_at(u, v) by {
            if 0 <= u < w && 0 <= v < h {
                lemma_index_of(Position { x: u as usize, y: v as usize }, w, h);
                assert(self.tiles_view()[v * w + u].state() == State::Closed);
            }
        }
        assert forall|p: Position| self.holds(p) implies ((#[trigger] self.tile_at(p)).value() matches Value::Near(
            n,
        ) ==> n == self.mines_around(p)) by {
            lemma_index_of(p, w, h);
            assert(self.tiles_view()[p.index_of(w)].state() == State::Closed);
            let (x, y) = (p.x as int, p.y as int);
            let _ = (self.is_mine_at(x - 1, y - 1), self.is_mine_at(x, y - 1), self.is_mine_at(x + 1, y - 1));
            let _ = (self.is_mine_at(x - 1, y), self.is_mine_at(x + 1, y), self.is_mine_at(x - 1, y + 1));
            let _ = (self.is_mine_at(x, y + 1), self.is_mine_at(x + 1, y + 1));
            assert(drawn_around(s, w, h, x, y) == self.mines_around(p));
        }
        assert(self.mine_indices() =~= s.to_set()) by {
            assert forall|i: usize| self.mine_indices().contains(i) <==> s.contains(i) by {
                if s.contains(i) {
                    let j = choose|j: int| 0 <= j < s.len() && s[j] == i;
                    assert(self.tiles_view()[i as int].state() == State::Closed);
                }
                if i < self.tiles_view().len() {
                    assert(self.tiles_view()[i as int].state() == State::Closed);
                }
            }
        }
        s.unique_seq_to_set();
    }

    /// Generates a board from the settings' seed, width, height and mine
    /// count. Fails when the mine count is not below the number of tiles.
    pub fn new(settings: &GenerationSettings) -> (r: Result<Self, BoardError>)
        requires
            settings.width * settings.height <= usize::MAX,
        ensures
            r is Err <==> settings.mine_count >= settings.width * settings.height,
            r matches Err(e) ==> e == BoardError::InvalidConfiguration,
            r matches Ok(b) ==> {
                &&& b.is_generated_from(*settings)
                &&& b.height() == settings.height
                &&& b.is_rectangular()
                &&& b.numbers_consistent()
                &&& b.mine_indices().len() == settings.mine_count
            },
    {
        let width = settings.width;
        let height = settings.height;
        let size = width * height;
        if settings.mine_count >= size {
            return Err(BoardError::InvalidConfiguration);
        }
        let ghost (w, h) = (width as int, height as int);
        assert(w > 0) by (nonlinear_arith)
            requires
                size == w * h,
                size > 0,
                w >= 0,
        ;
        let mines = sample_indices(settings.seed.to_u128(), size, settings.mine_count);
        let ghost s = mines@;
        let mut tiles: Vec<Tile> = Vec::new();
        let mut i: usize = 0;
        while i < size
            invariant
                i <= size,
                tiles@.len() == i,
                forall|j: int|
                    0 <= j < i ==> (#[trigger] tiles@[j]).value() == Value::Near(0)
                        && tiles@[j].state() == State::Closed,
            decreases size - i,
        {
            tiles.push(Tile::default());
            i += 1;
        }
        proof {
            assert forall|p: Position| p.in_bounds(w, h) implies (#[trigger] tiles@[p.index_of(
                w,
            )]).value() == Value::Near(
                drawn_around(s.subrange(0, 0), w, h, p.x as int, p.y as int) as u8,
            ) by {
                lemma_index_of(p, w, h);
            }
        }
        let mut k: usize = 0;
        while k < mines.len()
            invariant
                w == width,
                h == height,
                w > 0,
                size == w * h,
                mines@ == s,
                s.no_duplicates(),
                forall|j: int| 0 <= j < s.len() ==> s[j] < size,
                k <= s.len(),
                laid_out(tiles@, s.subrange(0, k as int), w, h),
            decreases s.len() - k,
        {
            let idx = mines[k];
            let ghost prev = s.subrange(0, k as int);
            assert(s.subrange(0, k + 1) =~= prev.push(idx));
            assert(!prev.contains(idx)) by {
                if prev.contains(idx) {
                    let j = choose|j: int| 0 <= j < k && prev[j] == idx;
                    assert(s[j] == s[k as int]);
                }
            }
            place_mine(&mut tiles, idx, width, height, Ghost(prev));
            k += 1;
        }
        assert(s.subrange(0, k as int) =~= s);
        let board = Board { tiles, width };
        proof {
            board.lemma_generated_facts(*settings);
        }
        Ok(board)
    }

    /// Returns the width of the board.
    #[verifier::when_used_as_spec(spec_width)]
    pub fn width(&self) -> (r: usize)
        ensures
            r == self.width(),
    {
        self.width
    }

    /// Returns the height of the board: the number of whole rows of tiles.
    #[verifier::when_used_as_spec(spec_height)]
    pub fn height(&self) -> (r: usize)
        ensures
            r == self.height(),
    {
        if self.width == 0 {
            0
        } else {
            self.tiles.len() / self.width
        }
    }

    /// The position of the tile with index `i`.
    pub open spec fn position_of(&self, i: int) -> Position {
        Position { x: (i % self.width() as int) as usize, y: (i / self.width() as int) as usize }
    }

    /// The tiles on the board have their index below the number of tiles, and
    /// each index names one position.
    proof fn lemma_holds_index(&self, p: Position)
        requires
            self.holds(p),
        ensures
            0 <= p.index_of(self.width() as int) < self.tiles_view().len(),
            self.tiles_view().len() <= usize::MAX,
            self.position_of(p.index_of(self.width() as int)) == p,
    {
        let (w, h, n) = (self.width() as int, self.height() as int, self.tiles_view().len() as int);
        vstd::arithmetic::div_mod::lemma_fundamental_div_mod(n, w);
        vstd::arithmetic::div_mod::lemma_mod_pos_bound(n, w);
        vstd::arithmetic::div_mod::lemma_div_nonincreasing(n, w);
        vstd::arithmetic::div_mod::lemma_div_pos_is_pos(n, w);
        assert(n == self.tiles.len());
        assert(h == n / w);
        lemma_index_of(p, w, h);
        assert(w * h <= n);
    }

    /// A tile whose position lies on the board sits at that position's index.
    proof fn lemma_position_of(&self, i: int)
        requires
            0 <= i < self.tiles_view().len(),
            self.holds(self.position_of(i)),
        ensures
            self.position_of(i).index_of(self.width() as int) == i,
    {
        let w = self.width() as int;
        vstd::arithmetic::div_mod::lemma_fundamental_div_mod(i, w);
        vstd::arithmetic::div_mod::lemma_mod_pos_bound(i, w);
        vstd::arithmetic::div_mod::lemma_div_nonincreasing(i, w);
        vstd::arithmetic::div_mod::lemma_div_pos_is_pos(i, w);
        assert(self.tiles_view().len() == self.tiles.len());
        assert((i / w) * w == w * (i / w)) by (nonlinear_arith);
    }

    /// Returns the tile at `pos`, or `None` when `pos` is off the board.
    pub fn get_tile(&self, pos: Position) -> (r: Option<&Tile>)
        ensures
            r is Some <==> self.holds(pos),
            r matches Some(t) ==> *t == self.tile_at(pos),
    {
        if pos.x < self.width && pos.y < self.height() {
            proof {
                self.lemma_holds_index(pos);
            }
            Some(&self.tiles[pos.y * self.width + pos.x])
        } else {
            None
        }
    }

    /// Returns the tile at `pos` for changing it, or `None` when `pos` is off
    /// the board.
    pub fn get_tile_mut(&mut self, pos: Position) -> (r: Option<&mut Tile>)
        ensures
            r is Some <==> old(self).holds(pos),
            final(self).width() == old(self).width(),
            r matches Some(t) ==> *t == old(self).tile_at(pos) && final(self).tiles_view() == old(
                self,
            ).tiles_view().update(pos.index_of(old(self).width() as int), *final(t)),
            r is None ==> final(self).tiles_view() == old(self).tiles_view(),
    {
        if pos.x < self.width && pos.y < self.height() {
            proof {
                self.lemma_holds_index(pos);
            }
            let idx = pos.y * self.width + pos.x;
            Some(&mut self.tiles[idx])
        } else {
            None
        }
    }

    /// Opens the tile at `pos` if it is on the board and closed.
    fn open_tile(&mut self, pos: Position)
        ensures
            final(self).width() == old(self).width(),
            final(self).tiles_view().len() == old(self).tiles_view().len(),
            forall|i: int|
                0 <= i < old(self).tiles_view().len() ==> (#[trigger] final(self).tiles_view()[i]).value()
                    == old(self).tiles_view()[i].value() && final(self).tiles_view()[i].state() == if old(
                    self,
                ).holds(pos) && old(self).position_of(i) == pos {
                    old(self).tiles_view()[i].state().after_open()
                } else {
                    old(self).tiles_view()[i].state()
                },
    {
        if pos.x < self.width && pos.y < self.height() {
            proof {
                self.lemma_holds_index(pos);
                assert forall|i: int|
                    0 <= i < self.tiles_view().len() && self.position_of(i) == pos implies i
                    == pos.index_of(self.width() as int) by {
                    self.lemma_position_of(i);
                }
            }
            let idx = pos.y * self.width + pos.x;
            self.tiles[idx].open();
        }
    }

    /// Toggles the flag of the tile at `pos`; does nothing when `pos` is off
    /// the board.
    pub fn flag_from(&mut self, pos: Position)
        ensures
            final(self).width() == old(self).width(),
            final(self).tiles_view().len() == old(self).tiles_view().len(),
            forall|i: int|
                0 <= i < old(self).tiles_view().len() ==> (#[trigger] final(self).tiles_view()[i]).value()
                    == old(self).tiles_view()[i].value() && final(self).tiles_view()[i].state() == if old(
                    self,
                ).holds(pos) && old(self).position_of(i) == pos {
                    old(self).tiles_view()[i].state().after_toggle()
                } else {
                    old(self).tiles_view()[i].state()
                },
    {
        if pos.x < self.width && pos.y < self.height() {
            proof {
                self.lemma_holds_index(pos);
                assert forall|i: int|
                    0 <= i < self.tiles_view().len() && self.position_of(i) == pos implies i
                    == pos.index_of(self.width() as int) by {
                    self.lemma_position_of(i);
                }
            }
            let idx = pos.y * self.width + pos.x;
            self.tiles[idx].toggle_flag();
        }
    }

    /// Returns the neighbors of `pos` on the board, each with its tile, in
    /// row-major order.
    pub fn neighbors_tile_and_pos(&self, pos: Position) -> (r: Vec<(Position, Tile)>)
        ensures
            r@.len() == pos.neighbor_seq(self.width() as int, self.height() as int).len(),
            forall|i: int|
                0 <= i < r@.len() ==> (#[trigger] r@[i]).0 == pos.neighbor_seq(
                    self.width() as int,
                    self.height() as int,
                )[i] && r@[i].1 == self.tile_at(r@[i].0),
    {
        let nbrs = pos.neighbors(self.width, self.height());
        let mut out: Vec<(Position, Tile)> = Vec::new();
        let mut i: usize = 0;
        while i < nbrs.len()
            invariant
                nbrs@ == pos.neighbor_seq(self.width() as int, self.height() as int),
                forall|q: Position| #[trigger]
                    nbrs@.contains(q) <==> pos.adjacent(q) && self.holds(q),
                i <= nbrs@.len(),
                out@.len() == i,
                forall|j: int|
                    0 <= j < i ==> (#[trigger] out@[j]).0 == nbrs@[j] && out@[j].1 == self.tile_at(
                        out@[j].0,
                    ),
            decreases nbrs@.len() - i,
        {
            let q = nbrs[i];
            assert(nbrs@.contains(q));
            proof {
                self.lemma_holds_index(q);
            }
            out.push((q, self.tiles[q.y * self.width + q.x]));
            i += 1;
        }
        out
    }

    /// The closed tiles around `pos`.
    pub open spec fn closed_around(&self, pos: Position) -> Set<Position> {
        Set::new(|q: Position| pos.adjacent(q) && self.holds(q) && self.tile_at(q).state() == State::Closed)
    }

    /// The flagged tiles around `pos`.
    pub open spec fn flagged_around(&self, pos: Position) -> Set<Position> {
        Set::new(|q: Position| pos.adjacent(q) && self.holds(q) && self.tile_at(q).state() == State::Flag)
    }

    /// The range of mines among the closed tiles around `pos`: the count on
    /// the tile less the flags around it (flags are trusted), floored at zero;
    /// `0..=8` when `pos` is off the board or holds a mine.
    pub open spec fn clue_range(&self, pos: Position) -> (int, int) {
        if self.holds(pos) {
            match self.tile_at(pos).value() {
                Value::Near(v) => {
                    let c = sat_sub(v as int, self.flagged_around(pos).len() as int);
                    (c, c)
                },
                Value::Mine => (0, 8),
            }
        } else {
            (0, 8)
        }
    }

    /// Returns the closed tiles around `pos` as an [`Area`], with the number
    /// of mines they hold as far as the tile at `pos` tells.
    pub fn tile_neighbors_area(&self, pos: Position) -> (r: Area)
        ensures
            r.cells() == self.closed_around(pos),
            r.mine_count().min() == self.clue_range(pos).0,
            r.mine_count().max() == self.clue_range(pos).1,
    {
        let around = self.neighbors_tile_and_pos(pos);
        let ghost nbrs = pos.neighbor_seq(self.width() as int, self.height() as int);
        proof {
            crate::position::lemma_neighbor_seq(pos, self.width() as int, self.height() as int);
        }
        let mut flags: usize = 0;
        let ghost mut flagged = Set::<Position>::empty();
        let mut closed: Vec<Position> = Vec::new();
        let mut i: usize = 0;
        while i < around.len()
            invariant
                around@.len() == nbrs.len(),
                nbrs.len() <= 8,
                nbrs.no_duplicates(),
                forall|j: int|
                    0 <= j < around@.len() ==> (#[trigger] around@[j]).0 == nbrs[j] && around@[j].1
                        == self.tile_at(around@[j].0),
                i <= nbrs.len(),
                flagged.finite(),
                flags == flagged.len(),
                flags <= i,
                forall|q: Position|
                    flagged.contains(q) <==> nbrs.subrange(0, i as int).contains(q) && self.tile_at(
                        q,
                    ).state() == State::Flag,
                forall|q: Position|
                    closed@.contains(q) <==> nbrs.subrange(0, i as int).contains(q) && self.tile_at(
                        q,
                    ).state() == State::Closed,
            decreases nbrs.len() - i,
        {
            let (q, tile) = around[i];
            assert(nbrs.subrange(0, i + 1) =~= nbrs.subrange(0, i as int).push(q));
            assert(!nbrs.subrange(0, i as int).contains(q)) by {
                if nbrs.subrange(0, i as int).contains(q) {
                    let l = choose|l: int| 0 <= l < i && nbrs.subrange(0, i as int)[l] == q;
                    assert(nbrs[l] == nbrs[i as int]);
                }
            }
            match tile.state() {
                State::Flag => {
                    flags += 1;
                    proof {
                        flagged = flagged.insert(q);
                    }
                },
                State::Closed => {
                    closed.push(q);
                },
                State::Open => {},
            }
            i += 1;
        }
        proof {
            assert(nbrs.subrange(0, i as int) =~= nbrs);
            assert(flagged =~= self.flagged_around(pos));
            assert(closed@.to_set() =~= self.closed_around(pos));
        }
        let mine_count = match self.get_tile(pos) {
            Some(tile) => match tile.value() {
                Value::Near(v) => MineCount::from_exact((v as usize).saturating_sub(flags)),
                Value::Mine => MineCount::from_range(0, 8),
            },
            None => MineCount::from_range(0, 8),
        };
        Area::new(closed, mine_count)
    }

    /// `q` is a closed tile with no mine around it.
    pub open spec fn is_empty_closed(&self, q: Position) -> bool {
        &&& self.holds(q)
        &&& self.tile_at(q).value() == Value::Near(0)
        &&& self.tile_at(q).state() == State::Closed
    }

    /// `path` steps from tile to adjacent tile, and every tile after the first
    /// is empty and closed.
    pub open spec fn is_zero_path(&self, path: Seq<Position>) -> bool {
        &&& path.len() >= 1
        &&& forall|i: int|
            1 <= i < path.len() ==> path[i - 1].adjacent(#[trigger] path[i]) && self.is_empty_closed(
                path[i],
            )
    }

    /// `q` is reached from `start` through empty closed tiles.
    pub open spec fn zero_reachable(&self, start: Position, q: Position) -> bool {
        exists|path: Seq<Position>| #[trigger]
            self.is_zero_path(path) && path[0] == start && path.last() == q
    }

    /// `q` is opened by a cascade from `start`: `start` is closed, and `q` is
    /// `start`, or `start` counts no mine and `q` lies around a tile reached from `start` through
    /// empty closed tiles.
    pub open spec fn cascade_covers(&self, start: Position, q: Position) -> bool {
        &&& self.holds(start)
        &&& self.holds(q)
        &&& self.tile_at(start).state() == State::Closed
        &&& (q == start || (self.tile_at(start).value() == Value::Near(0) && exists|r: Position|
            #[trigger] self.zero_reachable(start, r) && r.adjacent(q)))
    }

    /// A set of tiles closed under steps to adjacent empty closed tiles holds
    /// every tile a path from one of its tiles reaches.
    proof fn lemma_path_stays(&self, area: Seq<Position>, path: Seq<Position>)
        requires
            self.is_zero_path(path),
            area.contains(path[0]),
            forall|a: Position, q: Position|
                #[trigger] area.contains(a) && #[trigger] a.adjacent(q) && self.is_empty_closed(q)
                    ==> area.contains(q),
        ensures
            area.contains(path.last()),
        decreases path.len(),
    {
        if path.len() > 1 {
            let prefix = path.drop_last();
            assert forall|i: int| 1 <= i < prefix.len() implies prefix[i - 1].adjacent(
                #[trigger] prefix[i],
            ) && self.is_empty_closed(prefix[i]) by {
                assert(path[i] == prefix[i]);
            }
            self.lemma_path_stays(area, prefix);
            let n = path.len() - 1;
            assert(path[n] == path.last());
            assert(path[n - 1].adjacent(path[n]) && self.is_empty_closed(path[n]));
        }
    }

    /// Returns the tiles reached from `pos` through empty closed tiles,
    /// `pos` included.
    fn empty_area(&self, pos: Position) -> (r: Vec<Position>)
        requires
            self.holds(pos),
        ensures
            forall|q: Position| #[trigger] r@.contains(q) <==> self.zero_reachable(pos, q),
            forall|q: Position| r@.contains(q) ==> self.holds(q),
    {
        let width = self.width;
        let height = self.height();
        let n = self.tiles.len();
        let ghost w = width as int;
        proof {
            self.lemma_holds_index(pos);
        }
        let mut processed: Vec<bool> = Vec::new();
        while processed.len() < n
            invariant
                processed@.len() <= n,
                count_true(processed@) == 0,
                forall|k: int| 0 <= k < processed@.len() ==> !#[trigger] processed@[k],
            decreases n - processed@.len(),
        {
            assert(processed@.push(false).drop_last() =~= processed@);
            processed.push(false);
        }
        let start = pos.y * width + pos.x;
        proof {
            lemma_count_true_set(processed@, start as int);
        }
        processed.set(start, true);
        let mut area: Vec<Position> = Vec::new();
        area.push(pos);
        proof {
            let path = seq![pos];
            assert(self.is_zero_path(path));
            assert(self.zero_reachable(pos, pos));
            assert forall|q: Position| self.holds(q) implies (processed@[q.index_of(w)]
                <==> area@.contains(q)) by {
                self.lemma_holds_index(q);
                lemma_index_injective(q, pos, w, height as int);
                if q == pos {
                    assert(area@[0] == q);
                }
            }
        }
        let mut i: usize = 0;
        while i < area.len()
            invariant
                width == self.width(),
                height == self.height(),
                w == width,
                n == self.tiles_view().len(),
                self.holds(pos),
                processed@.len() == n,
                area@.len() == count_true(processed@),
                area@.len() <= n,
                i <= area@.len(),
                area@.len() >= 1,
                area@[0] == pos,
                forall|j: int| 0 <= j < area@.len() ==> self.holds(#[trigger] area@[j]),
                forall|q: Position|
                    self.holds(q) ==> (processed@[q.index_of(w)] <==> #[trigger] area@.contains(q)),
                forall|j: int| 0 <= j < area@.len() ==> self.zero_reachable(pos, #[trigger] area@[j]),
                forall|j: int, q: Position|
                    0 <= j < i && (#[trigger] area@[j]).adjacent(q) && self.is_empty_closed(q)
                        ==> #[trigger] area@.contains(q),
            decreases n - i,
        {
            let p = area[i];
            let nbrs = p.neighbors(width, height);
            let mut t: usize = 0;
            while t < nbrs.len()
                invariant
                    width == self.width(),
                    height == self.height(),
                    w == width,
                    n == self.tiles_view().len(),
                    self.holds(pos),
                    processed@.len() == n,
                    area@.len() == count_true(processed@),
                    area@.len() <= n,
                    i < area@.len(),
                    area@[i as int] == p,
                    area@[0] == pos,
                    forall|q: Position| #[trigger]
                        nbrs@.contains(q) <==> p.adjacent(q) && q.in_bounds(w, height as int),
                    t <= nbrs@.len(),
                    forall|j: int| 0 <= j < area@.len() ==> self.holds(#[trigger] area@[j]),
                    forall|q: Position|
                        self.holds(q) ==> (processed@[q.index_of(w)] <==> #[trigger] area@.contains(
                            q,
                        )),
                    forall|j: int|
                        0 <= j < area@.len() ==> self.zero_reachable(pos, #[trigger] area@[j]),
                    forall|j: int, q: Position|
                        0 <= j < i && (#[trigger] area@[j]).adjacent(q) && self.is_empty_closed(q)
                            ==> #[trigger] area@.contains(q),
                    forall|l: int|
                        0 <= l < t && self.is_empty_closed(#[trigger] nbrs@[l]) ==> area@.contains(
                            nbrs@[l],
                        ),
                decreases nbrs@.len() - t,
            {
                let q = nbrs[t];
                assert(nbrs@.contains(q));
                proof {
                    self.lemma_holds_index(q);
                }
                let k = q.y * width + q.x;
                if !processed[k] {
                    let tile = self.tiles[k];
                    if tile.value() == Value::Near(0) && tile.state() == State::Closed {
                        proof {
                            lemma_count_true_set(processed@, k as int);
                            lemma_count_true_bound(processed@.update(k as int, true));
                            let path = choose|path: Seq<Position>|
                                #[trigger] self.is_zero_path(path) && path[0] == pos && path.last()
                                    == p;
                            let longer = path.push(q);
                            assert(longer[longer.len() - 2] == p);
                            assert(self.is_zero_path(longer));
                            assert(self.zero_reachable(pos, q));
                        }
                        processed.set(k, true);
                        area.push(q);
                        proof {
                            assert forall|r: Position| self.holds(r) implies (processed@[r.index_of(w)]
                                <==> #[trigger] area@.contains(r)) by {
                                self.lemma_holds_index(r);
                                lemma_index_injective(r, q, w, height as int);
                            }
                        }
                    }
                }
                t += 1;
            }
            i += 1;
        }
        proof {
            assert forall|a: Position, q: Position|
                #[trigger] area@.contains(a) && #[trigger] a.adjacent(q) && self.is_empty_closed(q)
                    implies area@.contains(q) by {
                let j = choose|j: int| 0 <= j < area@.len() && area@[j] == a;
            }
            assert forall|q: Position| #[trigger] area@.contains(q) <==> self.zero_reachable(pos, q) by {
                if self.zero_reachable(pos, q) {
                    let path = choose|path: Seq<Position>|
                        #[trigger] self.is_zero_path(path) && path[0] == pos && path.last() == q;
                    assert(area@.contains(area@[0]));
                    self.lemma_path_stays(area@, path);
                }
                if area@.contains(q) {
                    let j = choose|j: int| 0 <= j < area@.len() && area@[j] == q;
                }
            }
        }
        area
    }

    /// Tile `i` lies on the board and is `pos`, one of `seen` or around one of
    /// `seen`.
    spec fn touched(&self, i: int, pos: Position, seen: Seq<Position>) -> bool {
        let q = self.position_of(i);
        &&& self.holds(q)
        &&& (q == pos || exists|l: int|
            0 <= l < seen.len() && (#[trigger] seen[l] == q || seen[l].adjacent(q)))
    }

    /// Opens the closed tile at `pos`; when it counts no mine, also opens
    /// every tile reached from it through empty closed tiles and every tile
    /// around those. Flagged tiles stay flagged. Nothing happens when `pos` is
    /// off the board or its tile is not closed: an open tile is not opened
    /// again, and a flagged tile must be unflagged before it opens (a product
    /// decision: a flag guards its tile against opening).
    pub fn open_from(&mut self, pos: Position)
        ensures
            final(self).width() == old(self).width(),
            final(self).tiles_view().len() == old(self).tiles_view().len(),
            forall|i: int|
                0 <= i < old(self).tiles_view().len() ==> (#[trigger] final(self).tiles_view()[i]).value()
                    == old(self).tiles_view()[i].value() && final(self).tiles_view()[i].state() == if old(
                    self,
                ).cascade_covers(pos, old(self).position_of(i)) {
                    old(self).tiles_view()[i].state().after_open()
                } else {
                    old(self).tiles_view()[i].state()
                },
    {
        let ghost orig = *self;
        if !(pos.x < self.width && pos.y < self.height()) {
            return;
        }
        proof {
            self.lemma_holds_index(pos);
        }
        let idx = pos.y * self.width + pos.x;
        if self.tiles[idx].state() != State::Closed {
            return;
        }
        if self.tiles[idx].value() != Value::Near(0) {
            self.open_tile(pos);
            return;
        }
        let area = self.empty_area(pos);
        self.open_tile(pos);
        let mut j: usize = 0;
        assert(area@.subrange(0, 0) =~= Seq::<Position>::empty());
        while j < area.len()
            invariant
                self.width() == orig.width(),
                self.tiles_view().len() == orig.tiles_view().len(),
                j <= area@.len(),
                forall|q: Position| #[trigger] area@.contains(q) ==> orig.holds(q),
                forall|i: int|
                    0 <= i < orig.tiles_view().len() ==> (#[trigger] self.tiles_view()[i]).value()
                        == orig.tiles_view()[i].value() && self.tiles_view()[i].state() == if orig.touched(
                        i,
                        pos,
                        area@.subrange(0, j as int),
                    ) {
                        orig.tiles_view()[i].state().after_open()
                    } else {
                        orig.tiles_view()[i].state()
                    },
            decreases area@.len() - j,
        {
            let p = area[j];
            assert(area@.contains(p));
            let ghost seen = area@.subrange(0, j as int);
            let ghost more = area@.subrange(0, j + 1);
            assert(more =~= seen.push(p));
            self.open_tile(p);
            let nbrs = p.neighbors(self.width, self.height());
            let mut t: usize = 0;
            while t < nbrs.len()
                invariant
                    self.width() == orig.width(),
                    self.tiles_view().len() == orig.tiles_view().len(),
                    orig.holds(p),
                    forall|q: Position| #[trigger]
                        nbrs@.contains(q) <==> p.adjacent(q) && orig.holds(q),
                    t <= nbrs@.len(),
                    forall|i: int|
                        0 <= i < orig.tiles_view().len() ==> (#[trigger] self.tiles_view()[i]).value()
                            == orig.tiles_view()[i].value() && self.tiles_view()[i].state() == if orig.touched(
                            i,
                            pos,
                            seen,
                        ) || (orig.holds(orig.position_of(i)) && (orig.position_of(i) == p
                            || nbrs@.subrange(0, t as int).contains(orig.position_of(i)))) {
                            orig.tiles_view()[i].state().after_open()
                        } else {
                            orig.tiles_view()[i].state()
                        },
                decreases nbrs@.len() - t,
            {
                let q = nbrs[t];
                assert(nbrs@.subrange(0, t + 1) =~= nbrs@.subrange(0, t as int).push(q));
                assert(nbrs@.contains(q));
                self.open_tile(q);
                t += 1;
            }
            proof {
                assert(nbrs@.subrange(0, t as int) =~= nbrs@);
                assert forall|i: int| 0 <= i < orig.tiles_view().len() implies orig.touched(i, pos, more)
                    == (orig.touched(i, pos, seen) || (orig.holds(orig.position_of(i)) && (
                    orig.position_of(i) == p || nbrs@.contains(orig.position_of(i))))) by {
                    let q = orig.position_of(i);
                    if orig.touched(i, pos, more) && q != pos && !orig.touched(i, pos, seen) {
                        let l = choose|l: int|
                            0 <= l < more.len() && (#[trigger] more[l] == q || more[l].adjacent(q));
                        if l < j {
                            assert(seen[l] == more[l]);
                        }
                    }
                    if orig.touched(i, pos, seen) && q != pos {
                        let l = choose|l: int|
                            0 <= l < seen.len() && (#[trigger] seen[l] == q || seen[l].adjacent(q));
                        assert(seen[l] == more[l]);
                    }
                    if orig.holds(q) && (q == p || nbrs@.contains(q)) {
                        assert(more[j as int] == p);
                    }
                }
            }
            j += 1;
        }
        proof {
            assert(area@.subrange(0, j as int) =~= area@);
            assert forall|i: int| 0 <= i < orig.tiles_view().len() implies orig.touched(i, pos, area@)
                == orig.cascade_covers(pos, orig.position_of(i)) by {
                let q = orig.position_of(i);
                if orig.touched(i, pos, area@) && q != pos {
                    let l = choose|l: int|
                        0 <= l < area@.len() && (#[trigger] area@[l] == q || area@[l].adjacent(q));
                    let r = area@[l];
                    assert(area@.contains(r));
                    assert(orig.zero_reachable(pos, r));
                    if r == q {
                        let path = choose|path: Seq<Position>|
                            #[trigger] orig.is_zero_path(path) && path[0] == pos && path.last() == q;
                        let n = path.len() - 1;
                        assert(path[n] == q);
                        let prefix = path.drop_last();
                        assert forall|k: int| 1 <= k < prefix.len() implies prefix[k - 1].adjacent(
                            #[trigger] prefix[k],
                        ) && orig.is_empty_closed(prefix[k]) by {
                            assert(path[k] == prefix[k]);
                        }
                        assert(orig.is_zero_path(prefix));
                        assert(orig.zero_reachable(pos, path[n - 1]));
                        assert(path[n - 1].adjacent(q));
                    }
                }
                if orig.cascade_covers(pos, q) && q != pos {
                    let r = choose|r: Position| #[trigger] orig.zero_reachable(pos, r) && r.adjacent(q);
                    assert(area@.contains(r));
                    let l = choose|l: int| 0 <= l < area@.len() && area@[l] == r;
                    assert(area@[l].adjacent(q));
                }
            }
        }
    }
}

impl Default for Board {
    /// An empty board, zero tiles wide.
    fn default() -> (r: Self)
        ensures
            r.width() == 0,
            r.tiles_view().len() == 0,
    {
        Board { tiles: Vec::new(), width: 0 }
    }
}

impl Clone for Board {
    fn clone(&self) -> (r: Self)
        ensures
            r.width() == self.width(),
            r.tiles_view() == self.tiles_view(),
    {
        let tiles = self.tiles.clone();
        assert(tiles@ =~= self.tiles@);
        Board { tiles, width: self.width }
    }
}

/// Generation is deterministic: two boards generated from the same settings
/// have the same width and the same tiles.
pub proof fn lemma_generation_deterministic(a: &Board, b: &Board, settings: GenerationSettings)
    requires
        a.is_generated_from(settings),
        b.is_generated_from(settings),
    ensures
        a.width() == b.width(),
        a.tiles_view() == b.tiles_view(),
{
    let (w, h) = (settings.width as int, settings.height as int);
    let s = sampled_indices(settings.seed.spec_to_u128(), (w * h) as usize, settings.mine_count);
    assert forall|i: int| 0 <= i < a.tiles_view().len() implies a.tiles_view()[i] == b.tiles_view()[i] by {
        if w == 0 {
            assert(w * h == 0);
        }
        lemma_from_index(i, w, h);
        let p = Position { x: (i % w) as usize, y: (i / w) as usize };
        assert(p.index_of(w) == i);
        assert(a.tile_at(p) == a.tiles_view()[i]);
        assert(b.tile_at(p) == b.tiles_view()[i]);
        lemma_tile_eq(a.tiles_view()[i], b.tiles_view()[i]);
    }
    assert(a.tiles_view() =~= b.tiles_view());
}

} // verus!
