//! Random boards: isolated L-shaped obstacles, walls along the edges, and a
//! walled-off block of four tiles in the middle.
use vstd::prelude::*;
use vstd::set_lib::lemma_int_range;
use vstd::set_lib::lemma_len_subset;
use vstd::set_lib::set_int_range;
use crate::board::Board;
use crate::board::Direction;
use crate::board::step;
use crate::board::walk;
use crate::board::tile_of;
use crate::board::center_xy;
use crate::board::lemma_row_major;
use crate::board::lemma_coords_unique;
use crate::rng::Rng;
use vstd::arithmetic::div_mod::lemma_fundamental_div_mod_converse;

verus! {

/// How many obstacles a board gets.
pub const OBSTACLE_COUNT: usize = 16;

/// The smallest width and height that the edge walls fit in.
pub const MIN_SIDE: usize = 13;

#[derive(Clone, Copy, Debug, PartialEq, Eq, Structural)]
pub enum GenerateError {
    /// The board would be smaller than `MIN_SIDE` on a side, or have more
    /// tiles than a `usize` can number.
    InvalidDimensions,
}

/// The sizes that `Board::generate` accepts.
pub open spec fn valid_dimensions(width: int, height: int) -> bool {
    &&& width >= MIN_SIDE
    &&& height >= MIN_SIDE
    &&& width * height <= usize::MAX
}

/// Whether two cells touch, sides or corners, or are the same cell.
pub open spec fn touches(a: (usize, usize), b: (usize, usize)) -> bool {
    &&& -1 <= a.0 - b.0 <= 1
    &&& -1 <= a.1 - b.1 <= 1
}

/// Whether `c` is a tile of a `width` by `height` board off its edges.
pub open spec fn interior(width: int, height: int, c: (usize, usize)) -> bool {
    1 <= c.0 < width - 1 && 1 <= c.1 < height - 1
}

/// Whether `c` touches none of `cells`.
pub open spec fn apart_from(c: (usize, usize), cells: Seq<(usize, usize)>) -> bool {
    forall|m: int| 0 <= m < cells.len() ==> !touches(c, #[trigger] cells[m])
}

/// No two of `cells` touch, not even at a corner.
pub open spec fn isolated(cells: Seq<(usize, usize)>) -> bool {
    forall|m: int, n: int| 0 <= m < cells.len() && 0 <= n < cells.len() && m != n
        ==> !touches(#[trigger] cells[m], #[trigger] cells[n])
}

/// Cell `a` of sixteen fixed interior cells, three apart from each other:
/// an obstacle touches at most one of them, so fifteen obstacles cannot
/// cover them all and a free cell always remains.
spec fn anchor(a: int) -> (usize, usize) {
    ((1 + 3 * (a % 4)) as usize, (1 + 3 * (a / 4)) as usize)
}

spec fn anchor_taken(a: int, cells: Seq<(usize, usize)>) -> bool {
    exists|m: int| 0 <= m < cells.len() && touches(anchor(a), #[trigger] cells[m])
}

/// The wall below `(x, y)` is one of an obstacle of `cells`: the one above
/// or the one below it.
pub open spec fn obstacle_h(cells: Seq<(usize, usize)>, x: int, y: int) -> bool {
    exists|m: int| 0 <= m < cells.len() && (#[trigger] cells[m]).0 == x && (cells[m].1 - 1 == y || cells[m].1 == y)
}

/// The wall right of `(x, y)` is one of an obstacle of `cells`: the one to
/// its left or the one to its right.
pub open spec fn obstacle_v(cells: Seq<(usize, usize)>, x: int, y: int) -> bool {
    exists|m: int| 0 <= m < cells.len() && (#[trigger] cells[m]).1 == y && (cells[m].0 - 1 == x || cells[m].0 == x)
}

/// The wall below `(x, y)` may belong to an obstacle of `cells`, meet the
/// left or right edge in rows 4 to 6 or 9 to 11, or close the middle block
/// above or below.
pub open spec fn h_explained(w: int, h: int, cells: Seq<(usize, usize)>, x: int, y: int) -> bool {
    ||| obstacle_h(cells, x, y)
    ||| (x == 0 || x == w - 1) && (4 <= y < 7 || 9 <= y < 12)
    ||| (x == w / 2 - 1 || x == w / 2) && (y == h / 2 - 2 || y == h / 2)
}

/// The wall right of `(x, y)` may belong to an obstacle of `cells`, meet the
/// top or bottom edge in columns 4 to 6 or 9 to 11, or close the middle
/// block on the left or right.
pub open spec fn v_explained(w: int, h: int, cells: Seq<(usize, usize)>, x: int, y: int) -> bool {
    ||| obstacle_v(cells, x, y)
    ||| (y == 0 || y == h - 1) && (4 <= x < 7 || 9 <= x < 12)
    ||| (x == w / 2 - 2 || x == w / 2) && (y == h / 2 - 1 || y == h / 2)
}

/// Every raised entry of the horizontal walls of a `w` by `h` board is
/// explained.
spec fn h_within(hw: Seq<bool>, w: int, h: int, cells: Seq<(usize, usize)>) -> bool {
    forall|x: int, y: int| 0 <= x < w && 0 <= y < h - 1 && #[trigger] hw[tile_of(w, x, y)] ==> h_explained(w, h, cells, x, y)
}

/// Every raised entry of the vertical walls of a `w` by `h` board is
/// explained.
spec fn v_within(vw: Seq<bool>, w: int, h: int, cells: Seq<(usize, usize)>) -> bool {
    forall|x: int, y: int| 0 <= x < w - 1 && 0 <= y < h && #[trigger] vw[tile_of(w - 1, x, y)] ==> v_explained(w, h, cells, x, y)
}

proof fn lemma_raise_h(hw: Seq<bool>, w: int, h: int, cells: Seq<(usize, usize)>, x0: int, y0: int)
    requires
        0 <= x0 < w,
        0 <= y0 < h - 1,
        hw.len() == (h - 1) * w,
        h_within(hw, w, h, cells),
        h_explained(w, h, cells, x0, y0),
    ensures
        h_within(hw.update(tile_of(w, x0, y0), true), w, h, cells),
{
    let t = hw.update(tile_of(w, x0, y0), true);
    assert forall|x: int, y: int| 0 <= x < w && 0 <= y < h - 1 && #[trigger] t[tile_of(w, x, y)]
        implies h_explained(w, h, cells, x, y) by {
        lemma_row_major(w, x, y, h - 1);
        lemma_row_major(w, x0, y0, h - 1);
        if tile_of(w, x, y) == tile_of(w, x0, y0) {
            lemma_coords_unique(w, x, y);
            lemma_coords_unique(w, x0, y0);
        } else {
            assert(hw[tile_of(w, x, y)]);
        }
    }
}

proof fn lemma_raise_v(vw: Seq<bool>, w: int, h: int, cells: Seq<(usize, usize)>, x0: int, y0: int)
    requires
        0 <= x0 < w - 1,
        0 <= y0 < h,
        vw.len() == h * (w - 1),
        v_within(vw, w, h, cells),
        v_explained(w, h, cells, x0, y0),
    ensures
        v_within(vw.update(tile_of(w - 1, x0, y0), true), w, h, cells),
{
    let t = vw.update(tile_of(w - 1, x0, y0), true);
    assert forall|x: int, y: int| 0 <= x < w - 1 && 0 <= y < h && #[trigger] t[tile_of(w - 1, x, y)]
        implies v_explained(w, h, cells, x, y) by {
        lemma_row_major(w - 1, x, y, h);
        lemma_row_major(w - 1, x0, y0, h);
        if tile_of(w - 1, x, y) == tile_of(w - 1, x0, y0) {
            lemma_coords_unique(w - 1, x, y);
            lemma_coords_unique(w - 1, x0, y0);
        } else {
            assert(vw[tile_of(w - 1, x, y)]);
        }
    }
}

proof fn lemma_within_push(hw: Seq<bool>, vw: Seq<bool>, w: int, h: int, cells: Seq<(usize, usize)>, c: (usize, usize))
    requires
        h_within(hw, w, h, cells),
        v_within(vw, w, h, cells),
    ensures
        h_within(hw, w, h, cells.push(c)),
        v_within(vw, w, h, cells.push(c)),
{
    let more = cells.push(c);
    assert forall|x: int, y: int| 0 <= x < w && 0 <= y < h - 1 && #[trigger] hw[tile_of(w, x, y)]
        implies h_explained(w, h, more, x, y) by {
        if obstacle_h(cells, x, y) {
            let m = choose|m: int| 0 <= m < cells.len() && (#[trigger] cells[m]).0 == x && (cells[m].1 - 1 == y || cells[m].1 == y);
            assert(more[m] == cells[m]);
        }
    }
    assert forall|x: int, y: int| 0 <= x < w - 1 && 0 <= y < h && #[trigger] vw[tile_of(w - 1, x, y)]
        implies v_explained(w, h, more, x, y) by {
        if obstacle_v(cells, x, y) {
            let m = choose|m: int| 0 <= m < cells.len() && (#[trigger] cells[m]).1 == y && (cells[m].0 - 1 == x || cells[m].0 == x);
            assert(more[m] == cells[m]);
        }
    }
}

impl Board {
    /// Cell `c` carries an L-shaped obstacle: a wall above or below it and a
    /// wall to its left or right.
    pub open spec fn has_obstacle(&self, c: (usize, usize)) -> bool {
        let (x, y) = (c.0 as int, c.1 as int);
        &&& self.wall_below(x, y - 1) || self.wall_below(x, y)
        &&& self.wall_right(x - 1, y) || self.wall_right(x, y)
    }

    /// No side of the middle block of four tiles leads out of it.
    pub open spec fn center_enclosed(&self) -> bool {
        let (w, h) = (self.width as int, self.height_spec());
        forall|x: int, y: int, d: Direction|
            #![trigger self.open_side(x, y, d)]
            self.in_bounds(x, y) && center_xy(w, h, x, y) && !center_xy(w, h, step(x, y, d).0, step(x, y, d).1)
                ==> !self.open_side(x, y, d)
    }

    /// Each edge has a wall that meets it in rows (or columns) 4 to 6 and
    /// one in rows (or columns) 9 to 11.
    pub open spec fn has_edge_walls(&self) -> bool {
        let (w, h) = (self.width as int, self.height_spec());
        &&& exists|r: int| 4 <= r < 7 && #[trigger] self.wall_below(0, r)
        &&& exists|r: int| 9 <= r < 12 && #[trigger] self.wall_below(0, r)
        &&& exists|r: int| 4 <= r < 7 && #[trigger] self.wall_below(w - 1, r)
        &&& exists|r: int| 9 <= r < 12 && #[trigger] self.wall_below(w - 1, r)
        &&& exists|c: int| 4 <= c < 7 && #[trigger] self.wall_right(c, 0)
        &&& exists|c: int| 9 <= c < 12 && #[trigger] self.wall_right(c, 0)
        &&& exists|c: int| 4 <= c < 7 && #[trigger] self.wall_right(c, h - 1)
        &&& exists|c: int| 9 <= c < 12 && #[trigger] self.wall_right(c, h - 1)
    }

    /// What every board that `generate` makes satisfies.
    pub open spec fn is_generated(&self, width: int, height: int) -> bool {
        &&& self.wf()
        &&& self.width == width
        &&& self.height_spec() == height
        &&& self.horizontal_walls@.len() == width * (height - 1)
        &&& self.vertical_walls@.len() == (width - 1) * height
        &&& self.initial_positions@ == seq![0usize, 1, 2, 3, 4]
        &&& self.center_enclosed()
        &&& self.has_edge_walls()
        &&& exists|cells: Seq<(usize, usize)>| #![trigger isolated(cells)]
            cells.len() == OBSTACLE_COUNT && isolated(cells)
            && (forall|m: int| 0 <= m < cells.len() ==> interior(width, height, #[trigger] cells[m])
                && self.has_obstacle(cells[m]))
            && (forall|x: int, y: int| #[trigger] self.wall_below(x, y) ==> h_explained(width, height, cells, x, y))
            && (forall|x: int, y: int| #[trigger] self.wall_right(x, y) ==> v_explained(width, height, cells, x, y))
    }
}

fn cleared(n: usize) -> (v: Vec<bool>)
    ensures
        v@ == Seq::new(n as nat, |i: int| false),
{
    let mut v: Vec<bool> = Vec::new();
    let mut i: usize = 0;
    while i < n
        invariant
            i <= n,
            v@ == Seq::new(i as nat, |k: int| false),
        decreases n - i,
    {
        v.push(false);
        i += 1;
        proof {
            assert(v@ =~= Seq::new(i as nat, |k: int| false));
        }
    }
    v
}

fn far_from_all(c: (usize, usize), cells: &Vec<(usize, usize)>) -> (r: bool)
    ensures
        r == apart_from(c, cells@),
{
    let mut m: usize = 0;
    while m < cells.len()
        invariant
            m <= cells.len(),
            forall|k: int| 0 <= k < m ==> !touches(c, #[trigger] cells@[k]),
        decreases cells.len() - m,
    {
        let o = cells[m];
        let dx = if c.0 > o.0 { c.0 - o.0 } else { o.0 - c.0 };
        let dy = if c.1 > o.1 { c.1 - o.1 } else { o.1 - c.1 };
        if dx <= 1 && dy <= 1 {
            assert(touches(c, cells@[m as int]));
            return false;
        }
        m += 1;
    }
    true
}

/// The interior cells of a `width` by `height` board that touch none of
/// `cells`.
fn free_cells(width: usize, height: usize, cells: &Vec<(usize, usize)>) -> (r: Vec<(usize, usize)>)
    requires
        width >= 2,
        height >= 2,
    ensures
        forall|k: int| 0 <= k < r@.len() ==> interior(width as int, height as int, #[trigger] r@[k])
            && apart_from(r@[k], cells@),
        forall|c: (usize, usize)| interior(width as int, height as int, c) && apart_from(c, cells@)
            ==> r@.contains(c),
{
    let mut r: Vec<(usize, usize)> = Vec::new();
    let mut y: usize = 1;
    while y < height - 1
        invariant
            width >= 2,
            height >= 2,
            1 <= y <= height - 1,
            forall|k: int| 0 <= k < r@.len() ==> interior(width as int, height as int, #[trigger] r@[k])
                && apart_from(r@[k], cells@),
            forall|c: (usize, usize)| interior(width as int, height as int, c) && apart_from(c, cells@)
                && c.1 < y ==> r@.contains(c),
        decreases height - y,
    {
        let mut x: usize = 1;
        while x < width - 1
            invariant
                width >= 2,
                height >= 2,
                1 <= y < height - 1,
                1 <= x <= width - 1,
                forall|k: int| 0 <= k < r@.len() ==> interior(width as int, height as int, #[trigger] r@[k])
                    && apart_from(r@[k], cells@),
                forall|c: (usize, usize)| interior(width as int, height as int, c) && apart_from(c, cells@)
                    && (c.1 < y || (c.1 == y && c.0 < x)) ==> r@.contains(c),
            decreases width - x,
        {
            let ghost before = r@;
            if far_from_all((x, y), cells) {
                r.push((x, y));
                proof {
                    assert(r@[r@.len() - 1] == (x, y));
                    assert forall|c: (usize, usize)| before.contains(c) implies r@.contains(c) by {
                        let k = choose|k: int| 0 <= k < before.len() && before[k] == c;
                        assert(r@[k] == c);
                    }
                }
            }
            x += 1;
        }
        y += 1;
    }
    r
}

/// Cell `c` has a wall above or below it and one to its left or right, in
/// the wall arrays of a board `w` tiles wide.
spec fn obstacle_walls(hw: Seq<bool>, vw: Seq<bool>, w: int, c: (usize, usize)) -> bool {
    let (x, y) = (c.0 as int, c.1 as int);
    &&& hw[tile_of(w, x, y - 1)] || hw[tile_of(w, x, y)]
    &&& vw[tile_of(w - 1, x - 1, y)] || vw[tile_of(w - 1, x, y)]
}

proof fn lemma_dims(width: int, height: int)
    requires
        valid_dimensions(width, height),
    ensures
        (height - 1) * width <= usize::MAX,
        height * (width - 1) <= usize::MAX,
{
    assert((height - 1) * width <= width * height && height * (width - 1) <= width * height) by (nonlinear_arith)
        requires
            height >= 1,
            width >= 1,
    ;
}

proof fn lemma_anchor_unique(a: int, b: int, c: (usize, usize))
    requires
        0 <= a < 16,
        0 <= b < 16,
        touches(anchor(a), c),
        touches(anchor(b), c),
    ensures
        a == b,
{
}

proof fn lemma_free_nonempty(width: int, height: int, used: Seq<(usize, usize)>, free: Seq<(usize, usize)>, taken: Set<int>)
    requires
        width >= MIN_SIDE,
        height >= MIN_SIDE,
        used.len() < OBSTACLE_COUNT,
        taken.finite(),
        taken.len() <= used.len(),
        forall|a: int| 0 <= a < 16 && anchor_taken(a, used) ==> taken.contains(a),
        forall|c: (usize, usize)| interior(width, height, c) && apart_from(c, used) ==> free.contains(c),
    ensures
        free.len() > 0,
{
    let range = set_int_range(0, 16);
    lemma_int_range(0, 16);
    if forall|a: int| 0 <= a < 16 ==> taken.contains(a) {
        assert(range.subset_of(taken));
        lemma_len_subset(range, taken);
        assert(false);
    }
    let a = choose|a: int| 0 <= a < 16 && !taken.contains(a);
    assert(!anchor_taken(a, used));
    assert(apart_from(anchor(a), used));
    assert(interior(width, height, anchor(a)));
    assert(free.contains(anchor(a)));
}

proof fn lemma_push_apart(used: Seq<(usize, usize)>, c: (usize, usize), taken: Set<int>) -> (next: Set<int>)
    requires
        isolated(used),
        apart_from(c, used),
        taken.finite(),
        forall|a: int| 0 <= a < 16 && anchor_taken(a, used) ==> taken.contains(a),
    ensures
        isolated(used.push(c)),
        next.finite(),
        next.len() <= taken.len() + 1,
        forall|a: int| 0 <= a < 16 && anchor_taken(a, used.push(c)) ==> next.contains(a),
{
    let next = if exists|a: int| 0 <= a < 16 && touches(anchor(a), c) {
        let a = choose|a: int| 0 <= a < 16 && touches(anchor(a), c);
        taken.insert(a)
    } else {
        taken
    };
    let pushed = used.push(c);
    assert forall|a: int| 0 <= a < 16 && anchor_taken(a, pushed) implies next.contains(a) by {
        let m = choose|m: int| 0 <= m < pushed.len() && touches(anchor(a), #[trigger] pushed[m]);
        if m < used.len() {
            assert(used[m] == pushed[m]);
            assert(anchor_taken(a, used));
        } else {
            let b = choose|b: int| 0 <= b < 16 && touches(anchor(b), c);
            lemma_anchor_unique(a, b, c);
        }
    }
    assert forall|m: int, n: int| 0 <= m < pushed.len() && 0 <= n < pushed.len() && m != n
        implies !touches(#[trigger] pushed[m], #[trigger] pushed[n]) by {
        if m == used.len() {
            assert(!touches(c, used[n]));
        } else if n == used.len() {
            assert(!touches(c, used[m]));
        } else {
            assert(used[m] == pushed[m] && used[n] == pushed[n]);
        }
    }
    next
}

proof fn lemma_walls_kept(hw: Seq<bool>, vw: Seq<bool>, hw2: Seq<bool>, vw2: Seq<bool>, w: int, height: int, cells: Seq<(usize, usize)>)
    requires
        w >= 2,
        hw.len() == hw2.len() == (height - 1) * w,
        vw.len() == vw2.len() == height * (w - 1),
        forall|i: int| 0 <= i < hw.len() && hw[i] ==> hw2[i],
        forall|i: int| 0 <= i < vw.len() && vw[i] ==> vw2[i],
        forall|m: int| 0 <= m < cells.len() ==> interior(w, height, #[trigger] cells[m])
            && obstacle_walls(hw, vw, w, cells[m]),
    ensures
        forall|m: int| 0 <= m < cells.len() ==> interior(w, height, #[trigger] cells[m])
            && obstacle_walls(hw2, vw2, w, cells[m]),
{
    assert forall|m: int| 0 <= m < cells.len() implies interior(w, height, #[trigger] cells[m])
        && obstacle_walls(hw2, vw2, w, cells[m]) by {
        let (x, y) = (cells[m].0 as int, cells[m].1 as int);
        lemma_row_major(w, x, y - 1, height - 1);
        lemma_row_major(w, x, y, height - 1);
        lemma_row_major(w - 1, x - 1, y, height);
        lemma_row_major(w - 1, x, y, height);
    }
}

/// Sets entry `i` of `v`.
fn raise(v: &mut Vec<bool>, i: usize)
    requires
        i < old(v)@.len(),
    ensures
        final(v)@ == old(v)@.update(i as int, true),
{
    v.set(i, true);
}

/// Places the obstacles: each on an interior cell that touches no earlier
/// one, drawn uniformly among those cells, with a wall above or below it
/// and one to its left or right.
fn place_obstacles(width: usize, height: usize, rng: &mut Rng, hw: &mut Vec<bool>, vw: &mut Vec<bool>) -> (cells: Vec<(usize, usize)>)
    requires
        valid_dimensions(width as int, height as int),
        old(hw)@.len() == (height - 1) * width,
        old(vw)@.len() == height * (width - 1),
        forall|i: int| 0 <= i < old(hw)@.len() ==> !old(hw)@[i],
        forall|i: int| 0 <= i < old(vw)@.len() ==> !old(vw)@[i],
    ensures
        final(hw)@.len() == old(hw)@.len(),
        final(vw)@.len() == old(vw)@.len(),
        forall|i: int| 0 <= i < old(hw)@.len() && old(hw)@[i] ==> final(hw)@[i],
        forall|i: int| 0 <= i < old(vw)@.len() && old(vw)@[i] ==> final(vw)@[i],
        h_within(final(hw)@, width as int, height as int, cells@),
        v_within(final(vw)@, width as int, height as int, cells@),
        cells@.len() == OBSTACLE_COUNT,
        isolated(cells@),
        forall|m: int| 0 <= m < cells@.len() ==> interior(width as int, height as int, #[trigger] cells@[m])
            && obstacle_walls(final(hw)@, final(vw)@, width as int, cells@[m]),
{
    let ghost hw0 = hw@;
    let ghost vw0 = vw@;
    proof {
        assert((height - 1) * width <= width * height && height * (width - 1) <= width * height) by (nonlinear_arith)
            requires
                height >= 1,
                width >= 1,
        ;
    }
    let mut used: Vec<(usize, usize)> = Vec::new();
    let ghost mut taken: Set<int> = Set::empty();
    let mut count: usize = 0;
    proof {
        let (w, h) = (width as int, height as int);
        assert forall|x: int, y: int| 0 <= x < w && 0 <= y < h - 1 && #[trigger] hw@[tile_of(w, x, y)]
            implies h_explained(w, h, used@, x, y) by {
            lemma_row_major(w, x, y, h - 1);
        }
        assert forall|x: int, y: int| 0 <= x < w - 1 && 0 <= y < h && #[trigger] vw@[tile_of(w - 1, x, y)]
            implies v_explained(w, h, used@, x, y) by {
            lemma_row_major(w - 1, x, y, h);
        }
    }
    while count < OBSTACLE_COUNT
        invariant
            h_within(hw@, width as int, height as int, used@),
            v_within(vw@, width as int, height as int, used@),
            valid_dimensions(width as int, height as int),
            (height - 1) * width <= usize::MAX,
            height * (width - 1) <= usize::MAX,
            hw@.len() == hw0.len() == (height - 1) * width,
            vw@.len() == vw0.len() == height * (width - 1),
            forall|i: int| 0 <= i < hw0.len() && hw0[i] ==> hw@[i],
            forall|i: int| 0 <= i < vw0.len() && vw0[i] ==> vw@[i],
            count <= OBSTACLE_COUNT,
            used@.len() == count,
            isolated(used@),
            forall|m: int| 0 <= m < used@.len() ==> interior(width as int, height as int, #[trigger] used@[m])
                && obstacle_walls(hw@, vw@, width as int, used@[m]),
            taken.finite(),
            taken.len() <= count,
            forall|a: int| 0 <= a < 16 && anchor_taken(a, used@) ==> taken.contains(a),
        decreases OBSTACLE_COUNT - count,
    {
        let free = free_cells(width, height, &used);
        proof {
            lemma_free_nonempty(width as int, height as int, used@, free@, taken);
        }
        let k = rng.uniform(0, free.len());
        let c = free[k];
        let (i, j) = c;
        let ghost old_used = used@;
        let ghost hw1 = hw@;
        let ghost vw1 = vw@;
        proof {
            taken = lemma_push_apart(used@, c, taken);
            lemma_within_push(hw@, vw@, width as int, height as int, used@, c);
        }
        used.push(c);
        let dy = rng.uniform(0, 2);
        let row = j + dy - 1;
        proof {
            lemma_row_major(width as int, i as int, row as int, height - 1);
            assert(used@[count as int] == c);
            assert(obstacle_h(used@, i as int, row as int));
            lemma_raise_h(hw@, width as int, height as int, used@, i as int, row as int);
        }
        raise(hw, row * width + i);
        let dx = rng.uniform(0, 2);
        let col = i + dx - 1;
        proof {
            lemma_row_major(width - 1, col as int, j as int, height as int);
            assert(used@[count as int] == c);
            assert(obstacle_v(used@, col as int, j as int));
            lemma_raise_v(vw@, width as int, height as int, used@, col as int, j as int);
        }
        raise(vw, j * (width - 1) + col);
        proof {
            lemma_walls_kept(hw1, vw1, hw@, vw@, width as int, height as int, old_used);
            assert(obstacle_walls(hw@, vw@, width as int, c));
            assert forall|m: int| 0 <= m < used@.len() implies interior(width as int, height as int, #[trigger] used@[m])
                && obstacle_walls(hw@, vw@, width as int, used@[m]) by {
                if m < count {
                    assert(old_used[m] == used@[m]);
                }
            }
        }
        count += 1;
    }
    used
}

/// Four walls meeting the left and right edges and four meeting the top and
/// bottom edges, each at a row or column drawn from 4 to 6 or from 9 to 11.
fn place_edge_walls(width: usize, height: usize, rng: &mut Rng, hw: &mut Vec<bool>, vw: &mut Vec<bool>, Ghost(cells): Ghost<Seq<(usize, usize)>>)
    requires
        valid_dimensions(width as int, height as int),
        old(hw)@.len() == (height - 1) * width,
        old(vw)@.len() == height * (width - 1),
        h_within(old(hw)@, width as int, height as int, cells),
        v_within(old(vw)@, width as int, height as int, cells),
    ensures
        h_within(final(hw)@, width as int, height as int, cells),
        v_within(final(vw)@, width as int, height as int, cells),
        final(hw)@.len() == old(hw)@.len(),
        final(vw)@.len() == old(vw)@.len(),
        forall|i: int| 0 <= i < old(hw)@.len() && old(hw)@[i] ==> final(hw)@[i],
        forall|i: int| 0 <= i < old(vw)@.len() && old(vw)@[i] ==> final(vw)@[i],
        exists|r: int| 4 <= r < 7 && #[trigger] final(hw)@[tile_of(width as int, 0, r)],
        exists|r: int| 9 <= r < 12 && #[trigger] final(hw)@[tile_of(width as int, 0, r)],
        exists|r: int| 4 <= r < 7 && #[trigger] final(hw)@[tile_of(width as int, width - 1, r)],
        exists|r: int| 9 <= r < 12 && #[trigger] final(hw)@[tile_of(width as int, width - 1, r)],
        exists|c: int| 4 <= c < 7 && #[trigger] final(vw)@[tile_of(width - 1, c, 0)],
        exists|c: int| 9 <= c < 12 && #[trigger] final(vw)@[tile_of(width - 1, c, 0)],
        exists|c: int| 4 <= c < 7 && #[trigger] final(vw)@[tile_of(width - 1, c, height - 1)],
        exists|c: int| 9 <= c < 12 && #[trigger] final(vw)@[tile_of(width - 1, c, height - 1)],
{
    let (w, h) = (width, height);
    proof {
        lemma_dims(w as int, h as int);
    }
    let ghost (wi, hi) = (w as int, h as int);
    let r1 = rng.uniform(4, 7);
    proof { lemma_row_major(wi, 0, r1 as int, hi - 1); lemma_raise_h(hw@, wi, hi, cells, 0, r1 as int); }
    raise(hw, r1 * w);
    let r2 = rng.uniform(9, 12);
    proof { lemma_row_major(wi, 0, r2 as int, hi - 1); lemma_raise_h(hw@, wi, hi, cells, 0, r2 as int); }
    raise(hw, r2 * w);
    let r3 = rng.uniform(4, 7);
    proof { lemma_row_major(wi, wi - 1, r3 as int, hi - 1); lemma_raise_h(hw@, wi, hi, cells, wi - 1, r3 as int); }
    raise(hw, r3 * w + (w - 1));
    let r4 = rng.uniform(9, 12);
    proof { lemma_row_major(wi, wi - 1, r4 as int, hi - 1); lemma_raise_h(hw@, wi, hi, cells, wi - 1, r4 as int); }
    raise(hw, r4 * w + (w - 1));
    let c1 = rng.uniform(4, 7);
    proof { lemma_row_major(wi - 1, c1 as int, 0, hi); lemma_raise_v(vw@, wi, hi, cells, c1 as int, 0); }
    raise(vw, c1);
    let c2 = rng.uniform(9, 12);
    proof { lemma_row_major(wi - 1, c2 as int, 0, hi); lemma_raise_v(vw@, wi, hi, cells, c2 as int, 0); }
    raise(vw, c2);
    let c3 = rng.uniform(4, 7);
    proof { lemma_row_major(wi - 1, c3 as int, hi - 1, hi); lemma_raise_v(vw@, wi, hi, cells, c3 as int, hi - 1); }
    raise(vw, c3 + (h - 1) * (w - 1));
    let c4 = rng.uniform(9, 12);
    proof { lemma_row_major(wi - 1, c4 as int, hi - 1, hi); lemma_raise_v(vw@, wi, hi, cells, c4 as int, hi - 1); }
    raise(vw, c4 + (h - 1) * (w - 1));
    assert(hw@[tile_of(w as int, 0, r1 as int)]);
    assert(hw@[tile_of(w as int, 0, r2 as int)]);
    assert(hw@[tile_of(w as int, w - 1, r3 as int)]);
    assert(hw@[tile_of(w as int, w - 1, r4 as int)]);
    assert(vw@[tile_of(w - 1, c1 as int, 0)]);
    assert(vw@[tile_of(w - 1, c2 as int, 0)]);
    assert(vw@[tile_of(w - 1, c3 as int, h - 1)]);
    assert(vw@[tile_of(w - 1, c4 as int, h - 1)]);
}

/// Walls all around the middle block of four tiles.
fn place_center_walls(width: usize, height: usize, hw: &mut Vec<bool>, vw: &mut Vec<bool>, Ghost(cells): Ghost<Seq<(usize, usize)>>)
    requires
        valid_dimensions(width as int, height as int),
        old(hw)@.len() == (height - 1) * width,
        old(vw)@.len() == height * (width - 1),
        h_within(old(hw)@, width as int, height as int, cells),
        v_within(old(vw)@, width as int, height as int, cells),
    ensures
        h_within(final(hw)@, width as int, height as int, cells),
        v_within(final(vw)@, width as int, height as int, cells),
        final(hw)@.len() == old(hw)@.len(),
        final(vw)@.len() == old(vw)@.len(),
        forall|i: int| 0 <= i < old(hw)@.len() && old(hw)@[i] ==> final(hw)@[i],
        forall|i: int| 0 <= i < old(vw)@.len() && old(vw)@[i] ==> final(vw)@[i],
        ({
            let (w, cx, cy) = (width as int, width as int / 2, height as int / 2);
            &&& final(vw)@[tile_of(w - 1, cx - 2, cy - 1)]
            &&& final(vw)@[tile_of(w - 1, cx, cy - 1)]
            &&& final(vw)@[tile_of(w - 1, cx - 2, cy)]
            &&& final(vw)@[tile_of(w - 1, cx, cy)]
            &&& final(hw)@[tile_of(w, cx - 1, cy - 2)]
            &&& final(hw)@[tile_of(w, cx, cy - 2)]
            &&& final(hw)@[tile_of(w, cx - 1, cy)]
            &&& final(hw)@[tile_of(w, cx, cy)]
        }),
{
    let (w, h) = (width, height);
    let (cx, cy) = (w / 2, h / 2);
    proof {
        lemma_dims(w as int, h as int);
        lemma_row_major(w - 1, cx - 2, cy - 1, h as int);
        lemma_row_major(w - 1, cx as int, cy - 1, h as int);
        lemma_row_major(w - 1, cx - 2, cy as int, h as int);
        lemma_row_major(w - 1, cx as int, cy as int, h as int);
        lemma_row_major(w as int, cx - 1, cy - 2, h - 1);
        lemma_row_major(w as int, cx as int, cy - 2, h - 1);
        lemma_row_major(w as int, cx - 1, cy as int, h - 1);
        lemma_row_major(w as int, cx as int, cy as int, h - 1);
    }
    let ghost (wi, hi, xi, yi) = (w as int, h as int, cx as int, cy as int);
    proof { lemma_raise_v(vw@, wi, hi, cells, xi - 2, yi - 1); }
    raise(vw, cx - 2 + (cy - 1) * (w - 1));
    proof { lemma_raise_v(vw@, wi, hi, cells, xi, yi - 1); }
    raise(vw, cx + (cy - 1) * (w - 1));
    proof { lemma_raise_v(vw@, wi, hi, cells, xi - 2, yi); }
    raise(vw, cx - 2 + cy * (w - 1));
    proof { lemma_raise_v(vw@, wi, hi, cells, xi, yi); }
    raise(vw, cx + cy * (w - 1));
    proof { lemma_raise_h(hw@, wi, hi, cells, xi - 1, yi - 2); }
    raise(hw, cx - 1 + (cy - 2) * w);
    proof { lemma_raise_h(hw@, wi, hi, cells, xi, yi - 2); }
    raise(hw, cx + (cy - 2) * w);
    proof { lemma_raise_h(hw@, wi, hi, cells, xi - 1, yi); }
    raise(hw, cx - 1 + cy * w);
    proof { lemma_raise_h(hw@, wi, hi, cells, xi, yi); }
    raise(hw, cx + cy * w);
}


impl Board {
    /// Generates a `width` by `height` board from the draws of `rng`: the
    /// obstacles, the edge walls and the walled-off middle, with the tokens
    /// on tiles 0 to 4. Sizes below `MIN_SIDE`, or too large to number, are
    /// refused before anything is drawn.
    pub fn generate(width: usize, height: usize, rng: &mut Rng) -> (r: Result<Board, GenerateError>)
        ensures
            r is Err <==> !valid_dimensions(width as int, height as int),
            r is Err ==> final(rng).state() == old(rng).state(),
            r matches Ok(b) ==> b.is_generated(width as int, height as int),
    {
        if width < MIN_SIDE || height < MIN_SIDE || width > usize::MAX / height {
            proof {
                if width >= MIN_SIDE && height >= MIN_SIDE {
                    assert(width * height > usize::MAX) by (nonlinear_arith)
                        requires
                            height >= 1,
                            width > usize::MAX as int / height as int,
                    ;
                }
            }
            return Err(GenerateError::InvalidDimensions);
        }
        proof {
            assert(width * height <= usize::MAX) by (nonlinear_arith)
                requires
                    height >= 1,
                    width <= usize::MAX as int / height as int,
            ;
            lemma_dims(width as int, height as int);
        }
        let mut hw = cleared((height - 1) * width);
        let mut vw = cleared(height * (width - 1));
        let cells = place_obstacles(width, height, rng, &mut hw, &mut vw);
        let ghost hw1 = hw@;
        let ghost vw1 = vw@;
        place_edge_walls(width, height, rng, &mut hw, &mut vw, Ghost(cells@));
        let ghost hw2 = hw@;
        let ghost vw2 = vw@;
        place_center_walls(width, height, &mut hw, &mut vw, Ghost(cells@));
        let board = Board {
            width,
            horizontal_walls: hw,
            vertical_walls: vw,
            initial_positions: [0, 1, 2, 3, 4],
        };
        proof {
            let (w, h) = (width as int, height as int);
            lemma_walls_kept(hw1, vw1, board.horizontal_walls@, board.vertical_walls@, w, h, cells@);
            lemma_fundamental_div_mod_converse((h - 1) * w, w, h - 1, 0);
            assert(board.height_spec() == h);
            assert((w - 1) * h == h * (w - 1) && w * (h - 1) == (h - 1) * w) by (nonlinear_arith);
            assert(board.wf());
            assert(board.initial_positions@ =~= seq![0usize, 1, 2, 3, 4]);
            board.lemma_center_enclosed();
            board.lemma_edge_walls(hw2, vw2);
            assert forall|m: int| 0 <= m < cells@.len() implies interior(w, h, #[trigger] cells@[m])
                && board.has_obstacle(cells@[m]) by {
                assert(obstacle_walls(board.horizontal_walls@, board.vertical_walls@, w, cells@[m]));
            }
            assert(isolated(cells@));
            assert forall|x: int, y: int| #[trigger] board.wall_below(x, y) implies h_explained(w, h, cells@, x, y) by {
                assert(board.horizontal_walls@[tile_of(w, x, y)]);
            }
            assert forall|x: int, y: int| #[trigger] board.wall_right(x, y) implies v_explained(w, h, cells@, x, y) by {
                assert(board.vertical_walls@[tile_of(w - 1, x, y)]);
            }
        }
        Ok(board)
    }

    proof fn lemma_no_entry(&self, positions: Seq<usize>, x: int, y: int, d: Direction, n: int)
        requires
            self.wf(),
            self.center_enclosed(),
            n >= 0,
            self.in_bounds(x, y),
            !center_xy(self.width as int, self.height_spec(), x, y),
            forall|i: int| 0 <= i < n ==> #[trigger] self.can_step(positions, walk(x, y, d, i).0, walk(x, y, d, i).1, d),
        ensures
            self.in_bounds(walk(x, y, d, n).0, walk(x, y, d, n).1),
            !center_xy(self.width as int, self.height_spec(), walk(x, y, d, n).0, walk(x, y, d, n).1),
        decreases n,
    {
        if n > 0 {
            self.lemma_no_entry(positions, x, y, d, n - 1);
            let (px, py) = walk(x, y, d, n - 1);
            let (qx, qy) = walk(x, y, d, n);
            assert(self.can_step(positions, px, py, d));
            assert(step(px, py, d) == (qx, qy));
            let back = match d {
                Direction::Up => Direction::Down,
                Direction::Down => Direction::Up,
                Direction::Left => Direction::Right,
                Direction::Right => Direction::Left,
            };
            assert(step(qx, qy, back) == (px, py));
            if center_xy(self.width as int, self.height_spec(), qx, qy) {
                assert(!self.open_side(qx, qy, back));
                assert(false);
            }
        }
    }

    /// On a board whose middle block is walled off, a token that starts
    /// outside the block never ends a slide inside it.
    pub proof fn lemma_slide_avoids_center(&self, positions: Seq<usize>, robot: int, d: Direction)
        requires
            self.wf(),
            self.center_enclosed(),
            0 <= robot < positions.len(),
            positions[robot] < self.width * self.height_spec(),
            !center_xy(self.width as int, self.height_spec(),
                positions[robot] as int % self.width as int, positions[robot] as int / self.width as int),
        ensures
            !center_xy(self.width as int, self.height_spec(),
                self.destination(positions, robot, d).0, self.destination(positions, robot, d).1),
    {
        let w = self.width as int;
        let (x0, y0) = (positions[robot] as int % w, positions[robot] as int / w);
        self.lemma_slide_on_ray(positions, robot, d);
        let (x1, y1) = self.destination(positions, robot, d);
        let n = choose|n: int| #![trigger walk(x0, y0, d, n)] n >= 0 && (x1, y1) == walk(x0, y0, d, n)
            && (forall|i: int| 0 <= i < n ==> #[trigger] self.can_step(positions, walk(x0, y0, d, i).0, walk(x0, y0, d, i).1, d));
        self.lemma_start_in_bounds(positions[robot] as int);
        self.lemma_no_entry(positions, x0, y0, d, n);
    }

    proof fn lemma_center_enclosed(&self)
        requires
            self.wf(),
            valid_dimensions(self.width as int, self.height_spec()),
            ({
                let (w, cx, cy) = (self.width as int, self.width as int / 2, self.height_spec() / 2);
                &&& self.vertical_walls@[tile_of(w - 1, cx - 2, cy - 1)]
                &&& self.vertical_walls@[tile_of(w - 1, cx, cy - 1)]
                &&& self.vertical_walls@[tile_of(w - 1, cx - 2, cy)]
                &&& self.vertical_walls@[tile_of(w - 1, cx, cy)]
                &&& self.horizontal_walls@[tile_of(w, cx - 1, cy - 2)]
                &&& self.horizontal_walls@[tile_of(w, cx, cy - 2)]
                &&& self.horizontal_walls@[tile_of(w, cx - 1, cy)]
                &&& self.horizontal_walls@[tile_of(w, cx, cy)]
            }),
        ensures
            self.center_enclosed(),
    {
        let (w, h) = (self.width as int, self.height_spec());
        assert forall|x: int, y: int, d: Direction|
            self.in_bounds(x, y) && center_xy(w, h, x, y) && !center_xy(w, h, step(x, y, d).0, step(x, y, d).1)
            implies !#[trigger] self.open_side(x, y, d) by {
            match d {
                Direction::Up => assert(self.wall_below(x, y - 1)),
                Direction::Down => assert(self.wall_below(x, y)),
                Direction::Left => assert(self.wall_right(x - 1, y)),
                Direction::Right => assert(self.wall_right(x, y)),
            }
        }
    }

    proof fn lemma_edge_walls(&self, hw: Seq<bool>, vw: Seq<bool>)
        requires
            self.wf(),
            valid_dimensions(self.width as int, self.height_spec()),
            hw.len() == self.horizontal_walls@.len(),
            vw.len() == self.vertical_walls@.len(),
            forall|i: int| 0 <= i < hw.len() && hw[i] ==> self.horizontal_walls@[i],
            forall|i: int| 0 <= i < vw.len() && vw[i] ==> self.vertical_walls@[i],
            ({
                let (width, height) = (self.width as int, self.height_spec());
                &&& exists|r: int| 4 <= r < 7 && #[trigger] hw[tile_of(width, 0, r)]
                &&& exists|r: int| 9 <= r < 12 && #[trigger] hw[tile_of(width, 0, r)]
                &&& exists|r: int| 4 <= r < 7 && #[trigger] hw[tile_of(width, width - 1, r)]
                &&& exists|r: int| 9 <= r < 12 && #[trigger] hw[tile_of(width, width - 1, r)]
                &&& exists|c: int| 4 <= c < 7 && #[trigger] vw[tile_of(width - 1, c, 0)]
                &&& exists|c: int| 9 <= c < 12 && #[trigger] vw[tile_of(width - 1, c, 0)]
                &&& exists|c: int| 4 <= c < 7 && #[trigger] vw[tile_of(width - 1, c, height - 1)]
                &&& exists|c: int| 9 <= c < 12 && #[trigger] vw[tile_of(width - 1, c, height - 1)]
            }),
        ensures
            self.has_edge_walls(),
    {
        let (w, h) = (self.width as int, self.height_spec());
        self.lemma_sizes();
        let r1 = choose|r: int| 4 <= r < 7 && #[trigger] hw[tile_of(w, 0, r)];
        let r2 = choose|r: int| 9 <= r < 12 && #[trigger] hw[tile_of(w, 0, r)];
        let r3 = choose|r: int| 4 <= r < 7 && #[trigger] hw[tile_of(w, w - 1, r)];
        let r4 = choose|r: int| 9 <= r < 12 && #[trigger] hw[tile_of(w, w - 1, r)];
        let c1 = choose|c: int| 4 <= c < 7 && #[trigger] vw[tile_of(w - 1, c, 0)];
        let c2 = choose|c: int| 9 <= c < 12 && #[trigger] vw[tile_of(w - 1, c, 0)];
        let c3 = choose|c: int| 4 <= c < 7 && #[trigger] vw[tile_of(w - 1, c, h - 1)];
        let c4 = choose|c: int| 9 <= c < 12 && #[trigger] vw[tile_of(w - 1, c, h - 1)];
        lemma_row_major(w, 0, r1, h - 1);
        lemma_row_major(w, 0, r2, h - 1);
        lemma_row_major(w, w - 1, r3, h - 1);
        lemma_row_major(w, w - 1, r4, h - 1);
        lemma_row_major(w - 1, c1, 0, h);
        lemma_row_major(w - 1, c2, 0, h);
        lemma_row_major(w - 1, c3, h - 1, h);
        lemma_row_major(w - 1, c4, h - 1, h);
        assert(self.wall_below(0, r1));
        assert(self.wall_below(0, r2));
        assert(self.wall_below(w - 1, r3));
        assert(self.wall_below(w - 1, r4));
        assert(self.wall_right(c1, 0));
        assert(self.wall_right(c2, 0));
        assert(self.wall_right(c3, h - 1));
        assert(self.wall_right(c4, h - 1));
    }
}

} // verus!
