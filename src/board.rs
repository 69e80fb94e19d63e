//! The board: its walls, its tokens, and how a token slides.
use vstd::prelude::*;
use vstd::arithmetic::div_mod::lemma_fundamental_div_mod;
use vstd::arithmetic::div_mod::lemma_fundamental_div_mod_converse;

verus! {

/// Index of the red token.
pub const RED: usize = 0;
/// Index of the yellow token.
pub const YELLOW: usize = 1;
/// Index of the green token.
pub const GREEN: usize = 2;
/// Index of the blue token.
pub const BLUE: usize = 3;
/// Index of the black token, a neutral blocker that no player owns.
pub const BLACK: usize = 4;

/// One tile index per token, in the order red, yellow, green, blue, black.
pub type RobotPositions = [usize; 5];

#[derive(Clone, Copy, Debug, PartialEq, Eq, Structural)]
pub enum Direction {
    Up,
    Down,
    Left,
    Right,
}

pub open spec fn direction_name(d: Direction) -> Seq<char> {
    match d {
        Direction::Up => "up"@,
        Direction::Down => "down"@,
        Direction::Left => "left"@,
        Direction::Right => "right"@,
    }
}

impl Direction {
    /// The lower-case name of the direction.
    pub fn id(self) -> (r: &'static str)
        ensures
            r@ == direction_name(self),
    {
        match self {
            Direction::Up => "up",
            Direction::Down => "down",
            Direction::Left => "left",
            Direction::Right => "right",
        }
    }
}

/// The coordinates one tile away from `(x, y)` in direction `d`.
pub open spec fn step(x: int, y: int, d: Direction) -> (int, int) {
    match d {
        Direction::Up => (x, y - 1),
        Direction::Down => (x, y + 1),
        Direction::Left => (x - 1, y),
        Direction::Right => (x + 1, y),
    }
}

/// The coordinates `n` tiles away from `(x, y)` in direction `d`.
pub open spec fn walk(x: int, y: int, d: Direction, n: int) -> (int, int) {
    match d {
        Direction::Up => (x, y - n),
        Direction::Down => (x, y + n),
        Direction::Left => (x - n, y),
        Direction::Right => (x + n, y),
    }
}

/// The tile index of `(x, y)` on a board `w` tiles wide.
pub open spec fn tile_of(w: int, x: int, y: int) -> int {
    y * w + x
}

/// Whether `(x, y)` is one of the four middle tiles.
pub open spec fn center_xy(width: int, height: int, x: int, y: int) -> bool {
    &&& width / 2 - 1 <= x <= width / 2
    &&& height / 2 - 1 <= y <= height / 2
}

/// Whether two boards have the same width, walls and starting positions.
pub open spec fn same_board(a: Board, b: Board) -> bool {
    &&& a.width == b.width
    &&& a.horizontal_walls@ == b.horizontal_walls@
    &&& a.vertical_walls@ == b.vertical_walls@
    &&& a.initial_positions@ == b.initial_positions@
}

/// Whether some token stands on `(x, y)`.
pub open spec fn occupied(w: int, positions: Seq<usize>, x: int, y: int) -> bool {
    exists|k: int| 0 <= k < positions.len() && positions[k] as int == tile_of(w, x, y)
}

#[derive(Clone, Debug)]
pub struct Board {
    pub width: usize,
    /// `width * (height - 1)` entries; entry `y * width + x` is a wall
    /// between `(x, y)` and `(x, y + 1)`.
    pub horizontal_walls: Vec<bool>,
    /// `(width - 1) * height` entries; entry `y * (width - 1) + x` is a wall
    /// between `(x, y)` and `(x + 1, y)`.
    pub vertical_walls: Vec<bool>,
    /// Where the tokens start.
    pub initial_positions: RobotPositions,
}

pub(crate) proof fn lemma_row_major(w: int, x: int, y: int, h: int)
    requires
        0 <= x < w,
        0 <= y < h,
    ensures
        0 <= y * w + x < h * w,
        y * w + x < (y + 1) * w,
        (y + 1) * w <= h * w,
{
    assert(0 <= y * w + x < h * w) by (nonlinear_arith)
        requires
            0 <= x < w,
            0 <= y < h,
    ;
    assert((y + 1) * w <= h * w) by (nonlinear_arith)
        requires
            0 <= x < w,
            0 <= y < h,
    ;
    assert((y + 1) * w == y * w + w) by (nonlinear_arith);
}

proof fn lemma_coords(w: int, t: int)
    requires
        w > 0,
        t >= 0,
    ensures
        t == tile_of(w, t % w, t / w),
        0 <= t % w < w,
        t / w >= 0,
{
    lemma_fundamental_div_mod(t, w);
    assert(t / w * w == w * (t / w)) by (nonlinear_arith);
    assert(t / w >= 0) by (nonlinear_arith)
        requires
            w > 0,
            t >= 0,
    ;
}

pub(crate) proof fn lemma_coords_unique(w: int, x: int, y: int)
    requires
        0 <= x < w,
        y >= 0,
    ensures
        tile_of(w, x, y) % w == x,
        tile_of(w, x, y) / w == y,
{
    lemma_fundamental_div_mod_converse(y * w + x, w, y, x);
}

impl Board {
    pub(crate) proof fn lemma_sizes(&self)
        requires
            self.wf(),
        ensures
            self.height_spec() >= 1,
            self.horizontal_walls@.len() == (self.height_spec() - 1) * self.width,
            self.vertical_walls@.len() == self.height_spec() * (self.width - 1),
            self.height_spec() * self.width <= usize::MAX,
            self.height_spec() * (self.width - 1) <= usize::MAX,
    {
        let w = self.width as int;
        let n = self.horizontal_walls@.len() as int;
        lemma_fundamental_div_mod(n, w);
        assert(n / w >= 0) by (nonlinear_arith)
            requires
                w > 0,
                n >= 0,
        ;
        let h = self.height_spec();
        assert(h * w == w * h && (h - 1) * w == w * (h - 1) && h * (w - 1) == (w - 1) * h) by (nonlinear_arith);
        assert(h * (w - 1) <= h * w) by (nonlinear_arith)
            requires
                h >= 1,
                w >= 1,
        ;
    }

    /// The number of rows, derived from the horizontal walls.
    pub open spec fn height_spec(&self) -> int {
        self.horizontal_walls@.len() as int / self.width as int + 1
    }

    /// The wall arrays have the sizes that the width and the derived height
    /// give, and the tiles can be numbered in a `usize`.
    pub open spec fn wf(&self) -> bool {
        &&& self.width >= 1
        &&& self.horizontal_walls@.len() as int % self.width as int == 0
        &&& self.vertical_walls@.len() == (self.width - 1) * self.height_spec()
        &&& self.width * self.height_spec() <= usize::MAX
    }

    /// Whether there is a wall between `(x, y)` and `(x, y + 1)`.
    pub open spec fn wall_below(&self, x: int, y: int) -> bool {
        &&& 0 <= x < self.width
        &&& 0 <= y < self.height_spec() - 1
        &&& self.horizontal_walls@[tile_of(self.width as int, x, y)]
    }

    /// Whether there is a wall between `(x, y)` and `(x + 1, y)`.
    pub open spec fn wall_right(&self, x: int, y: int) -> bool {
        &&& 0 <= x < self.width - 1
        &&& 0 <= y < self.height_spec()
        &&& self.vertical_walls@[tile_of(self.width - 1, x, y)]
    }

    /// Whether `(x, y)` lies on the board.
    pub open spec fn in_bounds(&self, x: int, y: int) -> bool {
        0 <= x < self.width && 0 <= y < self.height_spec()
    }

    /// Whether a token on `(x, y)` may pass to the next tile in direction
    /// `d` as far as the board goes: that tile exists and no wall is between.
    pub open spec fn open_side(&self, x: int, y: int, d: Direction) -> bool {
        let (nx, ny) = step(x, y, d);
        &&& self.in_bounds(nx, ny)
        &&& match d {
            Direction::Up => !self.wall_below(x, y - 1),
            Direction::Down => !self.wall_below(x, y),
            Direction::Left => !self.wall_right(x - 1, y),
            Direction::Right => !self.wall_right(x, y),
        }
    }

    /// Whether a token on `(x, y)` may pass to the next tile in direction `d`:
    /// the side is open and no token stands there.
    pub open spec fn can_step(&self, positions: Seq<usize>, x: int, y: int, d: Direction) -> bool {
        let (nx, ny) = step(x, y, d);
        self.open_side(x, y, d) && !occupied(self.width as int, positions, nx, ny)
    }

    /// Where a token on `(x, y)` comes to rest when it slides in direction
    /// `d`, looking at most `fuel` tiles ahead.
    pub open spec fn slide(&self, positions: Seq<usize>, x: int, y: int, d: Direction, fuel: nat) -> (int, int)
        decreases fuel,
    {
        if fuel == 0 || !self.can_step(positions, x, y, d) {
            (x, y)
        } else {
            let (nx, ny) = step(x, y, d);
            self.slide(positions, nx, ny, d, (fuel - 1) as nat)
        }
    }

    /// Enough lookahead for any slide on this board.
    pub open spec fn slide_fuel(&self) -> nat {
        (self.width + self.height_spec()) as nat
    }

    /// Where token `robot` comes to rest when it slides in direction `d`.
    pub open spec fn destination(&self, positions: Seq<usize>, robot: int, d: Direction) -> (int, int) {
        let w = self.width as int;
        let t = positions[robot] as int;
        self.slide(positions, t % w, t / w, d, self.slide_fuel())
    }

    /// The positions after token `robot` has slid in direction `d`.
    pub open spec fn moved(&self, positions: Seq<usize>, robot: int, d: Direction) -> Seq<usize> {
        let (x, y) = self.destination(positions, robot, d);
        positions.update(robot, tile_of(self.width as int, x, y) as usize)
    }

    /// Tiles left before the edge of the board in direction `d`.
    pub open spec fn room_ahead(&self, x: int, y: int, d: Direction) -> int {
        match d {
            Direction::Up => y,
            Direction::Down => self.height_spec() - 1 - y,
            Direction::Left => x,
            Direction::Right => self.width - 1 - x,
        }
    }

    /// How many tiles a slide from `(x, y)` covers, looking at most `fuel`
    /// tiles ahead.
    pub open spec fn slide_len(&self, positions: Seq<usize>, x: int, y: int, d: Direction, fuel: nat) -> nat
        decreases fuel,
    {
        if fuel == 0 || !self.can_step(positions, x, y, d) {
            0
        } else {
            let (nx, ny) = step(x, y, d);
            1 + self.slide_len(positions, nx, ny, d, (fuel - 1) as nat)
        }
    }

    proof fn lemma_slide_path(&self, positions: Seq<usize>, x: int, y: int, d: Direction, fuel: nat)
        requires
            self.in_bounds(x, y),
        ensures
            self.slide(positions, x, y, d, fuel) == walk(x, y, d, self.slide_len(positions, x, y, d, fuel) as int),
            forall|i: int| 0 <= i < self.slide_len(positions, x, y, d, fuel) ==> #[trigger] self.can_step(positions, walk(x, y, d, i).0, walk(x, y, d, i).1, d),
            fuel > self.room_ahead(x, y, d) ==> {
                let (ex, ey) = self.slide(positions, x, y, d, fuel);
                !self.can_step(positions, ex, ey, d)
            },
            self.in_bounds(self.slide(positions, x, y, d, fuel).0, self.slide(positions, x, y, d, fuel).1),
        decreases fuel,
    {
        if fuel == 0 || !self.can_step(positions, x, y, d) {
        } else {
            let (nx, ny) = step(x, y, d);
            self.lemma_slide_path(positions, nx, ny, d, (fuel - 1) as nat);
            let n = self.slide_len(positions, nx, ny, d, (fuel - 1) as nat) as int;
            assert forall|i: int| 0 <= i < n + 1 implies #[trigger] self.can_step(positions, walk(x, y, d, i).0, walk(x, y, d, i).1, d) by {
                if i > 0 {
                    assert(walk(x, y, d, i) == walk(nx, ny, d, i - 1));
                    assert(self.can_step(positions, walk(nx, ny, d, i - 1).0, walk(nx, ny, d, i - 1).1, d));
                }
            }
        }
    }

    /// The slide of a token ends on the board, on the straight line from its
    /// start in the direction asked for; every tile it passes or reaches
    /// was reached with no wall crossed and no token stood on, and it stops
    /// where it cannot go one tile further.
    pub proof fn lemma_slide_on_ray(&self, positions: Seq<usize>, robot: int, d: Direction)
        requires
            self.wf(),
            0 <= robot < positions.len(),
            positions[robot] < self.width * self.height_spec(),
        ensures
            ({
                let w = self.width as int;
                let (x0, y0) = (positions[robot] as int % w, positions[robot] as int / w);
                let (x1, y1) = self.destination(positions, robot, d);
                &&& self.in_bounds(x1, y1)
                &&& exists|n: int| #![trigger walk(x0, y0, d, n)] n >= 0 && (x1, y1) == walk(x0, y0, d, n)
                    && (forall|i: int| 0 <= i < n ==> #[trigger] self.can_step(positions, walk(x0, y0, d, i).0, walk(x0, y0, d, i).1, d))
                &&& !self.can_step(positions, x1, y1, d)
            }),
    {
        let w = self.width as int;
        let t = positions[robot] as int;
        let (x0, y0) = (t % w, t / w);
        self.lemma_start(t);
        self.lemma_slide_path(positions, x0, y0, d, self.slide_fuel());
        let n = self.slide_len(positions, x0, y0, d, self.slide_fuel()) as int;
        assert(self.destination(positions, robot, d) == walk(x0, y0, d, n));
    }

    proof fn lemma_start(&self, t: int)
        requires
            self.wf(),
            0 <= t < self.width * self.height_spec(),
        ensures
            self.in_bounds(t % self.width as int, t / self.width as int),
            t == tile_of(self.width as int, t % self.width as int, t / self.width as int),
            self.slide_fuel() > self.room_ahead(t % self.width as int, t / self.width as int, Direction::Up),
            self.slide_fuel() > self.room_ahead(t % self.width as int, t / self.width as int, Direction::Down),
            self.slide_fuel() > self.room_ahead(t % self.width as int, t / self.width as int, Direction::Left),
            self.slide_fuel() > self.room_ahead(t % self.width as int, t / self.width as int, Direction::Right),
    {
        let w = self.width as int;
        let h = self.height_spec();
        lemma_coords(w, t);
        let (x, y) = (t % w, t / w);
        assert(y < h) by (nonlinear_arith)
            requires
                t == y * w + x,
                t < w * h,
                0 <= x,
                w > 0,
        ;
    }

    pub(crate) proof fn lemma_start_in_bounds(&self, t: int)
        requires
            self.wf(),
            0 <= t < self.width * self.height_spec(),
        ensures
            self.in_bounds(t % self.width as int, t / self.width as int),
    {
        self.lemma_start(t);
    }

    /// A token that cannot take a single step in direction `d`, because of
    /// the edge, a wall or another token next to it, does not move: the
    /// positions come back unchanged.
    pub proof fn lemma_blocked_is_noop(&self, positions: Seq<usize>, robot: int, d: Direction)
        requires
            self.wf(),
            0 <= robot < positions.len(),
            positions[robot] < self.width * self.height_spec(),
            !self.can_step(positions, positions[robot] as int % self.width as int, positions[robot] as int / self.width as int, d),
        ensures
            self.moved(positions, robot, d) == positions,
    {
        let t = positions[robot] as int;
        self.lemma_start(t);
        assert(self.moved(positions, robot, d) =~= positions);
    }

    /// Sliding the same token twice in the same direction moves it no
    /// further than the first slide did.
    pub proof fn lemma_move_idempotent(&self, positions: Seq<usize>, robot: int, d: Direction)
        requires
            self.wf(),
            0 <= robot < positions.len(),
            positions[robot] < self.width * self.height_spec(),
        ensures
            self.moved(self.moved(positions, robot, d), robot, d) == self.moved(positions, robot, d),
    {
        let w = self.width as int;
        let h = self.height_spec();
        let t = positions[robot] as int;
        let (x0, y0) = (t % w, t / w);
        self.lemma_slide_on_ray(positions, robot, d);
        self.lemma_start(t);
        let (x1, y1) = self.destination(positions, robot, d);
        let n = choose|n: int| #![trigger walk(x0, y0, d, n)] n >= 0 && (x1, y1) == walk(x0, y0, d, n)
            && (forall|i: int| 0 <= i < n ==> #[trigger] self.can_step(positions, walk(x0, y0, d, i).0, walk(x0, y0, d, i).1, d));
        let p1 = self.moved(positions, robot, d);
        let t1 = tile_of(w, x1, y1);
        lemma_row_major(w, x1, y1, h);
        assert(h * w == w * h) by (nonlinear_arith);
        lemma_coords_unique(w, x1, y1);
        assert(p1[robot] as int == t1);
        let (nx, ny) = step(x1, y1, d);
        if self.open_side(x1, y1, d) {
            assert(occupied(w, positions, nx, ny));
            let k = choose|k: int| 0 <= k < positions.len() && positions[k] as int == tile_of(w, nx, ny);
            if k == robot {
                lemma_coords_unique(w, nx, ny);
                assert((nx, ny) == walk(x0, y0, d, n + 1));
                assert(false);
            }
            assert(p1[k] == positions[k]);
            assert(occupied(w, p1, nx, ny));
        }
        assert(!self.can_step(p1, x1, y1, d));
        self.lemma_start(t1);
        assert(self.moved(p1, robot, d) =~= p1);
    }

    /// The number of rows.
    pub fn height(&self) -> (r: usize)
        requires
            self.wf(),
        ensures
            r == self.height_spec(),
    {
        proof {
            let h = self.height_spec();
            assert(h <= self.width * h) by (nonlinear_arith)
                requires
                    self.width >= 1,
                    h >= 1,
            ;
        }
        self.horizontal_walls.len() / self.width + 1
    }

    /// Whether `tile` is one of the four walled-off middle tiles.
    pub fn is_center_tile(&self, tile: usize) -> (r: bool)
        requires
            self.wf(),
        ensures
            r == center_xy(self.width as int, self.height_spec(), tile as int % self.width as int, tile as int / self.width as int),
    {
        let x = tile % self.width;
        let y = tile / self.width;
        let height = self.height();
        let (mx, my) = (self.width / 2, height / 2);
        (mx == 0 || mx - 1 <= x) && x <= mx && (my == 0 || my - 1 <= y) && y <= my
    }

    /// A copy of the board.
    pub fn snapshot(&self) -> (r: Board)
        ensures
            same_board(r, *self),
    {
        let mut hw: Vec<bool> = Vec::new();
        let mut i: usize = 0;
        while i < self.horizontal_walls.len()
            invariant
                i <= self.horizontal_walls@.len(),
                hw@ == self.horizontal_walls@.subrange(0, i as int),
            decreases self.horizontal_walls@.len() - i,
        {
            hw.push(self.horizontal_walls[i]);
            i += 1;
            assert(hw@ =~= self.horizontal_walls@.subrange(0, i as int));
        }
        let mut vw: Vec<bool> = Vec::new();
        let mut j: usize = 0;
        while j < self.vertical_walls.len()
            invariant
                j <= self.vertical_walls@.len(),
                vw@ == self.vertical_walls@.subrange(0, j as int),
            decreases self.vertical_walls@.len() - j,
        {
            vw.push(self.vertical_walls[j]);
            j += 1;
            assert(vw@ =~= self.vertical_walls@.subrange(0, j as int));
        }
        assert(hw@ =~= self.horizontal_walls@);
        assert(vw@ =~= self.vertical_walls@);
        Board {
            width: self.width,
            horizontal_walls: hw,
            vertical_walls: vw,
            initial_positions: self.initial_positions,
        }
    }

    /// Slides token `robot` in direction `d` on `positions`, and records the
    /// move in `moves` only when the token moved. Returns whether it did.
    pub fn apply_move(&self, positions: &mut RobotPositions, moves: &mut Vec<(usize, Direction)>, robot: usize, d: Direction) -> (r: bool)
        requires
            self.wf(),
            robot < 5,
            old(positions)[robot as int] < self.width * self.height_spec(),
        ensures
            final(positions)@ == self.moved(old(positions)@, robot as int, d),
            r == (final(positions)@ != old(positions)@),
            final(moves)@ == if r { old(moves)@.push((robot, d)) } else { old(moves)@ },
    {
        let next = self.move_robot(*positions, robot, d);
        if next[robot] != positions[robot] {
            assert(next@[robot as int] != positions@[robot as int]);
            *positions = next;
            moves.push((robot, d));
            true
        } else {
            assert(next@ =~= positions@);
            false
        }
    }

    /// Whether the wall arrays fit the width and the derived height.
    pub fn is_well_formed(&self) -> (r: bool)
        ensures
            r == self.wf(),
    {
        let w = self.width;
        if w == 0 {
            return false;
        }
        let hw = self.horizontal_walls.len();
        if hw % w != 0 {
            return false;
        }
        let rows = hw / w;
        if rows == usize::MAX {
            proof {
                assert(w * (rows + 1) > usize::MAX) by (nonlinear_arith)
                    requires
                        w >= 1,
                        rows == usize::MAX,
                ;
            }
            return false;
        }
        let h = rows + 1;
        if h > usize::MAX / w {
            proof {
                assert(w * h > usize::MAX) by (nonlinear_arith)
                    requires
                        w >= 1,
                        h > usize::MAX as int / w as int,
                ;
            }
            return false;
        }
        proof {
            assert(w * h <= usize::MAX) by (nonlinear_arith)
                requires
                    w >= 1,
                    h <= usize::MAX as int / w as int,
            ;
            assert((w - 1) * h <= w * h) by (nonlinear_arith)
                requires
                    w >= 1,
                    h >= 1,
            ;
        }
        self.vertical_walls.len() == (w - 1) * h
    }

    /// Whether the side of `(x, y)` facing `d` leads to another tile with no
    /// wall between.
    fn side_is_open(&self, x: usize, y: usize, d: Direction) -> (r: bool)
        requires
            self.wf(),
            self.in_bounds(x as int, y as int),
        ensures
            r == self.open_side(x as int, y as int, d),
    {
        let w = self.width;
        let h = self.height();
        proof {
            self.lemma_sizes();
            lemma_row_major(w as int, x as int, y as int, h as int);
        }
        match d {
            Direction::Down => {
                if y + 1 >= h {
                    return false;
                }
                proof {
                    lemma_row_major(w as int, x as int, y as int, h - 1);
                }
                !self.horizontal_walls[y * w + x]
            },
            Direction::Up => {
                if y == 0 {
                    return false;
                }
                proof {
                    lemma_row_major(w as int, x as int, y - 1, h - 1);
                }
                !self.horizontal_walls[(y - 1) * w + x]
            },
            Direction::Right => {
                if x + 1 >= w {
                    return false;
                }
                proof {
                    lemma_row_major(w - 1, x as int, y as int, h as int);
                    assert(h * (w - 1) == (w - 1) * h) by (nonlinear_arith);
                }
                !self.vertical_walls[y * (w - 1) + x]
            },
            Direction::Left => {
                if x == 0 {
                    return false;
                }
                proof {
                    lemma_row_major(w - 1, x - 1, y as int, h as int);
                    assert(h * (w - 1) == (w - 1) * h) by (nonlinear_arith);
                }
                !self.vertical_walls[y * (w - 1) + x - 1]
            },
        }
    }

    /// Whether a token on `(x, y)` may pass to the next tile in direction `d`.
    fn step_is_free(&self, positions: &RobotPositions, x: usize, y: usize, d: Direction) -> (r: bool)
        requires
            self.wf(),
            self.in_bounds(x as int, y as int),
        ensures
            r == self.can_step(positions@, x as int, y as int, d),
    {
        if !self.side_is_open(x, y, d) {
            return false;
        }
        let w = self.width;
        let h = self.height();
        let (nx, ny) = match d {
            Direction::Up => (x, y - 1),
            Direction::Down => (x, y + 1),
            Direction::Left => (x - 1, y),
            Direction::Right => (x + 1, y),
        };
        proof {
            self.lemma_sizes();
            lemma_row_major(w as int, nx as int, ny as int, h as int);
        }
        let target = ny * w + nx;
        let mut k: usize = 0;
        while k < 5
            invariant
                0 <= k <= 5,
                target as int == tile_of(w as int, nx as int, ny as int),
                step(x as int, y as int, d) == (nx as int, ny as int),
                self.open_side(x as int, y as int, d),
                w == self.width,
                forall|j: int| 0 <= j < k ==> positions@[j] != target,
            decreases 5 - k,
        {
            if positions[k] == target {
                assert(positions@[k as int] as int == tile_of(w as int, nx as int, ny as int));
                assert(occupied(w as int, positions@, nx as int, ny as int));
                return false;
            }
            k += 1;
        }
        true
    }

    /// Slides token `robot` in direction `d` until a wall, the edge of the
    /// board or another token stops it, and returns the new positions. A
    /// token that cannot move leaves the positions unchanged.
    pub fn move_robot(&self, positions: RobotPositions, robot: usize, direction: Direction) -> (r: RobotPositions)
        requires
            self.wf(),
            robot < 5,
            positions[robot as int] < self.width * self.height_spec(),
        ensures
            r@ == self.moved(positions@, robot as int, direction),
    {
        let w = self.width;
        let h = self.height();
        let t = positions[robot];
        let mut x = t % w;
        let mut y = t / w;
        proof {
            lemma_coords(w as int, t as int);
            assert(y < h) by (nonlinear_arith)
                requires
                    t == y * w + x,
                    t < w * h,
                    0 <= x,
                    w > 0,
            ;
        }
        let ghost fuel: nat = self.slide_fuel();
        let ghost start = (x as int, y as int);
        while self.step_is_free(&positions, x, y, direction)
            invariant
                self.wf(),
                w == self.width,
                h == self.height_spec(),
                self.in_bounds(x as int, y as int),
                fuel > self.room_ahead(x as int, y as int, direction),
                self.room_ahead(x as int, y as int, direction) >= 0,
                self.slide(positions@, start.0, start.1, direction, self.slide_fuel())
                    == self.slide(positions@, x as int, y as int, direction, fuel),
            decreases self.room_ahead(x as int, y as int, direction),
        {
            match direction {
                Direction::Up => { y = y - 1; },
                Direction::Down => { y = y + 1; },
                Direction::Left => { x = x - 1; },
                Direction::Right => { x = x + 1; },
            }
            proof {
                fuel = (fuel - 1) as nat;
            }
        }
        proof {
            lemma_row_major(w as int, x as int, y as int, h as int);
            assert(h * w == w * h) by (nonlinear_arith);
        }
        let mut r = positions;
        r[robot] = y * w + x;
        proof {
            assert(r@ =~= self.moved(positions@, robot as int, direction));
        }
        r
    }
}

} // verus!
