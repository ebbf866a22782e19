use vstd::prelude::*;

verus! {

/// A grid cell, addressed by non-negative column `x` and row `y`.
/// `y` grows downward: `Down` increases `y`, `Right` increases `x`.
#[derive(Clone, Copy, PartialEq, Eq, Structural, Debug)]
pub struct Pos {
    pub x: usize,
    pub y: usize,
}

/// One of the four axis-aligned movement directions.
#[derive(Clone, Copy, PartialEq, Eq, Structural, Debug)]
pub enum Direction {
    Up,
    Down,
    Left,
    Right,
}

/// A cell lies on a `width` by `height` grid.
pub open spec fn pos_in_bounds(p: Pos, width: usize, height: usize) -> bool {
    p.x < width && p.y < height
}

/// `b` is the cell reached from `a` by one step in direction `d`
/// (ignoring grid bounds).
pub open spec fn is_step(a: Pos, d: Direction, b: Pos) -> bool {
    match d {
        Direction::Up => b.x == a.x && a.y >= 1 && b.y == a.y - 1,
        Direction::Down => b.x == a.x && b.y == a.y + 1,
        Direction::Left => a.x >= 1 && b.x == a.x - 1 && b.y == a.y,
        Direction::Right => b.x == a.x + 1 && b.y == a.y,
    }
}

/// A step from `p` in direction `d` stays on the grid.
pub open spec fn can_step(p: Pos, d: Direction, width: usize, height: usize) -> bool {
    pos_in_bounds(p, width, height) && match d {
        Direction::Up => p.y >= 1,
        Direction::Down => p.y + 1 < height,
        Direction::Left => p.x >= 1,
        Direction::Right => p.x + 1 < width,
    }
}

/// Two cells are 4-connected neighbors: they differ by one in exactly
/// one coordinate.
pub open spec fn is_adjacent(a: Pos, b: Pos) -> bool {
    (a.x == b.x && (a.y - b.y == 1 || b.y - a.y == 1)) || (a.y == b.y && (a.x - b.x == 1 || b.x
        - a.x == 1))
}

/// The direction that leads from `a` to `b` in one step, if the two
/// cells are adjacent; `None` otherwise.
pub open spec fn dir_to_spec(a: Pos, b: Pos) -> Option<Direction> {
    if a.x == b.x && b.y == a.y + 1 {
        Some(Direction::Down)
    } else if a.x == b.x && a.y == b.y + 1 {
        Some(Direction::Up)
    } else if a.y == b.y && b.x == a.x + 1 {
        Some(Direction::Right)
    } else if a.y == b.y && a.x == b.x + 1 {
        Some(Direction::Left)
    } else {
        None
    }
}

/// The direction opposite to `d`.
pub open spec fn opposite_spec(d: Direction) -> Direction {
    match d {
        Direction::Up => Direction::Down,
        Direction::Down => Direction::Up,
        Direction::Left => Direction::Right,
        Direction::Right => Direction::Left,
    }
}

/// Manhattan distance between two cells.
pub open spec fn manhattan(a: Pos, b: Pos) -> int {
    (if a.x >= b.x {
        a.x - b.x
    } else {
        b.x - a.x
    }) + (if a.y >= b.y {
        a.y - b.y
    } else {
        b.y - a.y
    })
}

/// Adjacency is exactly "some direction steps from `a` to `b`", and also
/// exactly "the Manhattan distance is one".
pub proof fn lemma_adjacent_characterization(a: Pos, b: Pos)
    ensures
        is_adjacent(a, b) <==> exists|d: Direction| is_step(a, d, b),
        is_adjacent(a, b) <==> manhattan(a, b) == 1,
        is_adjacent(a, b) <==> dir_to_spec(a, b) is Some,
{
    if is_adjacent(a, b) {
        if a.x == b.x && b.y == a.y + 1 {
            assert(is_step(a, Direction::Down, b));
        } else if a.x == b.x && a.y == b.y + 1 {
            assert(is_step(a, Direction::Up, b));
        } else if a.y == b.y && b.x == a.x + 1 {
            assert(is_step(a, Direction::Right, b));
        } else {
            assert(is_step(a, Direction::Left, b));
        }
    }
}

/// The cell one step from `p` in direction `d`. Meaningful whenever some
/// cell satisfies `is_step(p, d, _)`.
pub open spec fn step_cell(p: Pos, d: Direction) -> Pos {
    match d {
        Direction::Up => Pos { x: p.x, y: (p.y - 1) as usize },
        Direction::Down => Pos { x: p.x, y: (p.y + 1) as usize },
        Direction::Left => Pos { x: (p.x - 1) as usize, y: p.y },
        Direction::Right => Pos { x: (p.x + 1) as usize, y: p.y },
    }
}

/// A step's target is unique, and a step that stays on the grid lands on
/// `step_cell`.
pub proof fn lemma_step_cell(p: Pos, d: Direction, width: usize, height: usize)
    ensures
        can_step(p, d, width, height) ==> is_step(p, d, step_cell(p, d)) && pos_in_bounds(
            step_cell(p, d),
            width,
            height,
        ),
        forall|q: Pos| is_step(p, d, q) ==> q == step_cell(p, d),
{
}

/// A step between two on-grid cells stays on the grid.
pub proof fn lemma_step_in_bounds(a: Pos, d: Direction, b: Pos, width: usize, height: usize)
    requires
        is_step(a, d, b),
        pos_in_bounds(a, width, height),
        pos_in_bounds(b, width, height),
    ensures
        can_step(a, d, width, height),
{
}

/// `opposite` is an involution.
pub proof fn lemma_opposite_involution(d: Direction)
    ensures
        opposite_spec(opposite_spec(d)) == d,
{
}

/// Whether the cell `(x, y)` lies on a `width` by `height` grid.
pub fn in_bounds(x: usize, y: usize, width: usize, height: usize) -> (r: bool)
    ensures
        r == pos_in_bounds(Pos { x, y }, width, height),
{
    x < width && y < height
}

/// Signed-coordinate bounds check: negative coordinates are out of bounds.
pub fn in_bounds_i32(x: i32, y: i32, width: usize, height: usize) -> (r: bool)
    ensures
        r == (0 <= x && x < width && 0 <= y && y < height),
{
    x >= 0 && (x as usize) < width && y >= 0 && (y as usize) < height
}

impl Pos {
    pub fn new(x: usize, y: usize) -> (r: Self)
        ensures
            r == (Pos { x, y }),
    {
        Pos { x, y }
    }

    /// The in-bounds 4-neighbors of this cell, in the fixed enumeration
    /// order right, left, down, up.
    pub fn get_neighbors(&self, width: usize, height: usize) -> (r: Vec<Pos>)
        requires
            pos_in_bounds(*self, width, height),
        ensures
            r@ == neighbor_seq(*self, width, height),
            r@.no_duplicates(),
            forall|i: int|
                0 <= i < r@.len() ==> pos_in_bounds(#[trigger] r@[i], width, height)
                    && is_adjacent(*self, r@[i]),
            forall|q: Pos|
                pos_in_bounds(q, width, height) && is_adjacent(*self, q) ==> r@.contains(q),
    {
        let mut v: Vec<Pos> = Vec::new();
        if self.x + 1 < width {
            v.push(Pos { x: self.x + 1, y: self.y });
        }
        if self.x >= 1 {
            v.push(Pos { x: self.x - 1, y: self.y });
        }
        if self.y + 1 < height {
            v.push(Pos { x: self.x, y: self.y + 1 });
        }
        if self.y >= 1 {
            v.push(Pos { x: self.x, y: self.y - 1 });
        }
        proof {
            assert(v@ =~= neighbor_seq(*self, width, height));
            lemma_neighbor_seq_complete(*self, width, height);
        }
        v
    }

    /// The cell one step from `self` in direction `dir`, or `None` when
    /// that step would leave the grid.
    pub fn adjacent(&self, dir: &Direction, width: usize, height: usize) -> (r: Option<Pos>)
        requires
            pos_in_bounds(*self, width, height),
        ensures
            r is Some <==> can_step(*self, *dir, width, height),
            r matches Some(q) ==> is_step(*self, *dir, q) && pos_in_bounds(q, width, height),
    {
        match dir {
            Direction::Right => if self.x + 1 < width {
                Some(Pos { x: self.x + 1, y: self.y })
            } else {
                None
            },
            Direction::Left => if self.x >= 1 {
                Some(Pos { x: self.x - 1, y: self.y })
            } else {
                None
            },
            Direction::Up => if self.y >= 1 {
                Some(Pos { x: self.x, y: self.y - 1 })
            } else {
                None
            },
            Direction::Down => if self.y + 1 < height {
                Some(Pos { x: self.x, y: self.y + 1 })
            } else {
                None
            },
        }
    }

    /// The direction from `self` to an adjacent cell `other`; `None`
    /// when the cells are not exactly one axis-aligned step apart.
    pub fn get_dir_to(&self, other: &Pos) -> (r: Option<Direction>)
        ensures
            r == dir_to_spec(*self, *other),
    {
        if self.x == other.x {
            if other.y > self.y && other.y - self.y == 1 {
                Some(Direction::Down)
            } else if self.y > other.y && self.y - other.y == 1 {
                Some(Direction::Up)
            } else {
                None
            }
        } else if self.y == other.y {
            if other.x > self.x && other.x - self.x == 1 {
                Some(Direction::Right)
            } else if self.x > other.x && self.x - other.x == 1 {
                Some(Direction::Left)
            } else {
                None
            }
        } else {
            None
        }
    }
}

impl Direction {
    pub fn opposite(&self) -> (r: Self)
        ensures
            r == opposite_spec(*self),
    {
        match self {
            Direction::Up => Direction::Down,
            Direction::Down => Direction::Up,
            Direction::Left => Direction::Right,
            Direction::Right => Direction::Left,
        }
    }
}

/// Appending one cell adds exactly that cell to a sequence's members.
pub proof fn lemma_push_contains(s: Seq<Pos>, v: Pos)
    ensures
        forall|p: Pos| s.push(v).contains(p) <==> (s.contains(p) || p == v),
{
    assert forall|p: Pos| s.push(v).contains(p) implies (s.contains(p) || p == v) by {
        let i = choose|i: int| 0 <= i < s.push(v).len() && s.push(v)[i] == p;
        if i < s.len() {
            assert(s[i] == p);
        }
    }
    assert forall|p: Pos| s.contains(p) implies s.push(v).contains(p) by {
        let i = choose|i: int| 0 <= i < s.len() && s[i] == p;
        assert(s.push(v)[i] == p);
    }
    assert(s.push(v)[s.len() as int] == v);
}

/// Whether `p` occurs in `v`.
pub fn contains_pos(v: &Vec<Pos>, p: Pos) -> (r: bool)
    ensures
        r == v@.contains(p),
{
    let mut i: usize = 0;
    while i < v.len()
        invariant
            i <= v@.len(),
            forall|k: int| 0 <= k < i ==> v@[k] != p,
        decreases v@.len() - i,
    {
        if v[i] == p {
            return true;
        }
        i += 1;
    }
    false
}

/// The in-bounds neighbors of `p`, in the order right, left, down, up.
pub open spec fn neighbor_seq(p: Pos, width: usize, height: usize) -> Seq<Pos> {
    (if p.x + 1 < width {
        seq![Pos { x: (p.x + 1) as usize, y: p.y }]
    } else {
        Seq::empty()
    }) + (if p.x >= 1 {
        seq![Pos { x: (p.x - 1) as usize, y: p.y }]
    } else {
        Seq::empty()
    }) + (if p.y + 1 < height {
        seq![Pos { x: p.x, y: (p.y + 1) as usize }]
    } else {
        Seq::empty()
    }) + (if p.y >= 1 {
        seq![Pos { x: p.x, y: (p.y - 1) as usize }]
    } else {
        Seq::empty()
    })
}

/// Every in-bounds neighbor of `p` occurs in `neighbor_seq(p)`.
#[verifier::rlimit(60)]
pub proof fn lemma_neighbor_seq_complete(p: Pos, width: usize, height: usize)
    requires
        pos_in_bounds(p, width, height),
    ensures
        forall|q: Pos|
            pos_in_bounds(q, width, height) && is_adjacent(p, q) ==> neighbor_seq(
                p,
                width,
                height,
            ).contains(q),
        neighbor_seq(p, width, height).no_duplicates(),
        forall|i: int|
            0 <= i < neighbor_seq(p, width, height).len() ==> pos_in_bounds(
                #[trigger] neighbor_seq(p, width, height)[i],
                width,
                height,
            ) && is_adjacent(p, neighbor_seq(p, width, height)[i]),
{
    let s = neighbor_seq(p, width, height);
    assert forall|q: Pos| pos_in_bounds(q, width, height) && is_adjacent(p, q) implies s.contains(
        q,
    ) by {
        if q.x == p.x + 1 {
            assert(s[0] == q);
        } else if p.x >= 1 && q.x == p.x - 1 {
            let i = if p.x + 1 < width {
                1int
            } else {
                0int
            };
            assert(s[i] == q);
        } else if q.y == p.y + 1 {
            let i = (if p.x + 1 < width {
                1int
            } else {
                0int
            }) + (if p.x >= 1 {
                1int
            } else {
                0int
            });
            assert(s[i] == q);
        } else {
            let i = (if p.x + 1 < width {
                1int
            } else {
                0int
            }) + (if p.x >= 1 {
                1int
            } else {
                0int
            }) + (if p.y + 1 < height {
                1int
            } else {
                0int
            });
            assert(s[i] == q);
        }
    }
}

} // verus!
