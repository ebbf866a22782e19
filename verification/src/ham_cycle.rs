use vstd::prelude::*;
use crate::dims_ok;
use crate::grid::{Direction, Pos, dir_to_spec, is_adjacent, lemma_adjacent_characterization,
    pos_in_bounds};
use crate::reach::lemma_row_major_bounds;
use crate::snake::{Food, Snake};
use vstd::arithmetic::div_mod::lemma_fundamental_div_mod_converse;

verus! {

/// Grids on which the boustrophedon tour is a Hamiltonian cycle: wide
/// enough for a return corridor, and of even height so the serpentine
/// band ends beside the corridor.
pub open spec fn cycle_dims_ok(width: usize, height: usize) -> bool {
    dims_ok(width, height) && 2 <= width && 2 <= height && height % 2 == 0
}

/// Column of the `k`-th tour cell: the top row left to right, then a
/// serpentine over the columns right of the return corridor, then the
/// corridor column itself.
pub open spec fn tour_x(width: usize, height: usize, k: int) -> int {
    let w = width as int;
    let h = height as int;
    if k < w {
        k
    } else if k < w + (w - 1) * (h - 1) {
        let j = k - w;
        let r = 1 + j / (w - 1);
        let m = j % (w - 1);
        if r % 2 == 1 {
            w - 1 - m
        } else {
            1 + m
        }
    } else {
        0
    }
}

/// Row of the `k`-th tour cell.
pub open spec fn tour_y(width: usize, height: usize, k: int) -> int {
    let w = width as int;
    let h = height as int;
    if k < w {
        0
    } else if k < w + (w - 1) * (h - 1) {
        1 + (k - w) / (w - 1)
    } else {
        h - 1 - (k - w - (w - 1) * (h - 1))
    }
}

/// The `k`-th cell of the tour.
pub open spec fn tour_pos(width: usize, height: usize, k: int) -> Pos {
    Pos { x: tour_x(width, height, k) as usize, y: tour_y(width, height, k) as usize }
}

/// Where a cell sits on the tour: the inverse of `tour_pos`.
pub open spec fn tour_index(width: usize, height: usize, p: Pos) -> int {
    let w = width as int;
    let h = height as int;
    if p.y == 0 {
        p.x as int
    } else if p.x == 0 {
        w + (w - 1) * (h - 1) + (h - 1 - p.y)
    } else {
        w + (p.y - 1) * (w - 1) + (if p.y % 2 == 1 {
            w - 1 - p.x
        } else {
            p.x - 1
        })
    }
}

/// The three bands of the tour fit together: `width * height` indexes in
/// all.
proof fn lemma_band_sizes(width: usize, height: usize)
    requires
        cycle_dims_ok(width, height),
    ensures
        (width as int) + (width - 1) * (height - 1) + (height - 1) == width * height,
        (width - 1) * (height - 1) >= 1,
{
    let w = width as int;
    let h = height as int;
    assert(w + (w - 1) * (h - 1) + (h - 1) == w * h && (w - 1) * (h - 1) >= 1)
        by (nonlinear_arith)
        requires
            2 <= w,
            2 <= h,
    ;
}

/// Every tour index names an on-grid cell, and `tour_index` finds that
/// index again: the tour visits each cell at most once.
pub proof fn lemma_tour_pos_index(width: usize, height: usize, k: int)
    requires
        cycle_dims_ok(width, height),
        0 <= k < width * height,
    ensures
        pos_in_bounds(tour_pos(width, height, k), width, height),
        tour_index(width, height, tour_pos(width, height, k)) == k,
{
    let w = width as int;
    let h = height as int;
    lemma_band_sizes(width, height);
    let p = tour_pos(width, height, k);
    if k < w {
    } else if k < w + (w - 1) * (h - 1) {
        let j = k - w;
        let wm: usize = (width - 1) as usize;
        let hm: usize = (height - 1) as usize;
        lemma_row_major_bounds(j, wm, hm);
        let r = 1 + j / (w - 1);
        let m = j % (w - 1);
        assert(1 <= r <= h - 1 && 0 <= m <= w - 2);
        assert(p.y == r && (if r % 2 == 1 {
            p.x == w - 1 - m
        } else {
            p.x == 1 + m
        }));
        assert(1 <= p.x <= w - 1);
        assert(tour_index(width, height, p) == w + (r - 1) * (w - 1) + m);
        vstd::arithmetic::div_mod::lemma_fundamental_div_mod(j, w - 1);
        assert((r - 1) * (w - 1) + m == j) by (nonlinear_arith)
            requires
                r - 1 == j / (w - 1),
                m == j % (w - 1),
                w - 1 >= 1,
                0 <= j,
                j == (w - 1) * (j / (w - 1)) + j % (w - 1),
        ;
    } else {
        let u = k - w - (w - 1) * (h - 1);
        assert(0 <= u < h - 1);
        assert(p.x == 0 && p.y == h - 1 - u);
        assert(1 <= p.y <= h - 1);
    }
}

/// Every on-grid cell has a tour index: the tour visits each cell at
/// least once.
pub proof fn lemma_tour_index_pos(width: usize, height: usize, p: Pos)
    requires
        cycle_dims_ok(width, height),
        pos_in_bounds(p, width, height),
    ensures
        0 <= tour_index(width, height, p) < width * height,
        tour_pos(width, height, tour_index(width, height, p)) == p,
{
    let w = width as int;
    let h = height as int;
    lemma_band_sizes(width, height);
    let k = tour_index(width, height, p);
    if p.y == 0 {
    } else if p.x == 0 {
        assert(k == w + (w - 1) * (h - 1) + (h - 1 - p.y));
        assert(w + (w - 1) * (h - 1) <= k < w * h);
    } else {
        let m: int = if p.y % 2 == 1 {
            w - 1 - p.x
        } else {
            p.x - 1
        };
        assert(0 <= m <= w - 2);
        let j = (p.y - 1) * (w - 1) + m;
        assert(k == w + j);
        assert(j < (w - 1) * (h - 1)) by (nonlinear_arith)
            requires
                j == (p.y - 1) * (w - 1) + m,
                1 <= p.y <= h - 1,
                0 <= m <= w - 2,
                2 <= w,
                2 <= h,
        ;
        assert(0 <= j) by (nonlinear_arith)
            requires
                j == (p.y - 1) * (w - 1) + m,
                1 <= p.y,
                0 <= m,
                2 <= w,
        ;
        lemma_fundamental_div_mod_converse(j, w - 1, p.y - 1, m);
        assert(j / (w - 1) == p.y - 1 && j % (w - 1) == m);
        assert(tour_y(width, height, k) == p.y);
        assert(tour_x(width, height, k) == p.x);
    }
}

/// Consecutive tour cells are grid neighbors, the last wrapping around
/// to the first: the tour is a closed cycle.
#[verifier::rlimit(100)]
pub proof fn lemma_tour_adjacent(width: usize, height: usize, k: int)
    requires
        cycle_dims_ok(width, height),
        0 <= k < width * height,
    ensures
        is_adjacent(
            tour_pos(width, height, k),
            tour_pos(width, height, if k + 1 < width * height {
                k + 1
            } else {
                0
            }),
        ),
        dir_to_spec(
            tour_pos(width, height, k),
            tour_pos(width, height, if k + 1 < width * height {
                k + 1
            } else {
                0
            }),
        ) is Some,
{
    let w = width as int;
    let h = height as int;
    lemma_band_sizes(width, height);
    lemma_tour_pos_index(width, height, k);
    let k2: int = if k + 1 < w * h {
        k + 1
    } else {
        0
    };
    lemma_tour_pos_index(width, height, k2);
    let a = tour_pos(width, height, k);
    let b = tour_pos(width, height, k2);
    if k + 1 < w {
        // along the top row
    } else if k + 1 == w {
        // down from the top row's end into the serpentine band
        let j: int = 0;
        lemma_fundamental_div_mod_converse(j, w - 1, 0, 0);
        assert(tour_y(width, height, k2) == 1 && tour_x(width, height, k2) == w - 1);
    } else if k + 1 < w + (w - 1) * (h - 1) {
        // inside the serpentine band
        let j = k - w;
        let wm: usize = (width - 1) as usize;
        let hm: usize = (height - 1) as usize;
        lemma_row_major_bounds(j, wm, hm);
        vstd::arithmetic::div_mod::lemma_fundamental_div_mod(j, w - 1);
        let r = 1 + j / (w - 1);
        let m = j % (w - 1);
        if m < w - 2 {
            // one step along the same row
            lemma_fundamental_div_mod_converse(j + 1, w - 1, r - 1, m + 1);
        } else {
            // the row is done: step down to the next one
            assert(j + 1 == r * (w - 1)) by (nonlinear_arith)
                requires
                    j == (w - 1) * (r - 1) + m,
                    m == w - 2,
                    2 <= w,
            ;
            lemma_fundamental_div_mod_converse(j + 1, w - 1, r, 0);
        }
    } else if k + 1 == w + (w - 1) * (h - 1) {
        // the band's last cell: its row is the bottom one, which h even
        // makes a right-to-left row ending beside the corridor
        let j = k - w;
        assert(j == (w - 1) * (h - 1) - 1);
        assert(j == (h - 2) * (w - 1) + (w - 2)) by (nonlinear_arith)
            requires
                j == (w - 1) * (h - 1) - 1,
                2 <= w,
                2 <= h,
        ;
        lemma_fundamental_div_mod_converse(j, w - 1, h - 2, w - 2);
        assert(tour_y(width, height, k) == h - 1);
        assert((h - 1) % 2 == 1);
        assert(tour_x(width, height, k) == 1);
        assert(tour_x(width, height, k2) == 0 && tour_y(width, height, k2) == h - 1);
    } else if k + 1 < w * h {
        // up the corridor column
    } else {
        // wrap: from the corridor's top back to the origin
        assert(k == w * h - 1);
        assert(tour_x(width, height, k) == 0 && tour_y(width, height, k) == 1);
        assert(tour_pos(width, height, 0) == (Pos { x: 0, y: 0 }));
    }
    lemma_adjacent_characterization(a, b);
}

/// The tour's cell at index `k`, computed on the grid.
fn tour_cell(width: usize, height: usize, k: usize) -> (r: Pos)
    requires
        cycle_dims_ok(width, height),
        k < width * height,
    ensures
        r == tour_pos(width, height, k as int),
        pos_in_bounds(r, width, height),
{
    proof {
        lemma_tour_pos_index(width, height, k as int);
        lemma_band_sizes(width, height);
        assert(width * height <= 46340 * 46340) by (nonlinear_arith)
            requires
                1 <= width <= 46340,
                1 <= height <= 46340,
        ;
    }
    let band = width + (width - 1) * (height - 1);
    if k < width {
        Pos { x: k, y: 0 }
    } else if k < band {
        let j = k - width;
        let r = 1 + j / (width - 1);
        let m = j % (width - 1);
        let x = if r % 2 == 1 {
            width - 1 - m
        } else {
            1 + m
        };
        proof {
            lemma_row_major_bounds(j as int, (width - 1) as usize, (height - 1) as usize);
        }
        Pos { x, y: r }
    } else {
        let u = k - band;
        Pos { x: 0, y: height - 1 - u }
    }
}

/// The full-grid cycle planner: a fixed tour of every cell, followed by
/// a cursor.
pub struct HamiltonianCycle {
    pub path: Vec<Direction>,
    pub path_index: usize,
    pub width: usize,
    pub height: usize,
}

impl HamiltonianCycle {
    /// The tour has been generated: one direction per grid cell, each
    /// stepping from a tour cell to the next, and the cursor on the tour.
    pub open spec fn generated(self) -> bool {
        &&& cycle_dims_ok(self.width, self.height)
        &&& self.path@.len() == self.width * self.height
        &&& self.path_index < self.path@.len()
        &&& forall|k: int|
            0 <= k < self.path@.len() ==> dir_to_spec(
                tour_pos(self.width, self.height, k),
                tour_pos(
                    self.width,
                    self.height,
                    if k + 1 < self.width * self.height {
                        k + 1
                    } else {
                        0
                    },
                ),
            ) == Some(#[trigger] self.path@[k])
    }

    /// A cycle planner with no tour yet.
    pub fn new(width: usize, height: usize) -> (r: Self)
        requires
            cycle_dims_ok(width, height),
        ensures
            r.width == width,
            r.height == height,
            r.path@.len() == 0,
            r.path_index == 0,
    {
        HamiltonianCycle { path: Vec::new(), path_index: 0, width, height }
    }

    /// Build the tour: a closed route that enters every cell of the grid
    /// exactly once, and put the cursor where the agent's body ends.
    pub fn generate(&mut self, snake: &Snake)
        requires
            cycle_dims_ok(old(self).width, old(self).height),
            snake.wf(),
            snake.width == old(self).width,
            snake.height == old(self).height,
            snake.body@.len() <= old(self).width * old(self).height,
        ensures
            final(self).width == old(self).width,
            final(self).height == old(self).height,
            final(self).generated(),
            final(self).path@.len() == old(self).width * old(self).height,
            final(self).path_index == snake.body@.len() - 1,
            forall|k: int|
                0 <= k < final(self).path@.len() ==> dir_to_spec(
                    tour_pos(old(self).width, old(self).height, k),
                    tour_pos(
                        old(self).width,
                        old(self).height,
                        if k + 1 < old(self).width * old(self).height {
                            k + 1
                        } else {
                            0
                        },
                    ),
                ) == Some(#[trigger] final(self).path@[k]),
    {
        let w = self.width;
        let h = self.height;
        proof {
            lemma_band_sizes(w, h);
            assert(w * h <= 46340 * 46340) by (nonlinear_arith)
                requires
                    1 <= w <= 46340,
                    1 <= h <= 46340,
            ;
        }
        let n = w * h;
        let mut path: Vec<Direction> = Vec::new();
        let mut k: usize = 0;
        while k < n
            invariant
                cycle_dims_ok(w, h),
                n == w * h,
                k <= n,
                path@.len() == k,
                forall|kk: int|
                    0 <= kk < k ==> dir_to_spec(
                        tour_pos(w, h, kk),
                        tour_pos(w, h, if kk + 1 < w * h {
                            kk + 1
                        } else {
                            0
                        }),
                    ) == Some(#[trigger] path@[kk]),
            decreases n - k,
        {
            let cur = tour_cell(w, h, k);
            let nk = if k + 1 < n {
                k + 1
            } else {
                0
            };
            let nxt = tour_cell(w, h, nk);
            proof {
                lemma_tour_adjacent(w, h, k as int);
            }
            match cur.get_dir_to(&nxt) {
                Some(d) => {
                    path.push(d);
                },
                None => {
                    proof {
                        assert(false);
                    }
                },
            }
            k += 1;
        }
        self.path = path;
        self.path_index = snake.len() - 1;
    }

    /// The direction the tour takes next.
    fn get_next_move(&self) -> (r: Direction)
        requires
            self.path_index < self.path@.len(),
        ensures
            r == self.path@[self.path_index as int],
    {
        self.path[self.path_index]
    }

    /// Re-enter the cycle after an agent reset: the cursor lands where a
    /// freshly generated tour would put it for the same agent.
    pub fn reset(&mut self, snake: &Snake)
        requires
            snake.wf(),
            1 <= snake.body@.len() <= old(self).path@.len(),
        ensures
            final(self).path_index == snake.body@.len() - 1,
            *final(self) == (HamiltonianCycle {
                path_index: final(self).path_index,
                ..*old(self)
            }),
    {
        self.path_index = snake.len() - 1;
    }

    /// One tick: command the tour's next direction, move the agent, and
    /// advance the cursor around the cycle.
    pub fn update(&mut self, snake: &mut Snake, food: &mut Food, score: &mut i32)
        requires
            old(self).generated(),
            old(snake).wf(),
            old(snake).width == old(self).width,
            old(snake).height == old(self).height,
            *old(score) < i32::MAX,
        ensures
            final(self).width == old(self).width,
            final(self).height == old(self).height,
            final(self).path == old(self).path,
            final(self).generated(),
            final(self).path_index == ((old(self).path_index + 1) as int % old(
                self,
            ).path@.len() as int),
            final(snake).wf(),
            final(snake).width == old(snake).width && final(snake).height == old(snake).height,
            ({
                let d = old(self).path@[old(self).path_index as int];
                let s1 = Snake {
                    next_direction: if crate::grid::opposite_spec(old(snake).dir()) != d {
                        d
                    } else {
                        old(snake).next_dir()
                    },
                    ..*old(snake)
                };
                crate::snake::update_rel(
                    s1,
                    *final(snake),
                    *old(food),
                    *final(food),
                    *old(score),
                    *final(score),
                )
            }),
    {
        snake.set_next_direction(self.get_next_move());
        snake.update(food, score);
        let len = self.path.len();
        if self.path_index + 1 >= len {
            self.path_index = 0;
            proof {
                assert(old(self).path_index + 1 == len);
                vstd::arithmetic::div_mod::lemma_mod_self_0(len as int);
            }
        } else {
            self.path_index = self.path_index + 1;
            proof {
                vstd::arithmetic::div_mod::lemma_small_mod(
                    (old(self).path_index + 1) as nat,
                    len as nat,
                );
            }
        }
    }
}

/// A cursor reset re-enters the cycle exactly where a fresh planner
/// would: two generated planners for the same grid hold the same tour,
/// so with their cursors at the same place their next moves agree.
pub proof fn lemma_reset_matches_fresh(a: HamiltonianCycle, b: HamiltonianCycle)
    requires
        a.generated(),
        b.generated(),
        a.width == b.width,
        a.height == b.height,
        a.path_index == b.path_index,
    ensures
        a.path@ == b.path@,
        a.path@[a.path_index as int] == b.path@[b.path_index as int],
{
    assert forall|k: int| 0 <= k < a.path@.len() implies a.path@[k] == b.path@[k] by {
        assert(Some(a.path@[k]) == Some(b.path@[k]));
    }
    assert(a.path@ =~= b.path@);
}

} // verus!
