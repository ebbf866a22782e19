use vstd::prelude::*;
use rand::Rng;
use rand::seq::SliceRandom;
use crate::dims_ok;
use crate::flood::reachable_count;
use crate::grid::{
    Direction,
    Pos,
    can_step,
    contains_pos,
    dir_to_spec,
    in_bounds,
    is_step,
    lemma_adjacent_characterization,
    lemma_push_contains,
    lemma_step_cell,
    neighbor_seq,
    opposite_spec,
    pos_in_bounds,
    step_cell,
};
use crate::reach::{
    component,
    free_cell,
    free_of,
    lemma_component_nonempty,
    lemma_free_of_props,
    lemma_row_major_bounds,
};

verus! {

/// Index of the cell a left-to-right scan of `s[0..k]` settles on when it
/// keeps the first cell whose surrounding free region (with `blocked` in
/// the way) is strictly larger than everything seen before, starting from
/// a threshold of zero; `-1` when no cell beats the threshold.
pub open spec fn best_idx_upto(
    s: Seq<Pos>,
    blocked: Seq<Pos>,
    width: usize,
    height: usize,
    k: int,
) -> int
    decreases k,
{
    if k <= 0 {
        -1
    } else {
        let prev = best_idx_upto(s, blocked, width, height, k - 1);
        let prev_max: int = if prev == -1 {
            0
        } else {
            component(s[prev], blocked, width, height).len() as int
        };
        if component(s[k - 1], blocked, width, height).len() > prev_max {
            k - 1
        } else {
            prev
        }
    }
}

/// The scan index stays inside the scanned prefix.
pub proof fn lemma_best_idx_range(s: Seq<Pos>, blocked: Seq<Pos>, width: usize, height: usize, k: int)
    requires
        0 <= k,
    ensures
        -1 <= best_idx_upto(s, blocked, width, height, k),
        best_idx_upto(s, blocked, width, height, k) < k || best_idx_upto(
            s,
            blocked,
            width,
            height,
            k,
        ) == -1,
    decreases k,
{
    if k > 0 {
        lemma_best_idx_range(s, blocked, width, height, k - 1);
    }
}

/// As soon as the first cell opens any free room, the scan settles on a
/// real index.
pub proof fn lemma_best_idx_nonneg(
    s: Seq<Pos>,
    blocked: Seq<Pos>,
    width: usize,
    height: usize,
    k: int,
)
    requires
        1 <= k <= s.len(),
        component(s[0], blocked, width, height).len() >= 1,
    ensures
        best_idx_upto(s, blocked, width, height, k) >= 0,
    decreases k,
{
    if k > 1 {
        lemma_best_idx_nonneg(s, blocked, width, height, k - 1);
    } else {
        assert(best_idx_upto(s, blocked, width, height, 0) == -1);
    }
}

/// Uniform random pick from a list of cells.
///
/// Relies on rand's `SliceRandom::choose` (with `thread_rng`), which
/// returns `Some` of an element of the slice exactly when the slice is
/// non-empty.
#[verifier::external_body]
fn choose_one(v: &Vec<Pos>) -> (r: Option<Pos>)
    ensures
        r matches Some(p) ==> v@.contains(p),
        r is Some <==> v@.len() > 0,
{
    let mut rng = rand::thread_rng();
    v.as_slice().choose(&mut rng).copied()
}

/// Uniform random value below `bound`.
///
/// Relies on rand's `Rng::gen_range` (with `thread_rng`), which returns a
/// value of the given non-empty range.
#[verifier::external_body]
fn rand_below(bound: usize) -> (r: usize)
    requires
        bound >= 1,
    ensures
        r < bound,
{
    let mut rng = rand::thread_rng();
    rng.gen_range(0..bound)
}

/// Number of cells a freshly spawned agent occupies.
pub const START_LEN: usize = 3;

/// The snake-style agent: an ordered list of occupied cells (head first),
/// its current and pending movement direction, and the game flags. The
/// planner reads it through `head`, `exclude_head` and the grid size.
pub struct Snake {
    pub body: Vec<Pos>,
    pub direction: Direction,
    pub next_direction: Direction,
    pub game_over: bool,
    pub game_win: bool,
    pub width: usize,
    pub height: usize,
}

/// The body cells a fresh agent occupies: `START_LEN` cells laid out in
/// row-major order ending at the origin, head first.
pub open spec fn start_body(width: usize, height: usize) -> Seq<Pos> {
    Seq::new(
        START_LEN as nat,
        |i: int|
            Pos {
                x: ((START_LEN - 1 - i) % (width as int)) as usize,
                y: ((START_LEN - 1 - i) / (width as int)) as usize,
            },
    )
}

/// How one tick relates the agent, the goal and the score before and
/// after: either the game was already lost and nothing moves, or the
/// pending move collides and the game is lost, or the body slides one
/// cell (growing, scoring and respawning the goal when it lands on it).
pub open spec fn update_rel(
    pre: Snake,
    post: Snake,
    food_pre: Food,
    food_post: Food,
    score_pre: i32,
    score_post: i32,
) -> bool {
    &&& (pre.game_over ==> post == pre && food_post == food_pre && score_post == score_pre)
    &&& (!pre.game_over && pre.next_move_collides() ==> post.game_over && (post == (Snake {
        game_over: true,
        ..pre
    })) && food_post == food_pre && score_post == score_pre)
    &&& (!pre.game_over && !pre.next_move_collides() ==> ({
        let nh = step_cell(pre.head_spec(), pre.next_dir());
        let slid = seq![nh] + pre.body@.drop_last();
        let ate = nh == food_pre.pos;
        &&& !post.game_over
        &&& post.dir() == pre.next_dir()
        &&& post.next_dir() == pre.next_dir()
        &&& post.head_spec() == nh
        &&& (!ate ==> post.body@ == slid && food_post == food_pre && score_post == score_pre
            && post.game_win == pre.game_win)
        &&& (ate ==> post.body@ == slid.push(slid.last()) && score_post == score_pre + 1)
        &&& (ate ==> post.game_win == (forall|p: Pos|
            pos_in_bounds(p, pre.width, pre.height) ==> slid.contains(p)))
        &&& (ate && !post.game_win ==> pos_in_bounds(food_post.pos, pre.width, pre.height)
            && !slid.contains(food_post.pos))
        &&& (ate && post.game_win ==> food_post.pos == food_pre.pos)
    }))
}

impl Snake {
    /// Every cell of the body is on the grid and the body is never empty.
    pub open spec fn wf(self) -> bool {
        dims_ok(self.width, self.height) && START_LEN <= self.width * self.height
            && 1 <= self.body@.len() && forall|i: int|
            0 <= i < self.body@.len() ==> pos_in_bounds(
                #[trigger] self.body@[i],
                self.width,
                self.height,
            )
    }

    /// Current movement direction.
    pub open spec fn dir(self) -> Direction {
        self.direction
    }

    /// Direction that will be taken on the next update.
    pub open spec fn next_dir(self) -> Direction {
        self.next_direction
    }

    /// The head cell.
    pub open spec fn head_spec(self) -> Pos {
        self.body@[0]
    }

    /// The body without its head: the cells a planned route must avoid.
    pub open spec fn tail(self) -> Seq<Pos> {
        self.body@.drop_first()
    }

    /// A fresh agent on a `width` by `height` grid: `START_LEN` cells in
    /// row-major order ending at the origin, moving right.
    pub fn new(width: usize, height: usize) -> (r: Self)
        requires
            dims_ok(width, height),
            START_LEN <= width * height,
        ensures
            r.wf(),
            r.width == width,
            r.height == height,
            r.body@ == start_body(width, height),
            r.dir() == Direction::Right,
            r.next_dir() == Direction::Right,
            !r.game_over,
            !r.game_win,
    {
        let mut body: Vec<Pos> = Vec::new();
        let mut i: usize = START_LEN;
        while i > 0
            invariant
                dims_ok(width, height),
                START_LEN <= width * height,
                i <= START_LEN,
                body@.len() == START_LEN - i,
                forall|j: int| 0 <= j < body@.len() ==> body@[j] == start_body(width, height)[j],
                forall|j: int|
                    0 <= j < body@.len() ==> pos_in_bounds(#[trigger] body@[j], width, height),
            decreases i,
        {
            i -= 1;
            proof {
                lemma_row_major_bounds(i as int, width, height);
            }
            body.push(Pos { x: i % width, y: i / width });
        }
        proof {
            assert(body@ =~= start_body(width, height));
        }
        Snake {
            body,
            direction: Direction::Right,
            next_direction: Direction::Right,
            game_over: false,
            game_win: false,
            width,
            height,
        }
    }

    /// Put the agent back in its starting state, keeping the grid size.
    pub fn reset(&mut self)
        requires
            old(self).wf(),
        ensures
            final(self).wf(),
            final(self).width == old(self).width,
            final(self).height == old(self).height,
            final(self).body@ == start_body(old(self).width, old(self).height),
            final(self).dir() == Direction::Right,
            final(self).next_dir() == Direction::Right,
            !final(self).game_over,
            !final(self).game_win,
    {
        let fresh = Snake::new(self.width, self.height);
        *self = fresh;
    }

    /// Number of occupied cells.
    pub fn len(&self) -> (r: usize)
        ensures
            r == self.body@.len(),
    {
        self.body.len()
    }

    /// The head cell: the agent's current position and every search's
    /// origin.
    pub fn head(&self) -> (r: Pos)
        requires
            self.wf(),
        ensures
            r == self.head_spec(),
    {
        self.body[0]
    }

    /// The occupied cells without the head: the obstacle set a planner
    /// must route around.
    pub fn exclude_head(&self) -> (r: Vec<Pos>)
        requires
            self.wf(),
        ensures
            r@ == self.tail(),
    {
        let mut v: Vec<Pos> = Vec::new();
        let mut i: usize = 1;
        while i < self.body.len()
            invariant
                1 <= i <= self.body@.len(),
                v@.len() == i - 1,
                forall|j: int| 0 <= j < v@.len() ==> v@[j] == self.body@[j + 1],
            decreases self.body@.len() - i,
        {
            v.push(self.body[i]);
            i += 1;
        }
        proof {
            assert(v@ =~= self.tail());
        }
        v
    }

    /// The game is finished, by either losing or winning.
    pub fn game_ended(&self) -> (r: bool)
        ensures
            r == (self.game_over || self.game_win),
    {
        self.game_over || self.game_win
    }

    /// The cell one step from `vec` in `direction`, or `None` at the
    /// grid's edge.
    fn transform(&self, vec: &Pos, direction: &Direction) -> (r: Option<Pos>)
        requires
            self.wf(),
            pos_in_bounds(*vec, self.width, self.height),
        ensures
            r is Some <==> can_step(*vec, *direction, self.width, self.height),
            r matches Some(q) ==> is_step(*vec, *direction, q) && pos_in_bounds(
                q,
                self.width,
                self.height,
            ),
    {
        vec.adjacent(direction, self.width, self.height)
    }

    /// Moving on in the current direction would leave the grid or hit the
    /// body.
    pub open spec fn collides_now(self) -> bool {
        !can_step(self.head_spec(), self.dir(), self.width, self.height) || (exists|q: Pos|
            is_step(self.head_spec(), self.dir(), q) && self.tail().contains(q))
    }

    /// Moving on in the current direction would leave the grid or hit the
    /// body.
    pub fn would_collide(&self) -> (r: bool)
        requires
            self.wf(),
        ensures
            r == self.collides_now(),
    {
        let head = self.head();
        match head.adjacent(&self.direction, self.width, self.height) {
            Some(next) => {
                let tail = self.exclude_head();
                contains_pos(&tail, next)
            },
            None => true,
        }
    }

    /// Request a turn for the next update; a reversal into the agent's own
    /// neck is ignored.
    pub fn set_next_direction(&mut self, dir: Direction)
        ensures
            final(self).next_dir() == (if opposite_spec(old(self).dir()) != dir {
                dir
            } else {
                old(self).next_dir()
            }),
            *final(self) == (Snake { next_direction: final(self).next_direction, ..*old(self) }),
    {
        if !(self.direction.opposite() == dir) {
            self.next_direction = dir;
        }
    }

    /// The head's in-bounds neighbors not blocked by the body, in the
    /// fixed enumeration order of `neighbor_seq`.
    pub open spec fn cand_seq(self) -> Seq<Pos> {
        free_of(neighbor_seq(self.head_spec(), self.width, self.height), self.tail())
    }

    /// How much free room opens up behind `p`: the size of the free
    /// region around `p` when the body (head excluded) blocks the way.
    pub open spec fn cand_space(self, p: Pos) -> int {
        component(p, self.tail(), self.width, self.height).len() as int
    }

    /// Of the given cells, those not occupied by the body (head
    /// excluded), in order.
    fn get_free_spaces(&self, positions: Vec<Pos>) -> (r: Vec<Pos>)
        requires
            self.wf(),
        ensures
            r@ == free_of(positions@, self.tail()),
    {
        let tail = self.exclude_head();
        let mut free: Vec<Pos> = Vec::new();
        let mut i: usize = 0;
        while i < positions.len()
            invariant
                i <= positions@.len(),
                tail@ == self.tail(),
                free@ == free_of(positions@.take(i as int), self.tail()),
            decreases positions@.len() - i,
        {
            proof {
                assert(positions@.take(i + 1).drop_last() =~= positions@.take(i as int));
                assert(positions@.take(i + 1).last() == positions@[i as int]);
            }
            if !contains_pos(&tail, positions[i]) {
                free.push(positions[i]);
            }
            i += 1;
        }
        proof {
            assert(positions@.take(positions@.len() as int) =~= positions@);
        }
        free
    }

    /// Size of the free region around `pos` when the body (head excluded)
    /// blocks the way; zero when `pos` itself is occupied or off the grid.
    pub fn get_space(&self, pos: &Pos) -> (r: usize)
        requires
            self.wf(),
        ensures
            r == self.cand_space(*pos),
            !free_cell(*pos, self.tail(), self.width, self.height) ==> r == 0,
    {
        let obstacles = self.exclude_head();
        reachable_count(*pos, &obstacles, self.width, self.height)
    }

    /// A uniformly random move onto a free neighbor of the head, or
    /// `Right` when every neighbor is blocked (the agent is lost anyway).
    pub fn get_random_free_dir(&mut self) -> (r: Direction)
        requires
            old(self).wf(),
        ensures
            *final(self) == *old(self),
            old(self).cand_seq().len() == 0 ==> r == Direction::Right,
            old(self).cand_seq().len() > 0 ==> exists|i: int|
                0 <= i < old(self).cand_seq().len() && dir_to_spec(
                    old(self).head_spec(),
                    #[trigger] old(self).cand_seq()[i],
                ) == Some(r),
    {
        let head = self.head();
        let neighbors = head.get_neighbors(self.width, self.height);
        let free = self.get_free_spaces(neighbors);
        proof {
            lemma_free_of_props(
                neighbor_seq(self.head_spec(), self.width, self.height),
                self.tail(),
            );
        }
        match choose_one(&free) {
            Some(next) => {
                proof {
                    let c = self.cand_seq();
                    let i = choose|i: int| 0 <= i < c.len() && c[i] == next;
                    assert(neighbor_seq(self.head_spec(), self.width, self.height).contains(next));
                    let j = choose|j: int|
                        0 <= j < neighbor_seq(self.head_spec(), self.width, self.height).len()
                            && neighbor_seq(self.head_spec(), self.width, self.height)[j] == next;
                    lemma_adjacent_characterization(self.head_spec(), next);
                }
                match head.get_dir_to(&next) {
                    Some(d) => d,
                    None => {
                        proof {
                            assert(false);
                        }
                        Direction::Right
                    },
                }
            },
            None => Direction::Right,
        }
    }

    /// The move that keeps the most room: a free neighbor of the head
    /// whose connected free region is largest, ties going to the first
    /// such neighbor in the fixed enumeration order. `Right` when every
    /// neighbor is blocked (the agent is lost anyway).
    #[verifier::loop_isolation(false)]
    pub fn get_dir_of_free_space(&mut self) -> (r: Direction)
        requires
            old(self).wf(),
        ensures
            *final(self) == *old(self),
            old(self).cand_seq().len() == 0 ==> r == Direction::Right,
            old(self).cand_seq().len() == 1 ==> dir_to_spec(
                old(self).head_spec(),
                old(self).cand_seq()[0],
            ) == Some(r),
            old(self).cand_seq().len() >= 2 ==> ({
                let c = old(self).cand_seq();
                let b = best_idx_upto(
                    c,
                    old(self).tail(),
                    old(self).width,
                    old(self).height,
                    c.len() as int,
                );
                0 <= b < c.len() && dir_to_spec(old(self).head_spec(), c[b]) == Some(r)
            }),
    {
        let head = self.head();
        let neighbors = head.get_neighbors(self.width, self.height);
        let free = self.get_free_spaces(neighbors);
        let ghost c = self.cand_seq();
        proof {
            lemma_free_of_props(
                neighbor_seq(self.head_spec(), self.width, self.height),
                self.tail(),
            );
        }
        if free.len() == 1 {
            proof {
                lemma_adjacent_characterization(self.head_spec(), c[0]);
            }
            return match head.get_dir_to(&free[0]) {
                Some(d) => d,
                None => {
                    proof {
                        assert(false);
                    }
                    Direction::Right
                },
            };
        }
        let mut max_space: usize = 0;
        let mut max_pos: Option<Pos> = None;
        let mut i: usize = 0;
        while i < free.len()
            invariant
                i <= free@.len(),
                ({
                    let b = best_idx_upto(c, self.tail(), self.width, self.height, i as int);
                    &&& (b == -1 ==> max_pos is None && max_space == 0)
                    &&& (b >= 0 ==> 0 <= b < c.len() && max_pos == Some(c[b]) && max_space
                        == self.cand_space(c[b]))
                }),
            decreases free@.len() - i,
        {
            proof {
                lemma_best_idx_range(c, self.tail(), self.width, self.height, i as int);
            }
            let p = free[i];
            let space = self.get_space(&p);
            if space > max_space {
                max_pos = Some(p);
                max_space = space;
            }
            i += 1;
        }
        match max_pos {
            Some(p) => {
                proof {
                    let b = best_idx_upto(
                        c,
                        self.tail(),
                        self.width,
                        self.height,
                        c.len() as int,
                    );
                    lemma_best_idx_range(c, self.tail(), self.width, self.height, c.len() as int);
                    assert(p == c[b]);
                    lemma_adjacent_characterization(self.head_spec(), p);
                }
                match head.get_dir_to(&p) {
                    Some(d) => d,
                    None => {
                        proof {
                            assert(false);
                        }
                        Direction::Right
                    },
                }
            },
            None => {
                proof {
                    if c.len() >= 2 {
                        assert(free_cell(c[0], self.tail(), self.width, self.height));
                        lemma_component_nonempty(c[0], self.tail(), self.width, self.height);
                        lemma_best_idx_nonneg(
                            c,
                            self.tail(),
                            self.width,
                            self.height,
                            c.len() as int,
                        );
                        assert(false);
                    }
                }
                Direction::Right
            },
        }
    }

    /// Moving one step in the pending direction would end the game:
    /// the step leaves the grid or lands on the body.
    pub open spec fn next_move_collides(self) -> bool {
        !can_step(self.head_spec(), self.next_dir(), self.width, self.height) || self.tail()
            .contains(step_cell(self.head_spec(), self.next_dir()))
    }

    /// Flag the game as lost when the pending move would collide; no
    /// other state changes.
    fn collide(&mut self)
        requires
            old(self).wf(),
        ensures
            final(self).wf(),
            *final(self) == (Snake { game_over: final(self).game_over, ..*old(self) }),
            final(self).game_over == (old(self).game_over || old(self).next_move_collides()),
    {
        proof {
            lemma_step_cell(self.head_spec(), self.next_dir(), self.width, self.height);
        }
        if !self.game_over {
            let head = self.head();
            match self.transform(&head, &self.next_direction) {
                None => {
                    self.game_over = true;
                },
                Some(pos) => {
                    let tail = self.exclude_head();
                    if contains_pos(&tail, pos) {
                        self.game_over = true;
                    } else {
                        self.game_over = !in_bounds(head.x, head.y, self.width, self.height);
                    }
                },
            }
        }
    }

    /// When the head has landed on the goal: grow by one cell, move the
    /// goal to a random cell not occupied by the body, and declare a win
    /// when no such cell is left.
    fn eat_food(&mut self, food: &mut Food) -> (r: bool)
        requires
            old(self).wf(),
        ensures
            final(self).wf(),
            r == (old(self).head_spec() == old(food).pos),
            !r ==> *final(self) == *old(self) && *final(food) == *old(food),
            r ==> final(self).body@ == old(self).body@.push(old(self).body@.last()),
            r ==> *final(self) == (Snake {
                body: final(self).body,
                game_win: final(self).game_win,
                ..*old(self)
            }),
            r ==> final(self).game_win == (forall|p: Pos|
                pos_in_bounds(p, old(self).width, old(self).height) ==> old(
                    self,
                ).body@.contains(p)),
            r && !final(self).game_win ==> pos_in_bounds(
                final(food).pos,
                old(self).width,
                old(self).height,
            ) && !old(self).body@.contains(final(food).pos),
            r && final(self).game_win ==> final(food).pos == old(food).pos,
    {
        let head = self.head();
        if head.x == food.pos.x && head.y == food.pos.y {
            self.game_win = food.respawn(self);
            let tmp = self.body[self.body.len() - 1];
            self.body.push(tmp);
            true
        } else {
            false
        }
    }

    /// One tick of the agent: end the game if the pending move collides,
    /// otherwise take the move (the body slides one cell forward), and
    /// consume the goal when the new head lands on it, growing by one
    /// cell and raising the score.
    pub fn update(&mut self, food: &mut Food, score: &mut i32)
        requires
            old(self).wf(),
            *old(score) < i32::MAX,
        ensures
            final(self).wf(),
            final(self).width == old(self).width && final(self).height == old(self).height,
            update_rel(
                *old(self),
                *final(self),
                *old(food),
                *final(food),
                *old(score),
                *final(score),
            ),
    {
        self.collide();
        if self.game_over {
            return ;
        }
        proof {
            lemma_step_cell(self.head_spec(), self.next_dir(), self.width, self.height);
        }
        self.direction = self.next_direction;
        let head = self.head();
        match self.transform(&head, &self.direction) {
            Some(next) => {
                self.body.insert(0, next);
                self.body.remove(self.body.len() - 1);
                proof {
                    assert(self.body@ =~= seq![next] + old(self).body@.drop_last());
                }
            },
            None => {
                proof {
                    assert(false);
                }
            },
        }
        if self.eat_food(food) {
            *score = *score + 1;
        }
    }
}

/// The goal cell the agent is steered toward.
pub struct Food {
    pub pos: Pos,
}

impl Food {
    /// A goal on a uniformly random cell of the grid (it may land on the
    /// agent; the planner only ever routes toward it).
    pub fn new(width: usize, height: usize) -> (r: Self)
        requires
            dims_ok(width, height),
        ensures
            pos_in_bounds(r.pos, width, height),
    {
        Food { pos: Pos { x: rand_below(width), y: rand_below(height) } }
    }

    /// Every cell of the grid the agent does not occupy.
    fn get_free_spaces(&self, snake: &Snake) -> (r: Vec<Pos>)
        requires
            snake.wf(),
        ensures
            forall|p: Pos|
                r@.contains(p) <==> (pos_in_bounds(p, snake.width, snake.height)
                    && !snake.body@.contains(p)),
    {
        let mut spaces: Vec<Pos> = Vec::new();
        let mut x: usize = 0;
        while x < snake.width
            invariant
                snake.wf(),
                x <= snake.width,
                forall|p: Pos|
                    spaces@.contains(p) <==> (pos_in_bounds(p, snake.width, snake.height)
                        && !snake.body@.contains(p) && p.x < x),
            decreases snake.width - x,
        {
            let mut y: usize = 0;
            while y < snake.height
                invariant
                    snake.wf(),
                    x < snake.width,
                    y <= snake.height,
                    forall|p: Pos|
                        spaces@.contains(p) <==> (pos_in_bounds(p, snake.width, snake.height)
                            && !snake.body@.contains(p) && (p.x < x || (p.x == x && p.y < y))),
                decreases snake.height - y,
            {
                let cell = Pos { x, y };
                let occupied = contains_pos(&snake.body, cell);
                let ghost prev = spaces@;
                if !occupied {
                    proof {
                        lemma_push_contains(spaces@, cell);
                    }
                    spaces.push(cell);
                }
                proof {
                    assert(pos_in_bounds(cell, snake.width, snake.height));
                    if !occupied {
                        assert(spaces@ == prev.push(cell));
                    }
                    assert forall|p: Pos|
                        spaces@.contains(p) <==> (pos_in_bounds(p, snake.width, snake.height)
                            && !snake.body@.contains(p) && (p.x < x || (p.x == x && p.y < y
                            + 1))) by {
                        if p == cell {
                            if occupied {
                                assert(!prev.contains(p));
                            } else {
                                assert(prev.push(cell)[prev.len() as int] == cell);
                                assert(prev.push(cell).contains(p));
                            }
                        } else {
                            if p.x == x && p.y == y {
                                assert(p == cell);
                            }
                            if !occupied {
                                assert(prev.push(cell).contains(p) == (prev.contains(p) || p
                                    == cell));
                            }
                            assert(spaces@.contains(p) == prev.contains(p));
                        }
                    }
                }
                y += 1;
            }
            x += 1;
        }
        spaces
    }

    /// Move the goal to a random cell the agent does not occupy; reports
    /// a win (and leaves the goal in place) when the agent fills the
    /// whole grid.
    pub fn respawn(&mut self, snake: &Snake) -> (r: bool)
        requires
            snake.wf(),
        ensures
            r == (forall|p: Pos|
                pos_in_bounds(p, snake.width, snake.height) ==> snake.body@.contains(p)),
            r ==> final(self).pos == old(self).pos,
            !r ==> pos_in_bounds(final(self).pos, snake.width, snake.height)
                && !snake.body@.contains(final(self).pos),
    {
        let free = self.get_free_spaces(snake);
        match choose_one(&free) {
            Some(p) => {
                proof {
                    assert(free@.contains(p));
                    assert(pos_in_bounds(p, snake.width, snake.height) && !snake.body@.contains(
                        p,
                    ));
                }
                self.pos = p;
                false
            },
            None => {
                proof {
                    assert forall|p: Pos|
                        pos_in_bounds(p, snake.width, snake.height) implies snake.body@.contains(
                        p,
                    ) by {
                        assert(!free@.contains(p));
                    }
                }
                true
            },
        }
    }
}

} // verus!
