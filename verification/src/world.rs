//! The simulation state machine: heading, snake body, alive flag, and the
//! screen buffer it paints into. The buffer itself is the occupancy index:
//! each tick reads the color ahead of the snake before writing anything,
//! and that single read distinguishes eating, colliding and plain motion.

pub mod coord;
pub mod screen;
pub mod vec2d;

pub use screen::Color;
pub use screen::Screen;

use rand::Rng;

use self::coord::Coord;
use self::screen::{
    count_color, lemma_cell_from_xy, lemma_cell_split, lemma_count_color_update,
    lemma_count_color_zero, lemma_dims_fit,
};
use vstd::prelude::*;

verus! {

/// Number of cells in the freshly placed snake.
pub const START_LEN: i32 = 7;

/// A heading is one of the four axis-aligned unit vectors.
pub open spec fn is_unit_heading(d: Coord) -> bool {
    ||| d.x == 1 && d.y == 0
    ||| d.x == -1 && d.y == 0
    ||| d.x == 0 && d.y == 1
    ||| d.x == 0 && d.y == -1
}

/// The color of cell `(x, y)` right after construction or revive: a
/// horizontal snake at mid-height starting at the left edge, one food cell
/// two rows above the cell just right of the snake, background elsewhere.
pub open spec fn initial_color(width: int, height: int, x: int, y: int) -> Color {
    if y == height / 2 && 0 <= x < START_LEN {
        Color::Snake
    } else if x == START_LEN && y == height / 2 - 2 {
        Color::Food
    } else {
        Color::Background
    }
}

/// The body of the freshly placed snake, tail first.
pub open spec fn initial_snake(height: int) -> Seq<Coord> {
    Seq::new(START_LEN as nat, |i: int| Coord { x: i as i32, y: (height / 2) as i32 })
}

/// The simulation state: a screen, the current heading, the snake body in
/// order from tail to head, and the two terminal flags.
pub struct World {
    pub screen: Screen,
    pub direction: Coord,
    pub snake: Vec<Coord>,
    pub alive: bool,
    pub filled: bool,
}

impl World {
    /// The game still advances: the snake is alive and the board is not full.
    pub open spec fn playing(self) -> bool {
        self.alive && !self.filled
    }

    /// The coordinate lies inside the board.
    pub open spec fn in_bounds(self, c: Coord) -> bool {
        self.screen.coord_in_bounds(c)
    }

    /// The snake's head: the last body element.
    pub open spec fn head(self) -> Coord {
        self.snake@.last()
    }

    /// Some body element lies at `(x, y)`.
    pub open spec fn occupies(self, x: int, y: int) -> bool {
        exists|i: int|
            0 <= i < self.snake@.len() && (#[trigger] self.snake@[i]).x == x && self.snake@[i].y
                == y
    }

    /// A cell is colored `Snake` exactly when the body occupies it.
    pub open spec fn snake_matches_grid(self) -> bool {
        forall|x: int, y: int|
            0 <= x < self.screen.width && 0 <= y < self.screen.height ==> ((
            #[trigger] self.screen.color_at(x, y)) == Color::Snake <==> self.occupies(x, y))
    }

    /// The body is non-empty and stays inside the board.
    pub open spec fn snake_cells_ok(self) -> bool {
        &&& self.snake@.len() >= 1
        &&& forall|i: int| 0 <= i < self.snake@.len() ==> self.in_bounds(#[trigger] self.snake@[i])
    }

    /// No cell appears twice in the body.
    pub open spec fn snake_distinct(self) -> bool {
        forall|i: int, j: int|
            0 <= i < j < self.snake@.len() ==> #[trigger] self.snake@[i] != #[trigger] self.snake@[j]
    }

    /// The state invariant. While the game is running, the buffer colors,
    /// the body list and the food count agree; once the snake is dead or the
    /// board is full, only the structural parts remain.
    pub open spec fn inv(self) -> bool {
        &&& self.screen.wf()
        &&& START_LEN < self.screen.width
        &&& 4 <= self.screen.height
        &&& is_unit_heading(self.direction)
        &&& self.snake_cells_ok()
        &&& self.playing() ==> self.snake_distinct()
        &&& self.playing() ==> self.snake_matches_grid()
        &&& self.playing() ==> count_color(self.screen.grid(), Color::Food) == 1
        &&& self.playing() ==> count_color(self.screen.grid(), Color::Snake) == self.snake@.len()
    }

    /// The cell the head will move onto: one step along the heading, wrapped
    /// toroidally into the board.
    pub open spec fn next_head(self) -> Coord {
        let w = self.screen.width as int;
        let h = self.screen.height as int;
        Coord {
            x: ((self.head().x + self.direction.x + w) % w) as i32,
            y: ((self.head().y + self.direction.y + h) % h) as i32,
        }
    }

    /// The color currently at the cell the head will move onto.
    pub open spec fn ahead_color(self) -> Color {
        self.screen.color_at(self.next_head().x as int, self.next_head().y as int)
    }

    /// The next tick lands on the snake's own body.
    pub open spec fn collides(self) -> bool {
        self.playing() && self.ahead_color() == Color::Snake
    }

    /// The next tick lands on the food cell.
    pub open spec fn eats(self) -> bool {
        self.playing() && self.ahead_color() == Color::Food
    }

    /// The next tick lands on a free cell.
    pub open spec fn moves(self) -> bool {
        self.playing() && self.ahead_color() != Color::Snake && self.ahead_color() != Color::Food
    }

    /// The state a `width x height` world has right after construction, and
    /// again right after a revive: the initial layout, rightward heading,
    /// the initial body, alive, board not full.
    pub open spec fn is_fresh(self, width: int, height: int) -> bool {
        &&& self.screen.wf()
        &&& self.screen.width == width
        &&& self.screen.height == height
        &&& self.direction == (Coord { x: 1i32, y: 0i32 })
        &&& self.snake@ == initial_snake(height)
        &&& self.alive
        &&& !self.filled
        &&& forall|x: int, y: int|
            0 <= x < width && 0 <= y < height ==> #[trigger] self.screen.color_at(x, y)
                == initial_color(width, height, x, y)
    }

    /// Build a world: clear the screen, place the initial snake and food.
    pub fn new(width: u32, height: u32) -> (w: World)
        requires
            START_LEN < width,
            4 <= height,
            width * height * 4 <= u32::MAX,
        ensures
            w.inv(),
            w.is_fresh(width as int, height as int),
    {
        let mut world = World {
            screen: Screen::new(width, height),
            direction: Coord::new(1, 0),
            snake: Vec::new(),
            alive: true,
            filled: false,
        };
        world.screen.clear();
        world.create_initial_snake();
        world.create_initial_food();
        proof {
            world.lemma_fresh_implies_inv(width as int, height as int);
        }
        world
    }

    /// Advance the simulation by exactly one step. Does nothing once the
    /// snake is dead or the board is full. Otherwise the head advances one
    /// cell along the heading with toroidal wraparound; landing on food
    /// grows the snake and spawns new food, landing on the body kills the
    /// snake and paints the border, landing on a free cell moves the snake.
    #[verifier::rlimit(100)]
    pub fn tick(&mut self)
        requires
            old(self).inv(),
        ensures
            final(self).inv(),
            final(self).screen.width == old(self).screen.width,
            final(self).screen.height == old(self).screen.height,
            !old(self).playing() ==> *final(self) == *old(self),
            old(self).playing() ==> final(self).direction == old(self).direction,
            old(self).collides() ==> !final(self).alive,
            old(self).collides() ==> final(self).snake@ == old(self).snake@.push(
                old(self).next_head(),
            ),
            old(self).collides() ==> forall|x: int, y: int|
                0 <= x < old(self).screen.width && 0 <= y < old(self).screen.height
                    ==> #[trigger] final(self).screen.color_at(x, y) == (if x == 0 || y == 0 || x
                    == old(self).screen.width - 1 || y == old(self).screen.height - 1 {
                    Color::Fail
                } else {
                    old(self).screen.color_at(x, y)
                }),
            old(self).eats() ==> final(self).alive,
            old(self).eats() ==> final(self).snake@ == old(self).snake@.push(
                old(self).next_head(),
            ),
            old(self).eats() ==> count_color(final(self).screen.grid(), Color::Snake)
                == count_color(old(self).screen.grid(), Color::Snake) + 1,
            old(self).eats() && !final(self).filled ==> count_color(
                final(self).screen.grid(),
                Color::Food,
            ) == 1,
            old(self).eats() && !final(self).filled ==> exists|fx: int, fy: int|
                0 <= fx < old(self).screen.width && 0 <= fy < old(self).screen.height && old(
                    self,
                ).screen.color_at(fx, fy) == Color::Background && #[trigger] final(self).screen.color_at(fx, fy) == Color::Food && forall|x: int, y: int|
                    0 <= x < old(self).screen.width && 0 <= y < old(self).screen.height
                        ==> #[trigger] final(self).screen.color_at(x, y) == (if x == fx && y == fy {
                        Color::Food
                    } else if x == old(self).next_head().x && y == old(self).next_head().y {
                        Color::Snake
                    } else {
                        old(self).screen.color_at(x, y)
                    }),
            old(self).eats() && final(self).filled ==> forall|x: int, y: int|
                0 <= x < old(self).screen.width && 0 <= y < old(self).screen.height
                    ==> #[trigger] final(self).screen.color_at(x, y) != Color::Background,
            old(self).moves() ==> final(self).alive && !final(self).filled,
            old(self).moves() ==> final(self).snake@ == old(self).snake@.subrange(
                1,
                old(self).snake@.len() as int,
            ).push(old(self).next_head()),
            old(self).moves() ==> count_color(final(self).screen.grid(), Color::Snake)
                == count_color(old(self).screen.grid(), Color::Snake),
            old(self).moves() ==> forall|x: int, y: int|
                0 <= x < old(self).screen.width && 0 <= y < old(self).screen.height
                    ==> #[trigger] final(self).screen.color_at(x, y) == (if x == old(
                    self,
                ).snake@[0].x && y == old(self).snake@[0].y {
                    Color::Background
                } else if x == old(self).next_head().x && y == old(self).next_head().y {
                    Color::Snake
                } else {
                    old(self).screen.color_at(x, y)
                }),
    {
        if self.alive && !self.filled {
            let ghost pre = *self;
            let new_head = self.get_new_head();
            let new_head_pixel = self.screen.get_color_at(&new_head);
            proof {
                pre.lemma_occupied_cells_are_snake();
            }
            self.extend_head_to(&new_head);
            match new_head_pixel {
                Color::Food => {
                    let ghost mid = *self;
                    proof {
                        self.lemma_after_extend(pre, new_head);
                    }
                    self.create_food();
                    proof {
                        self.lemma_after_food(pre, mid, new_head);
                    }
                },
                Color::Snake => {
                    let ghost mid = *self;
                    proof {
                        let w = pre.screen.width as int;
                        let h = pre.screen.height as int;
                        assert forall|x: int, y: int|
                            0 <= x < w && 0 <= y < h implies #[trigger] mid.screen.color_at(x, y)
                            == pre.screen.color_at(x, y) by {}
                        assert forall|i: int|
                            0 <= i < mid.snake@.len() implies mid.in_bounds(
                            #[trigger] mid.snake@[i],
                        ) by {
                            if i < pre.snake@.len() {
                                assert(mid.snake@[i] == pre.snake@[i]);
                            }
                        }
                    }
                    self.die();
                    proof {
                        let w = pre.screen.width as int;
                        let h = pre.screen.height as int;
                        assert forall|x: int, y: int|
                            0 <= x < w && 0 <= y < h implies #[trigger] self.screen.color_at(x, y)
                            == (if x == 0 || y == 0 || x == w - 1 || y == h - 1 {
                            Color::Fail
                        } else {
                            pre.screen.color_at(x, y)
                        }) by {}
                        assert forall|i: int|
                            0 <= i < self.snake@.len() implies self.in_bounds(
                            #[trigger] self.snake@[i],
                        ) by {
                            assert(self.snake@[i] == mid.snake@[i]);
                        }
                    }
                },
                _ => {
                    let ghost mid = *self;
                    proof {
                        self.lemma_after_extend(pre, new_head);
                    }
                    self.shorten_tail();
                    proof {
                        self.lemma_after_move(pre, mid, new_head);
                    }
                },
            }
        }
    }

    /// Handle a pointer click. While the game runs it is a turn request: the
    /// heading flips to the other axis, toward the clicked cell relative to
    /// the head; a reversal is impossible by construction. Once the snake is
    /// dead or the board is full it is a revive request: the world returns
    /// to the freshly constructed state, ignoring `x` and `y`.
    pub fn click(&mut self, x: i32, y: i32)
        requires
            old(self).inv(),
        ensures
            final(self).inv(),
            final(self).screen.width == old(self).screen.width,
            final(self).screen.height == old(self).screen.height,
            old(self).playing() ==> final(self).screen == old(self).screen,
            old(self).playing() ==> final(self).snake == old(self).snake,
            old(self).playing() ==> final(self).alive == old(self).alive,
            old(self).playing() ==> final(self).filled == old(self).filled,
            old(self).playing() && old(self).direction.x == 0 ==> final(self).direction == (Coord {
                x: if x < old(self).head().x {
                    -1i32
                } else {
                    1i32
                },
                y: 0i32,
            }),
            old(self).playing() && old(self).direction.x != 0 ==> final(self).direction == (Coord {
                x: 0i32,
                y: if y < old(self).head().y {
                    -1i32
                } else {
                    1i32
                },
            }),
            old(self).playing() ==> ((final(self).direction.x == 0) <==> (old(self).direction.x
                != 0)),
            old(self).playing() ==> !(final(self).direction.x == -old(self).direction.x && final(self).direction.y == -old(self).direction.y),
            !old(self).playing() ==> final(self).is_fresh(
                old(self).screen.width as int,
                old(self).screen.height as int,
            ),
    {
        if self.alive && !self.filled {
            let head = self.snake[self.snake.len() - 1];
            if self.direction.x == 0 {
                self.direction = Coord::new(if x < head.x { -1 } else { 1 }, 0);
            } else {
                self.direction = Coord::new(0, if y < head.y { -1 } else { 1 });
            }
        } else {
            self.reset_game();
        }
    }

    /// Return to the freshly constructed state: rightward heading, cleared
    /// screen, initial snake and food.
    fn reset_game(&mut self)
        requires
            old(self).screen.sized(),
            old(self).screen.alpha_ok(),
            START_LEN < old(self).screen.width,
            4 <= old(self).screen.height,
        ensures
            final(self).inv(),
            final(self).is_fresh(old(self).screen.width as int, old(self).screen.height as int),
            final(self).screen.width == old(self).screen.width,
            final(self).screen.height == old(self).screen.height,
    {
        self.direction = Coord::new(1, 0);
        self.snake = Vec::new();
        self.alive = true;
        self.filled = false;
        self.screen.clear();
        self.create_initial_snake();
        self.create_initial_food();
        proof {
            self.lemma_fresh_implies_inv(
                old(self).screen.width as int,
                old(self).screen.height as int,
            );
        }
    }

    /// Paint the initial horizontal snake at mid-height and record its body.
    fn create_initial_snake(&mut self)
        requires
            old(self).screen.wf(),
            START_LEN < old(self).screen.width,
            4 <= old(self).screen.height,
            old(self).snake@.len() == 0,
            forall|x: int, y: int|
                0 <= x < old(self).screen.width && 0 <= y < old(self).screen.height
                    ==> #[trigger] old(self).screen.color_at(x, y) == Color::Background,
        ensures
            final(self).screen.wf(),
            final(self).screen.width == old(self).screen.width,
            final(self).screen.height == old(self).screen.height,
            final(self).direction == old(self).direction,
            final(self).alive == old(self).alive,
            final(self).filled == old(self).filled,
            final(self).snake@ == initial_snake(old(self).screen.height as int),
            forall|x: int, y: int|
                0 <= x < final(self).screen.width && 0 <= y < final(self).screen.height
                    ==> #[trigger] final(self).screen.color_at(x, y) == (if y == old(
                    self,
                ).screen.height / 2 && 0 <= x < START_LEN {
                    Color::Snake
                } else {
                    Color::Background
                }),
            count_color(final(self).screen.grid(), Color::Snake) == START_LEN,
            count_color(final(self).screen.grid(), Color::Food) == 0,
    {
        let ghost w = old(self).screen.width as int;
        let ghost h = old(self).screen.height as int;
        let start_y = (self.screen.height / 2) as i32;
        proof {
            lemma_dims_fit(w, h);
            assert forall|i: int| 0 <= i < w * h implies #[trigger] old(self).screen.cell_color(i)
                != Color::Snake && old(self).screen.cell_color(i) != Color::Food by {
                lemma_cell_split(w, h, i);
                assert(old(self).screen.color_at(i % w, i / w) == Color::Background);
            }
            lemma_count_color_zero(old(self).screen.grid(), Color::Snake);
            lemma_count_color_zero(old(self).screen.grid(), Color::Food);
        }
        let mut x: i32 = 0;
        while x < START_LEN
            invariant
                0 <= x <= START_LEN,
                w == self.screen.width as int,
                h == self.screen.height as int,
                START_LEN < self.screen.width,
                4 <= self.screen.height,
                self.screen.wf(),
                self.screen.width == old(self).screen.width,
                self.screen.height == old(self).screen.height,
                start_y == self.screen.height / 2,
                self.direction == old(self).direction,
                self.alive == old(self).alive,
                self.filled == old(self).filled,
                self.snake@ == initial_snake(old(self).screen.height as int).subrange(0, x as int),
                forall|xx: int, yy: int|
                    0 <= xx < self.screen.width && 0 <= yy < self.screen.height
                        ==> #[trigger] self.screen.color_at(xx, yy) == (if yy == start_y && 0 <= xx
                        < x {
                        Color::Snake
                    } else {
                        Color::Background
                    }),
                count_color(self.screen.grid(), Color::Snake) == x,
                count_color(self.screen.grid(), Color::Food) == 0,
            decreases START_LEN - x,
        {
            let coord = Coord { x, y: start_y };
            let ghost before = self.screen;
            proof {
                lemma_cell_from_xy(w, h, x as int, start_y as int);
            }
            self.screen.set_color_at(&coord, Color::Snake);
            self.snake.push(coord);
            proof {
                lemma_count_color_update(
                    before.grid(),
                    before.cell_of(coord),
                    Color::Snake,
                    Color::Snake,
                );
                lemma_count_color_update(
                    before.grid(),
                    before.cell_of(coord),
                    Color::Snake,
                    Color::Food,
                );
                assert(before.grid()[before.cell_of(coord)] == before.color_at(
                    x as int,
                    start_y as int,
                ));
                assert(self.snake@ =~= initial_snake(h).subrange(0, x + 1));
                assert forall|xx: int, yy: int|
                    0 <= xx < self.screen.width && 0 <= yy
                        < self.screen.height implies #[trigger] self.screen.color_at(xx, yy) == (
                if yy == start_y && 0 <= xx < x + 1 {
                    Color::Snake
                } else {
                    Color::Background
                }) by {
                    lemma_cell_from_xy(w, h, xx, yy);
                    if !(xx == x && yy == start_y) {
                        assert(yy * w + xx != before.cell_of(coord));
                        assert(self.screen.color_at(xx, yy) == before.color_at(xx, yy));
                    }
                }
            }
            x = x + 1;
        }
        proof {
            assert(self.snake@ =~= initial_snake(h));
        }
    }

    /// Paint the initial food cell, two rows above the snake's row.
    fn create_initial_food(&mut self)
        requires
            old(self).screen.wf(),
            START_LEN < old(self).screen.width,
            4 <= old(self).screen.height,
            forall|x: int, y: int|
                0 <= x < old(self).screen.width && 0 <= y < old(self).screen.height
                    ==> #[trigger] old(self).screen.color_at(x, y) == (if y == old(
                    self,
                ).screen.height / 2 && 0 <= x < START_LEN {
                    Color::Snake
                } else {
                    Color::Background
                }),
            count_color(old(self).screen.grid(), Color::Snake) == START_LEN,
            count_color(old(self).screen.grid(), Color::Food) == 0,
        ensures
            final(self).screen.wf(),
            final(self).screen.width == old(self).screen.width,
            final(self).screen.height == old(self).screen.height,
            final(self).direction == old(self).direction,
            final(self).alive == old(self).alive,
            final(self).filled == old(self).filled,
            final(self).snake == old(self).snake,
            forall|x: int, y: int|
                0 <= x < final(self).screen.width && 0 <= y < final(self).screen.height
                    ==> #[trigger] final(self).screen.color_at(x, y) == initial_color(
                    final(self).screen.width as int,
                    final(self).screen.height as int,
                    x,
                    y,
                ),
            count_color(final(self).screen.grid(), Color::Snake) == START_LEN,
            count_color(final(self).screen.grid(), Color::Food) == 1,
    {
        let ghost w = old(self).screen.width as int;
        let ghost h = old(self).screen.height as int;
        let initial_food_y = (self.screen.height / 2 - 2) as i32;
        let coord = Coord { x: START_LEN, y: initial_food_y };
        let ghost before = self.screen;
        proof {
            lemma_dims_fit(w, h);
            lemma_cell_from_xy(w, h, START_LEN as int, initial_food_y as int);
        }
        self.screen.set_color_at(&coord, Color::Food);
        proof {
            lemma_count_color_update(
                before.grid(),
                before.cell_of(coord),
                Color::Food,
                Color::Snake,
            );
            lemma_count_color_update(
                before.grid(),
                before.cell_of(coord),
                Color::Food,
                Color::Food,
            );
            assert(before.grid()[before.cell_of(coord)] == before.color_at(
                START_LEN as int,
                initial_food_y as int,
            ));
            assert forall|x: int, y: int|
                0 <= x < self.screen.width && 0 <= y
                    < self.screen.height implies #[trigger] self.screen.color_at(x, y)
                == initial_color(w, h, x, y) by {
                lemma_cell_from_xy(w, h, x, y);
                if !(x == START_LEN && y == initial_food_y) {
                    assert(y * w + x != before.cell_of(coord));
                    assert(self.screen.color_at(x, y) == before.color_at(x, y));
                }
            }
        }
    }

    /// From the initial layout and body, the state invariant holds.
    proof fn lemma_fresh_implies_inv(&self, width: int, height: int)
        requires
            self.is_fresh(width, height),
            START_LEN < width,
            4 <= height,
        ensures
            self.inv(),
    {
        let w = width;
        let h = height;
        assert(self.snake@.len() == START_LEN);
        assert forall|i: int| 0 <= i < self.snake@.len() implies self.in_bounds(
            #[trigger] self.snake@[i],
        ) by {
            assert(self.snake@[i] == (Coord { x: i as i32, y: (h / 2) as i32 }));
        }
        assert forall|x: int, y: int| 0 <= x < w && 0 <= y < h implies ((
        #[trigger] self.screen.color_at(x, y)) == Color::Snake <==> self.occupies(x, y)) by {
            if self.screen.color_at(x, y) == Color::Snake {
                assert(initial_color(w, h, x, y) == Color::Snake);
                assert(y == h / 2 && 0 <= x < START_LEN);
                assert((#[trigger] self.snake@[x]).x == x && self.snake@[x].y == y);
            }
            if self.occupies(x, y) {
                let i = choose|i: int|
                    0 <= i < self.snake@.len() && (#[trigger] self.snake@[i]).x == x
                        && self.snake@[i].y == y;
                assert(self.snake@[i] == (Coord { x: i as i32, y: (h / 2) as i32 }));
                assert(initial_color(w, h, x, y) == Color::Snake);
            }
        }
        let g = self.screen.grid();
        assert forall|i: int| 0 <= i < g.len() implies (#[trigger] g[i] == Color::Food <==> i == (h
            / 2 - 2) * w + START_LEN) by {
            lemma_cell_split(w, h, i);
            assert(g[i] == self.screen.color_at(i % w, i / w));
            if g[i] == Color::Food {
                assert(initial_color(w, h, i % w, i / w) == Color::Food);
                assert(i % w == START_LEN && i / w == h / 2 - 2);
                vstd::arithmetic::div_mod::lemma_fundamental_div_mod(i, w);
            } else {
                if i == (h / 2 - 2) * w + START_LEN {
                    lemma_cell_from_xy(w, h, START_LEN as int, h / 2 - 2);
                    assert(initial_color(w, h, START_LEN as int, h / 2 - 2) == Color::Food);
                }
            }
        }
        assert forall|i: int, j: int|
            0 <= i < j < self.snake@.len() implies #[trigger] self.snake@[i]
            != #[trigger] self.snake@[j] by {
            assert(self.snake@[i] == (Coord { x: i as i32, y: (h / 2) as i32 }));
            assert(self.snake@[j] == (Coord { x: j as i32, y: (h / 2) as i32 }));
        }
        lemma_cell_from_xy(w, h, START_LEN as int, h / 2 - 2);
        lemma_count_color_single(g, Color::Food, (h / 2 - 2) * w + START_LEN);
        self.lemma_snake_count_from_match();
    }

    /// While the invariant's matching clause holds, the number of
    /// snake-colored cells equals the body length.
    proof fn lemma_snake_count_from_match(&self)
        requires
            self.screen.sized(),
            self.snake_cells_ok(),
            self.snake_distinct(),
            self.snake_matches_grid(),
        ensures
            count_color(self.screen.grid(), Color::Snake) == self.snake@.len(),
    {
        let w = self.screen.width as int;
        let h = self.screen.height as int;
        let g = self.screen.grid();
        let s = self.snake@;
        let idxs = Seq::new(s.len(), |k: int| cell_index_of(w, s[k]));
        lemma_dims_fit(w, h);
        assert forall|k: int| 0 <= k < idxs.len() implies 0 <= #[trigger] idxs[k] < g.len() by {
            lemma_cell_from_xy(w, h, s[k].x as int, s[k].y as int);
        }
        assert forall|i: int| 0 <= i < g.len() implies (#[trigger] g[i] == Color::Snake
            <==> exists|k: int| 0 <= k < idxs.len() && idxs[k] == i) by {
            lemma_cell_split(w, h, i);
            assert(g[i] == self.screen.color_at(i % w, i / w));
            if g[i] == Color::Snake {
                assert(self.occupies(i % w, i / w));
                let k = choose|k: int|
                    0 <= k < s.len() && (#[trigger] s[k]).x == i % w && s[k].y == i / w;
                lemma_cell_from_xy(w, h, s[k].x as int, s[k].y as int);
                assert(idxs[k] == i);
            }
            if exists|k: int| 0 <= k < idxs.len() && #[trigger] idxs[k] == i {
                let k = choose|k: int| 0 <= k < idxs.len() && #[trigger] idxs[k] == i;
                lemma_cell_from_xy(w, h, s[k].x as int, s[k].y as int);
                assert(s[k].x == i % w && s[k].y == i / w);
                assert(self.occupies(i % w, i / w));
            }
        }
        assert forall|k1: int, k2: int|
            0 <= k1 < idxs.len() && 0 <= k2 < idxs.len() && k1 != k2 implies #[trigger] idxs[k1]
            != #[trigger] idxs[k2] by {
            lemma_cell_from_xy(w, h, s[k1].x as int, s[k1].y as int);
            lemma_cell_from_xy(w, h, s[k2].x as int, s[k2].y as int);
            assert(s[k1] != s[k2]);
        }
        lemma_count_color_matches_set(g, Color::Snake, idxs);
    }

    /// Every body cell is colored `Snake` while the matching clause holds.
    proof fn lemma_occupied_cells_are_snake(&self)
        requires
            self.snake_matches_grid(),
            self.snake_cells_ok(),
        ensures
            forall|i: int|
                0 <= i < self.snake@.len() ==> self.screen.color_at(
                    (#[trigger] self.snake@[i]).x as int,
                    self.snake@[i].y as int,
                ) == Color::Snake,
    {
        assert forall|i: int| 0 <= i < self.snake@.len() implies self.screen.color_at(
            (#[trigger] self.snake@[i]).x as int,
            self.snake@[i].y as int,
        ) == Color::Snake by {
            assert(self.occupies(self.snake@[i].x as int, self.snake@[i].y as int));
        }
    }

    /// Compute the cell the head will move onto, with wraparound.
    fn get_new_head(&self) -> (c: Coord)
        requires
            self.screen.sized(),
            self.snake@.len() >= 1,
            self.in_bounds(self.head()),
            is_unit_heading(self.direction),
        ensures
            c == self.next_head(),
            self.in_bounds(c),
    {
        proof {
            lemma_dims_fit(self.screen.width as int, self.screen.height as int);
        }
        let screen_width = self.screen.width as i32;
        let screen_height = self.screen.height as i32;
        let head = self.snake[self.snake.len() - 1];
        let x = (head.x + self.direction.x + screen_width) % screen_width;
        let y = (head.y + self.direction.y + screen_height) % screen_height;
        Coord::new(x, y)
    }

    /// Paint the new head cell `Snake` and append it to the body.
    fn extend_head_to(&mut self, new_head: &Coord)
        requires
            old(self).screen.sized(),
            old(self).screen.alpha_ok(),
            old(self).screen.cells_ok(),
            old(self).in_bounds(*new_head),
        ensures
            final(self).screen.wf(),
            final(self).screen.width == old(self).screen.width,
            final(self).screen.height == old(self).screen.height,
            final(self).direction == old(self).direction,
            final(self).alive == old(self).alive,
            final(self).filled == old(self).filled,
            final(self).snake@ == old(self).snake@.push(*new_head),
            final(self).screen.grid() == old(self).screen.grid().update(
                old(self).screen.cell_of(*new_head),
                Color::Snake,
            ),
            forall|x: int, y: int|
                0 <= x < old(self).screen.width && 0 <= y < old(self).screen.height
                    ==> #[trigger] final(self).screen.color_at(x, y) == (if x == new_head.x && y
                    == new_head.y {
                    Color::Snake
                } else {
                    old(self).screen.color_at(x, y)
                }),
    {
        proof {
            lemma_cell_from_xy(
                old(self).screen.width as int,
                old(self).screen.height as int,
                new_head.x as int,
                new_head.y as int,
            );
        }
        let ghost before = self.screen;
        self.screen.set_color_at(new_head, Color::Snake);
        self.snake.push(*new_head);
        proof {
            let w = old(self).screen.width as int;
            let h = old(self).screen.height as int;
            assert forall|x: int, y: int|
                0 <= x < w && 0 <= y < h implies #[trigger] self.screen.color_at(x, y) == (if x
                == new_head.x && y == new_head.y {
                Color::Snake
            } else {
                before.color_at(x, y)
            }) by {
                lemma_cell_from_xy(w, h, x, y);
                if !(x == new_head.x && y == new_head.y) {
                    assert(y * w + x != before.cell_of(*new_head));
                }
            }
        }
    }

    /// Remove the oldest body cell and paint it `Background`.
    fn shorten_tail(&mut self)
        requires
            old(self).screen.sized(),
            old(self).screen.alpha_ok(),
            old(self).screen.cells_ok(),
            old(self).snake@.len() >= 1,
            old(self).in_bounds(old(self).snake@[0]),
        ensures
            final(self).screen.wf(),
            final(self).screen.width == old(self).screen.width,
            final(self).screen.height == old(self).screen.height,
            final(self).direction == old(self).direction,
            final(self).alive == old(self).alive,
            final(self).filled == old(self).filled,
            final(self).snake@ == old(self).snake@.subrange(1, old(self).snake@.len() as int),
            final(self).screen.grid() == old(self).screen.grid().update(
                old(self).screen.cell_of(old(self).snake@[0]),
                Color::Background,
            ),
            forall|x: int, y: int|
                0 <= x < old(self).screen.width && 0 <= y < old(self).screen.height
                    ==> #[trigger] final(self).screen.color_at(x, y) == (if x == old(
                    self,
                ).snake@[0].x && y == old(self).snake@[0].y {
                    Color::Background
                } else {
                    old(self).screen.color_at(x, y)
                }),
    {
        proof {
            lemma_cell_from_xy(
                old(self).screen.width as int,
                old(self).screen.height as int,
                old(self).snake@[0].x as int,
                old(self).snake@[0].y as int,
            );
        }
        let ghost before = self.screen;
        let tail = self.snake.remove(0);
        self.screen.set_color_at(&tail, Color::Background);
        proof {
            let w = old(self).screen.width as int;
            let h = old(self).screen.height as int;
            assert(self.snake@ =~= old(self).snake@.subrange(1, old(self).snake@.len() as int));
            assert forall|x: int, y: int|
                0 <= x < w && 0 <= y < h implies #[trigger] self.screen.color_at(x, y) == (if x
                == tail.x && y == tail.y {
                Color::Background
            } else {
                before.color_at(x, y)
            }) by {
                lemma_cell_from_xy(w, h, x, y);
                if !(x == tail.x && y == tail.y) {
                    assert(y * w + x != before.cell_of(tail));
                }
            }
        }
    }

    /// Kill the snake and paint the border `Fail`, leaving the interior
    /// untouched.
    fn die(&mut self)
        requires
            old(self).screen.sized(),
            old(self).screen.alpha_ok(),
            old(self).screen.cells_ok(),
        ensures
            final(self).screen.wf(),
            final(self).screen.width == old(self).screen.width,
            final(self).screen.height == old(self).screen.height,
            final(self).direction == old(self).direction,
            !final(self).alive,
            final(self).filled == old(self).filled,
            final(self).snake == old(self).snake,
            forall|x: int, y: int|
                0 <= x < old(self).screen.width && 0 <= y < old(self).screen.height
                    ==> #[trigger] final(self).screen.color_at(x, y) == (if x == 0 || y == 0 || x
                    == old(self).screen.width - 1 || y == old(self).screen.height - 1 {
                    Color::Fail
                } else {
                    old(self).screen.color_at(x, y)
                }),
    {
        self.alive = false;
        self.screen.set_color_at_edges(Color::Fail);
    }

    /// Spawn a new food cell on a free cell chosen by a random cyclic scan,
    /// or mark the board full when no cell is free.
    fn create_food(&mut self)
        requires
            old(self).screen.wf(),
            !old(self).filled,
        ensures
            final(self).screen.wf(),
            final(self).screen.width == old(self).screen.width,
            final(self).screen.height == old(self).screen.height,
            final(self).direction == old(self).direction,
            final(self).alive == old(self).alive,
            final(self).snake == old(self).snake,
            !final(self).filled ==> exists|fx: int, fy: int|
                0 <= fx < old(self).screen.width && 0 <= fy < old(self).screen.height && old(
                    self,
                ).screen.color_at(fx, fy) == Color::Background && #[trigger] final(self).screen.color_at(fx, fy) == Color::Food && final(self).screen.grid() == old(
                    self,
                ).screen.grid().update(fy * old(self).screen.width + fx, Color::Food) && forall|
                    x: int,
                    y: int,
                |
                    0 <= x < old(self).screen.width && 0 <= y < old(self).screen.height
                        ==> #[trigger] final(self).screen.color_at(x, y) == (if x == fx && y == fy {
                        Color::Food
                    } else {
                        old(self).screen.color_at(x, y)
                    }),
            !final(self).filled ==> count_color(final(self).screen.grid(), Color::Food)
                == count_color(old(self).screen.grid(), Color::Food) + 1,
            !final(self).filled ==> count_color(final(self).screen.grid(), Color::Snake)
                == count_color(old(self).screen.grid(), Color::Snake),
            final(self).filled ==> final(self).screen == old(self).screen,
            final(self).filled ==> forall|x: int, y: int|
                0 <= x < old(self).screen.width && 0 <= y < old(self).screen.height
                    ==> #[trigger] old(self).screen.color_at(x, y) != Color::Background,
    {
        proof {
            lemma_dims_fit(old(self).screen.width as int, old(self).screen.height as int);
        }
        let n = self.screen.pixel_count;
        let random_skip = random_index(n);
        match self.screen.first_background_from(random_skip) {
            Some(coord) => {
                let ghost before = self.screen;
                let ghost w = old(self).screen.width as int;
                let ghost h = old(self).screen.height as int;
                proof {
                    lemma_cell_from_xy(w, h, coord.x as int, coord.y as int);
                }
                self.screen.set_color_at(&coord, Color::Food);
                proof {
                    lemma_count_color_update(
                        before.grid(),
                        before.cell_of(coord),
                        Color::Food,
                        Color::Food,
                    );
                    lemma_count_color_update(
                        before.grid(),
                        before.cell_of(coord),
                        Color::Food,
                        Color::Snake,
                    );
                    assert(before.grid()[before.cell_of(coord)] == before.color_at(
                        coord.x as int,
                        coord.y as int,
                    ));
                    assert forall|x: int, y: int|
                        0 <= x < w && 0 <= y < h implies #[trigger] self.screen.color_at(x, y) == (
                    if x == coord.x && y == coord.y {
                        Color::Food
                    } else {
                        before.color_at(x, y)
                    }) by {
                        lemma_cell_from_xy(w, h, x, y);
                        if !(x == coord.x && y == coord.y) {
                            assert(y * w + x != before.cell_of(coord));
                        }
                    }
                    assert(self.screen.color_at(coord.x as int, coord.y as int) == Color::Food);
                }
            },
            None => {
                self.filled = true;
            },
        }
    }

    /// After the head was extended onto a non-snake cell, the running-state
    /// invariant pieces still hold for the intermediate world.
    proof fn lemma_after_extend(&self, pre: World, new_head: Coord)
        requires
            pre.inv(),
            pre.playing(),
            pre.ahead_color() != Color::Snake,
            new_head == pre.next_head(),
            pre.in_bounds(new_head),
            self.screen.wf(),
            self.screen.width == pre.screen.width,
            self.screen.height == pre.screen.height,
            self.alive == pre.alive,
            self.filled == pre.filled,
            self.snake@ == pre.snake@.push(new_head),
            forall|x: int, y: int|
                0 <= x < pre.screen.width && 0 <= y < pre.screen.height
                    ==> #[trigger] self.screen.color_at(x, y) == (if x == new_head.x && y
                    == new_head.y {
                    Color::Snake
                } else {
                    pre.screen.color_at(x, y)
                }),
        ensures
            self.snake_cells_ok(),
            self.snake_distinct(),
            self.snake_matches_grid(),
            forall|i: int| 0 <= i < pre.snake@.len() ==> pre.snake@[i] != new_head,
    {
        let w = pre.screen.width as int;
        let h = pre.screen.height as int;
        assert forall|i: int| 0 <= i < pre.snake@.len() implies pre.snake@[i] != new_head by {
            if pre.snake@[i] == new_head {
                assert(pre.occupies(new_head.x as int, new_head.y as int));
                assert(pre.screen.color_at(new_head.x as int, new_head.y as int) == Color::Snake);
            }
        }
        assert forall|x: int, y: int| 0 <= x < w && 0 <= y < h implies ((
        #[trigger] self.screen.color_at(x, y)) == Color::Snake <==> self.occupies(x, y)) by {
            if x == new_head.x && y == new_head.y {
                assert((#[trigger] self.snake@[pre.snake@.len() as int]).x == x
                    && self.snake@[pre.snake@.len() as int].y == y);
            } else {
                if self.screen.color_at(x, y) == Color::Snake {
                    assert(pre.occupies(x, y));
                    let i = choose|i: int|
                        0 <= i < pre.snake@.len() && (#[trigger] pre.snake@[i]).x == x
                            && pre.snake@[i].y == y;
                    assert((#[trigger] self.snake@[i]).x == x && self.snake@[i].y == y);
                }
                if self.occupies(x, y) {
                    let i = choose|i: int|
                        0 <= i < self.snake@.len() && (#[trigger] self.snake@[i]).x == x
                            && self.snake@[i].y == y;
                    assert(i < pre.snake@.len());
                    assert((#[trigger] pre.snake@[i]).x == x && pre.snake@[i].y == y);
                    assert(pre.occupies(x, y));
                }
            }
        }
    }

    /// After a plain move (extend then shorten), the invariant and the
    /// count of snake-colored cells are restored.
    proof fn lemma_after_move(&self, pre: World, mid: World, new_head: Coord)
        requires
            pre.inv(),
            pre.moves(),
            new_head == pre.next_head(),
            pre.in_bounds(new_head),
            mid.screen.wf(),
            mid.screen.width == pre.screen.width,
            mid.screen.height == pre.screen.height,
            mid.alive == pre.alive,
            mid.filled == pre.filled,
            mid.direction == pre.direction,
            mid.snake@ == pre.snake@.push(new_head),
            mid.snake_cells_ok(),
            mid.snake_distinct(),
            mid.snake_matches_grid(),
            mid.screen.grid() == pre.screen.grid().update(
                pre.screen.cell_of(new_head),
                Color::Snake,
            ),
            forall|x: int, y: int|
                0 <= x < pre.screen.width && 0 <= y < pre.screen.height
                    ==> #[trigger] mid.screen.color_at(x, y) == (if x == new_head.x && y
                    == new_head.y {
                    Color::Snake
                } else {
                    pre.screen.color_at(x, y)
                }),
            self.screen.wf(),
            self.screen.width == mid.screen.width,
            self.screen.height == mid.screen.height,
            self.direction == mid.direction,
            self.alive == mid.alive,
            self.filled == mid.filled,
            self.snake@ == mid.snake@.subrange(1, mid.snake@.len() as int),
            self.screen.grid() == mid.screen.grid().update(
                mid.screen.cell_of(mid.snake@[0]),
                Color::Background,
            ),
            forall|x: int, y: int|
                0 <= x < mid.screen.width && 0 <= y < mid.screen.height
                    ==> #[trigger] self.screen.color_at(x, y) == (if x == mid.snake@[0].x && y
                    == mid.snake@[0].y {
                    Color::Background
                } else {
                    mid.screen.color_at(x, y)
                }),
        ensures
            self.inv(),
            self.snake@ == pre.snake@.subrange(1, pre.snake@.len() as int).push(new_head),
            count_color(self.screen.grid(), Color::Snake) == count_color(
                pre.screen.grid(),
                Color::Snake,
            ),
            forall|x: int, y: int|
                0 <= x < pre.screen.width && 0 <= y < pre.screen.height
                    ==> #[trigger] self.screen.color_at(x, y) == (if x == pre.snake@[0].x && y
                    == pre.snake@[0].y {
                    Color::Background
                } else if x == new_head.x && y == new_head.y {
                    Color::Snake
                } else {
                    pre.screen.color_at(x, y)
                }),
    {
        let w = pre.screen.width as int;
        let h = pre.screen.height as int;
        let tail = pre.snake@[0];
        assert(mid.snake@[0] == tail);
        assert(tail != new_head);
        assert(self.snake@ =~= pre.snake@.subrange(1, pre.snake@.len() as int).push(new_head));
        // distinctness and bounds carry over from mid's body
        assert forall|i: int, j: int|
            0 <= i < j < self.snake@.len() implies #[trigger] self.snake@[i]
            != #[trigger] self.snake@[j] by {
            assert(self.snake@[i] == mid.snake@[i + 1]);
            assert(self.snake@[j] == mid.snake@[j + 1]);
        }
        assert forall|i: int| 0 <= i < self.snake@.len() implies self.in_bounds(
            #[trigger] self.snake@[i],
        ) by {
            assert(self.snake@[i] == mid.snake@[i + 1]);
        }
        // the tail cell is no longer occupied, everything else matches mid
        assert forall|x: int, y: int| 0 <= x < w && 0 <= y < h implies ((
        #[trigger] self.screen.color_at(x, y)) == Color::Snake <==> self.occupies(x, y)) by {
            if x == tail.x && y == tail.y {
                if self.occupies(x, y) {
                    let i = choose|i: int|
                        0 <= i < self.snake@.len() && (#[trigger] self.snake@[i]).x == x
                            && self.snake@[i].y == y;
                    assert(self.snake@[i] == mid.snake@[i + 1]);
                    assert(mid.snake@[i + 1] == mid.snake@[0]);
                }
            } else {
                if self.screen.color_at(x, y) == Color::Snake {
                    assert(mid.screen.color_at(x, y) == Color::Snake);
                    assert(mid.occupies(x, y));
                    let i = choose|i: int|
                        0 <= i < mid.snake@.len() && (#[trigger] mid.snake@[i]).x == x
                            && mid.snake@[i].y == y;
                    if i == 0 {
                        assert(mid.snake@[0] == tail);
                    }
                    assert(1 <= i);
                    assert((#[trigger] self.snake@[i - 1]).x == x && self.snake@[i - 1].y == y);
                }
                if self.occupies(x, y) {
                    let i = choose|i: int|
                        0 <= i < self.snake@.len() && (#[trigger] self.snake@[i]).x == x
                            && self.snake@[i].y == y;
                    assert((#[trigger] mid.snake@[i + 1]).x == x && mid.snake@[i + 1].y == y);
                    assert(mid.occupies(x, y));
                }
            }
        }
        // counts: new head +1, tail -1
        lemma_cell_from_xy(w, h, new_head.x as int, new_head.y as int);
        lemma_cell_from_xy(w, h, tail.x as int, tail.y as int);
        let k_nh = pre.screen.cell_of(new_head);
        let k_tail = pre.screen.cell_of(tail);
        assert(k_nh != k_tail);
        assert(pre.screen.grid()[k_nh] == pre.screen.color_at(new_head.x as int, new_head.y as int));
        assert(pre.screen.grid()[k_tail] == pre.screen.color_at(tail.x as int, tail.y as int));
        assert(pre.occupies(tail.x as int, tail.y as int));
        assert(pre.screen.color_at(tail.x as int, tail.y as int) == Color::Snake);
        lemma_count_color_update(pre.screen.grid(), k_nh, Color::Snake, Color::Snake);
        lemma_count_color_update(mid.screen.grid(), k_tail, Color::Background, Color::Snake);
        assert(mid.screen.grid()[k_tail] == Color::Snake);
        lemma_count_color_update(pre.screen.grid(), k_nh, Color::Snake, Color::Food);
        lemma_count_color_update(mid.screen.grid(), k_tail, Color::Background, Color::Food);
    }

    /// After eating (extend then spawn food), the invariant is restored and
    /// the snake-colored cell count grew by one.
    proof fn lemma_after_food(&self, pre: World, mid: World, new_head: Coord)
        requires
            pre.inv(),
            pre.eats(),
            new_head == pre.next_head(),
            pre.in_bounds(new_head),
            mid.screen.wf(),
            mid.screen.width == pre.screen.width,
            mid.screen.height == pre.screen.height,
            mid.alive == pre.alive,
            mid.filled == pre.filled,
            mid.direction == pre.direction,
            mid.snake@ == pre.snake@.push(new_head),
            mid.snake_cells_ok(),
            mid.snake_distinct(),
            mid.snake_matches_grid(),
            mid.screen.grid() == pre.screen.grid().update(
                pre.screen.cell_of(new_head),
                Color::Snake,
            ),
            forall|x: int, y: int|
                0 <= x < pre.screen.width && 0 <= y < pre.screen.height
                    ==> #[trigger] mid.screen.color_at(x, y) == (if x == new_head.x && y
                    == new_head.y {
                    Color::Snake
                } else {
                    pre.screen.color_at(x, y)
                }),
            self.screen.wf(),
            self.screen.width == mid.screen.width,
            self.screen.height == mid.screen.height,
            self.direction == mid.direction,
            self.alive == mid.alive,
            self.snake == mid.snake,
            !self.filled ==> exists|fx: int, fy: int|
                0 <= fx < mid.screen.width && 0 <= fy < mid.screen.height && mid.screen.color_at(
                    fx,
                    fy,
                ) == Color::Background && #[trigger] self.screen.color_at(fx, fy) == Color::Food
                    && self.screen.grid() == mid.screen.grid().update(
                    fy * mid.screen.width + fx,
                    Color::Food,
                ) && forall|x: int, y: int|
                    0 <= x < mid.screen.width && 0 <= y < mid.screen.height
                        ==> #[trigger] self.screen.color_at(x, y) == (if x == fx && y == fy {
                        Color::Food
                    } else {
                        mid.screen.color_at(x, y)
                    }),
            !self.filled ==> count_color(self.screen.grid(), Color::Food) == count_color(
                mid.screen.grid(),
                Color::Food,
            ) + 1,
            !self.filled ==> count_color(self.screen.grid(), Color::Snake) == count_color(
                mid.screen.grid(),
                Color::Snake,
            ),
            self.filled ==> self.screen == mid.screen,
            self.filled ==> forall|x: int, y: int|
                0 <= x < mid.screen.width && 0 <= y < mid.screen.height
                    ==> #[trigger] mid.screen.color_at(x, y) != Color::Background,
        ensures
            self.inv(),
            self.snake@ == pre.snake@.push(new_head),
            count_color(self.screen.grid(), Color::Snake) == count_color(
                pre.screen.grid(),
                Color::Snake,
            ) + 1,
            !self.filled ==> count_color(self.screen.grid(), Color::Food) == 1,
            !self.filled ==> exists|fx: int, fy: int|
                0 <= fx < pre.screen.width && 0 <= fy < pre.screen.height && pre.screen.color_at(
                    fx,
                    fy,
                ) == Color::Background && #[trigger] self.screen.color_at(fx, fy) == Color::Food
                    && forall|x: int, y: int|
                    0 <= x < pre.screen.width && 0 <= y < pre.screen.height
                        ==> #[trigger] self.screen.color_at(x, y) == (if x == fx && y == fy {
                        Color::Food
                    } else if x == new_head.x && y == new_head.y {
                        Color::Snake
                    } else {
                        pre.screen.color_at(x, y)
                    }),
            self.filled ==> forall|x: int, y: int|
                0 <= x < pre.screen.width && 0 <= y < pre.screen.height
                    ==> #[trigger] self.screen.color_at(x, y) != Color::Background,
    {
        let w = pre.screen.width as int;
        let h = pre.screen.height as int;
        let k_nh = pre.screen.cell_of(new_head);
        lemma_cell_from_xy(w, h, new_head.x as int, new_head.y as int);
        assert(pre.screen.grid()[k_nh] == pre.screen.color_at(new_head.x as int, new_head.y as int));
        lemma_count_color_update(pre.screen.grid(), k_nh, Color::Snake, Color::Snake);
        lemma_count_color_update(pre.screen.grid(), k_nh, Color::Snake, Color::Food);
        if !self.filled {
            let (fx, fy) = choose|fx: int, fy: int|
                0 <= fx < mid.screen.width && 0 <= fy < mid.screen.height && mid.screen.color_at(
                    fx,
                    fy,
                ) == Color::Background && #[trigger] self.screen.color_at(fx, fy) == Color::Food
                    && self.screen.grid() == mid.screen.grid().update(
                    fy * mid.screen.width + fx,
                    Color::Food,
                ) && forall|x: int, y: int|
                    0 <= x < mid.screen.width && 0 <= y < mid.screen.height
                        ==> #[trigger] self.screen.color_at(x, y) == (if x == fx && y == fy {
                        Color::Food
                    } else {
                        mid.screen.color_at(x, y)
                    });
            assert(!(fx == new_head.x && fy == new_head.y));
            assert(pre.screen.color_at(fx, fy) == Color::Background);
            // matching: the food cell is not snake-colored and not occupied
            assert forall|x: int, y: int| 0 <= x < w && 0 <= y < h implies ((
            #[trigger] self.screen.color_at(x, y)) == Color::Snake <==> self.occupies(x, y)) by {
                assert(self.occupies(x, y) <==> mid.occupies(x, y));
                assert(mid.screen.color_at(x, y) == Color::Snake <==> mid.occupies(x, y));
            }
            assert forall|x: int, y: int|
                0 <= x < pre.screen.width && 0 <= y
                    < pre.screen.height implies #[trigger] self.screen.color_at(x, y) == (if x == fx
                && y == fy {
                Color::Food
            } else if x == new_head.x && y == new_head.y {
                Color::Snake
            } else {
                pre.screen.color_at(x, y)
            }) by {
                assert(mid.screen.color_at(x, y) == (if x == new_head.x && y == new_head.y {
                    Color::Snake
                } else {
                    pre.screen.color_at(x, y)
                }));
            }
        } else {
            assert forall|x: int, y: int| 0 <= x < w && 0 <= y < h implies ((
            #[trigger] self.screen.color_at(x, y)) == Color::Snake <==> self.occupies(x, y)) by {
                assert(mid.screen.color_at(x, y) == Color::Snake <==> mid.occupies(x, y));
            }
        }
    }
}

/// The row-major cell index of a coordinate on a board of width `w`.
pub open spec fn cell_index_of(w: int, c: Coord) -> int {
    c.y * w + c.x
}

/// A color held at exactly one index is counted exactly once.
pub proof fn lemma_count_color_single(g: Seq<Color>, c: Color, k: int)
    requires
        0 <= k < g.len(),
        forall|i: int| 0 <= i < g.len() ==> (#[trigger] g[i] == c <==> i == k),
    ensures
        count_color(g, c) == 1,
    decreases g.len(),
{
    if k == g.len() - 1 {
        lemma_count_color_zero(g.drop_last(), c);
    } else {
        lemma_count_color_single(g.drop_last(), c, k);
    }
}

/// A color that appears exactly at the cells listed by an injective index
/// sequence is counted exactly as often as that sequence is long.
pub proof fn lemma_count_color_matches_set(g: Seq<Color>, c: Color, idxs: Seq<int>)
    requires
        forall|i: int|
            0 <= i < g.len() ==> (#[trigger] g[i] == c <==> exists|k: int|
                0 <= k < idxs.len() && idxs[k] == i),
        forall|k: int| 0 <= k < idxs.len() ==> 0 <= #[trigger] idxs[k] < g.len(),
        forall|k1: int, k2: int|
            0 <= k1 < idxs.len() && 0 <= k2 < idxs.len() && k1 != k2 ==> #[trigger] idxs[k1]
                != #[trigger] idxs[k2],
    ensures
        count_color(g, c) == idxs.len(),
    decreases idxs.len(),
{
    if idxs.len() == 0 {
        lemma_count_color_zero(g, c);
    } else {
        let k0 = idxs[idxs.len() - 1];
        let g2 = g.update(k0, (if c == Color::Background {
            Color::Fail
        } else {
            Color::Background
        }));
        let idxs2 = idxs.drop_last();
        assert forall|i: int| 0 <= i < g2.len() implies (#[trigger] g2[i] == c <==> exists|k: int|
            0 <= k < idxs2.len() && idxs2[k] == i) by {
            if i == k0 {
                if exists|k: int| 0 <= k < idxs2.len() && idxs2[k] == i {
                    let k = choose|k: int| 0 <= k < idxs2.len() && idxs2[k] == i;
                    assert(idxs[k] == idxs[idxs.len() - 1]);
                }
            } else {
                if g2[i] == c {
                    assert(g[i] == c);
                    let k = choose|k: int| 0 <= k < idxs.len() && idxs[k] == i;
                    assert(k != idxs.len() - 1);
                    assert(idxs2[k] == i);
                }
                if exists|k: int| 0 <= k < idxs2.len() && idxs2[k] == i {
                    let k = choose|k: int| 0 <= k < idxs2.len() && idxs2[k] == i;
                    assert(idxs[k] == i);
                }
            }
        }
        lemma_count_color_matches_set(g2, c, idxs2);
        lemma_count_color_update(g, k0, (if c == Color::Background {
            Color::Fail
        } else {
            Color::Background
        }), c);
        assert(g[k0] == c) by {
            assert(idxs[idxs.len() - 1] == k0);
        }
    }
}

/// A revive is equivalent to a fresh construction: any two worlds in the
/// fresh state for the same dimensions agree bit for bit, in the pixel
/// buffer and in every piece of internal state.
pub proof fn lemma_fresh_worlds_identical(a: World, b: World, width: int, height: int)
    requires
        a.is_fresh(width, height),
        b.is_fresh(width, height),
    ensures
        a.screen.pixel_buffer@ == b.screen.pixel_buffer@,
        a.snake@ == b.snake@,
        a.direction == b.direction,
        a.alive == b.alive,
        a.filled == b.filled,
{
    assert forall|x: int, y: int|
        0 <= x < a.screen.width && 0 <= y < a.screen.height implies #[trigger] a.screen.color_at(
        x,
        y,
    ) == b.screen.color_at(x, y) by {
        assert(a.screen.color_at(x, y) == initial_color(width, height, x, y));
        assert(b.screen.color_at(x, y) == initial_color(width, height, x, y));
    }
    screen::lemma_grid_determines_buffer(a.screen, b.screen);
}

/// Relies on `rand::Rng::gen_range` over `0..n` on the thread-local
/// generator: it panics only on an empty range and returns a value drawn
/// from `[0, n)`.
#[verifier::external_body]
fn random_index(n: u32) -> (r: u32)
    requires
        n > 0,
    ensures
        r < n,
{
    rand::thread_rng().gen_range(0..n)
}

} // verus!
