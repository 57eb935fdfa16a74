//! The simulation engine: the authoritative game state, advanced one tick
//! per accepted invocation; movement, growth, food placement, collision
//! resolution and the speed/timing controller.
//!
//! Rendering and input capture live outside: the engine consumes the
//! discretized input symbol set and exposes its state as plain values.

use vstd::prelude::*;

verus! {

/// Grid coordinates, counted in cells (not pixels).
#[derive(Clone, Copy, PartialEq, Eq, Structural, Debug)]
pub struct Point {
    pub x: i32,
    pub y: i32,
}

#[derive(Clone, Copy, PartialEq, Eq, Structural, Debug)]
pub enum Direction {
    Up,
    Down,
    Left,
    Right,
}

/// The difficulty-scaling policy.
#[derive(Clone, Copy, PartialEq, Eq, Structural, Debug)]
pub enum GameMode {
    Fast,
    Long,
}

/// The discretized input symbol set that both keyboard and touch sources
/// map onto.
#[derive(Clone, Copy, PartialEq, Eq, Structural, Debug)]
pub enum InputSymbol {
    Up,
    Down,
    Left,
    Right,
    PauseToggle,
    Neutral,
}

/// Rejection of a game configuration at game start.
#[derive(Clone, Copy, PartialEq, Eq, Structural, Debug)]
pub enum ConfigError {
    NonPositive,
    TooLarge,
    NotDivisible,
    TooSmall,
}

pub const INITIAL_SNAKE_LEN: usize = 3;

pub const FRAME_RATE_SPEED_1: u32 = 100;

pub const SPEED_INCREASE_MS_MODE_KEYBOARD: u32 = 10;

pub const SPEED_INCREASE_MS_MODE_TOUCH: u32 = 5;

pub const SPEED_INCREASE_AT_SCORE: u64 = 3;

pub const SPEED_TO_SET_BG_COL: u64 = 2;

pub const TOUCH_MODE_FOOD_BORDER_OFFSET: i32 = 5;

/// Number of entries in the snake segment palette.
pub const NUM_COLOURS: usize = 21;

/// Number of entries in the background palette.
pub const NUM_BACKGROUND_COLOURS: usize = 7;

/// The speed tier forced while a direction key is held in `Long` mode.
pub const LONG_MODE_HELD_SPEED: u64 = 6;

/// Largest accepted grid extent on either axis, in cells.
pub const MAX_GRID_CELLS: u32 = 1000000;

pub const LCG_MUL: u64 = 6364136223846793005;

pub const LCG_INC: u64 = 1442695040888963407;

const FOOD_SAMPLE_CAP: u32 = 64;

/// The authoritative game state. One value of this type owns one in-flight
/// game; it is reconstructed wholesale when a new game starts.
#[derive(Clone, Debug)]
pub struct Game {
    pub width: u32,
    pub height: u32,
    pub block_size: u32,
    pub draw_grid: bool,
    pub speed: u64,
    pub score: u64,
    pub snake: Vec<Point>,
    pub direction: Direction,
    pub food: Point,
    pub over: bool,
    pub pause: bool,
    pub input: InputSymbol,
    pub pressed: bool,
    pub timestamp_last_frame: u32,
    pub timestamp_started: u32,
    pub started: bool,
    pub colour_index: usize,
    pub touch_mode: bool,
    pub game_mode: GameMode,
    pub name: Vec<u8>,
    pub rng: u64,
}

/// One step of the deterministic pseudo-random source that food placement
/// draws from; its seed is injected when a game starts.
pub open spec fn lcg_next(s: u64) -> u64 {
    vstd::wrapping::u64_specs::wrapping_add(
        vstd::wrapping::u64_specs::wrapping_mul(s, LCG_MUL),
        LCG_INC,
    )
}

pub open spec fn dx(d: Direction) -> int {
    match d {
        Direction::Left => -1,
        Direction::Right => 1,
        _ => 0,
    }
}

pub open spec fn dy(d: Direction) -> int {
    match d {
        Direction::Up => -1,
        Direction::Down => 1,
        _ => 0,
    }
}

pub open spec fn opposite(d: Direction) -> Direction {
    match d {
        Direction::Up => Direction::Down,
        Direction::Down => Direction::Up,
        Direction::Left => Direction::Right,
        Direction::Right => Direction::Left,
    }
}

/// The direction requested by an input symbol, if it requests one.
pub open spec fn requested_direction(i: InputSymbol) -> Option<Direction> {
    match i {
        InputSymbol::Up => Option::Some(Direction::Up),
        InputSymbol::Down => Option::Some(Direction::Down),
        InputSymbol::Left => Option::Some(Direction::Left),
        InputSymbol::Right => Option::Some(Direction::Right),
        _ => Option::None,
    }
}

/// The direction after the pending input is applied: a request for the
/// exact opposite of the current direction is rejected.
pub open spec fn next_direction(g: Game) -> Direction {
    match requested_direction(g.input) {
        Option::Some(d) => if d == opposite(g.direction) {
            g.direction
        } else {
            d
        },
        Option::None => g.direction,
    }
}

pub open spec fn next_pause(g: Game) -> bool {
    if g.input == InputSymbol::PauseToggle {
        !g.pause
    } else {
        g.pause
    }
}

/// The pending input after it is applied: a pause toggle resets it to the
/// neutral symbol, a direction request is kept.
pub open spec fn next_input(g: Game) -> InputSymbol {
    if g.input == InputSymbol::PauseToggle {
        InputSymbol::Neutral
    } else {
        g.input
    }
}

pub open spec fn step_point(p: Point, d: Direction) -> Point {
    Point { x: (p.x + dx(d)) as i32, y: (p.y + dy(d)) as i32 }
}

/// The snake after one move: the head advances one cell, each trailing
/// segment takes the previous position of its predecessor.
pub open spec fn shifted(s: Seq<Point>, d: Direction) -> Seq<Point>
    recommends
        s.len() >= 1,
{
    Seq::new(s.len(), |i: int| if i == 0 { step_point(s[0], d) } else { s[i - 1] })
}

/// The enlarged hit-test used in touch mode: a fixed 6-point offset set
/// around the head.
pub open spec fn touch_hit(h: Point, f: Point) -> bool {
    ||| (f.x == h.x - 1 && f.y == h.y - 1)
    ||| (f.x == h.x - 1 && f.y == h.y)
    ||| (f.x == h.x && f.y == h.y - 1)
    ||| (f.x == h.x + 1 && f.y == h.y)
    ||| (f.x == h.x && f.y == h.y + 1)
    ||| (f.x == h.x + 1 && f.y == h.y + 1)
}

/// Whether the head at `h` eats the food at `f`.
pub open spec fn eats(h: Point, f: Point, touch_mode: bool) -> bool {
    h == f || (touch_mode && touch_hit(h, f))
}

/// Border collision on the axis of travel, with the same half-open bound
/// on all four edges.
pub open spec fn border_dead(h: Point, d: Direction, gw: int, gh: int) -> bool {
    match d {
        Direction::Up => h.y < 0,
        Direction::Down => h.y >= gh,
        Direction::Left => h.x < 0,
        Direction::Right => h.x >= gw,
    }
}

/// The head coincides with a non-head body cell.
pub open spec fn self_hit(s: Seq<Point>) -> bool {
    exists|i: int| 1 <= i < s.len() && #[trigger] s[i] == s[0]
}

/// Some grid cell is free of the snake.
pub open spec fn free_cell_exists(s: Seq<Point>, gw: int, gh: int) -> bool {
    exists|p: Point| 0 <= p.x < gw && 0 <= p.y < gh && !s.contains(p)
}

/// A valid game configuration: positive extents, cell size dividing both,
/// a grid that is representable and large enough for the initial snake.
pub open spec fn config_ok(width: u32, height: u32, block_size: u32) -> bool {
    &&& block_size > 0
    &&& width > 0
    &&& height > 0
    &&& width as int / block_size as int <= MAX_GRID_CELLS
    &&& height as int / block_size as int <= MAX_GRID_CELLS
    &&& width % block_size == 0
    &&& height % block_size == 0
    &&& width as int / block_size as int >= 2
    &&& height as int / block_size as int >= 4
}

/// The error `set_state` reports for a configuration, if any: the checks
/// run in this order.
pub open spec fn config_error(width: u32, height: u32, block_size: u32) -> Option<ConfigError> {
    if width == 0 || height == 0 || block_size == 0 {
        Option::Some(ConfigError::NonPositive)
    } else if (width as int / block_size as int) > MAX_GRID_CELLS || (height as int
        / block_size as int) > MAX_GRID_CELLS {
        Option::Some(ConfigError::TooLarge)
    } else if width % block_size != 0 || height % block_size != 0 {
        Option::Some(ConfigError::NotDivisible)
    } else if (width as int / block_size as int) < 2 || (height as int / block_size as int) < 4 {
        Option::Some(ConfigError::TooSmall)
    } else {
        Option::None
    }
}

impl Game {
    /// Grid extent on the x axis, in cells.
    pub open spec fn grid_w(&self) -> int {
        self.width as int / self.block_size as int
    }

    /// Grid extent on the y axis, in cells.
    pub open spec fn grid_h(&self) -> int {
        self.height as int / self.block_size as int
    }

    pub open spec fn config_wf(&self) -> bool {
        config_ok(self.width, self.height, self.block_size)
    }

    pub open spec fn in_bounds(&self, p: Point) -> bool {
        0 <= p.x < self.grid_w() && 0 <= p.y < self.grid_h()
    }

    /// Well-formedness of a live (not yet over) game. Once `over` is set
    /// the state is frozen and only read.
    pub open spec fn live_wf(&self) -> bool {
        &&& self.config_wf()
        &&& 1 <= self.speed
        &&& self.colour_index < NUM_COLOURS
        &&& (self.game_mode == GameMode::Long ==> self.speed == 1)
        &&& (self.game_mode == GameMode::Fast ==> self.speed == 1 + self.score / 3)
        &&& self.snake@.len() == 3 + self.score
        &&& (forall|i: int|
            0 <= i < self.snake@.len() ==> self.in_bounds(#[trigger] self.snake@[i]))
        &&& self.in_bounds(self.food)
        &&& !self_hit(self.snake@)
    }

    pub open spec fn wf(&self) -> bool {
        self.over || self.live_wf()
    }

    /// The minimum milliseconds required between accepted ticks.
    pub open spec fn frame_threshold_spec(&self) -> int {
        let dec = if self.touch_mode {
            SPEED_INCREASE_MS_MODE_TOUCH as int
        } else {
            SPEED_INCREASE_MS_MODE_KEYBOARD as int
        };
        let tier = if self.pressed && self.game_mode == GameMode::Long {
            LONG_MODE_HELD_SPEED as int
        } else {
            self.speed as int
        };
        if FRAME_RATE_SPEED_1 - tier * dec < 0 {
            0
        } else {
            FRAME_RATE_SPEED_1 - tier * dec
        }
    }

    /// Whether a tick arriving at `ts` is accepted by the timing gate.
    pub open spec fn accepts(&self, ts: u32) -> bool {
        ts > self.timestamp_last_frame && ts - self.timestamp_last_frame
            > self.frame_threshold_spec()
    }

    pub fn is_over(&self) -> (r: bool)
        ensures
            r == self.over,
    {
        self.over
    }

    pub fn set_input(&mut self, input: InputSymbol)
        ensures
            *final(self) == (Game { input, ..*old(self) }),
    {
        self.input = input;
    }

    pub fn set_pressed(&mut self, pressed: bool)
        ensures
            *final(self) == (Game { pressed, ..*old(self) }),
    {
        self.pressed = pressed;
    }

    /// Elapsed play time in milliseconds, from the first accepted tick to
    /// the latest one.
    pub fn elapsed_ms(&self) -> (r: u32)
        ensures
            r == if self.started && self.timestamp_last_frame >= self.timestamp_started {
                self.timestamp_last_frame - self.timestamp_started
            } else {
                0
            },
    {
        if self.started && self.timestamp_last_frame >= self.timestamp_started {
            self.timestamp_last_frame - self.timestamp_started
        } else {
            0
        }
    }

    pub fn grid_width(&self) -> (r: i32)
        requires
            self.config_wf(),
        ensures
            r == self.grid_w(),
    {
        (self.width / self.block_size) as i32
    }

    pub fn grid_height(&self) -> (r: i32)
        requires
            self.config_wf(),
        ensures
            r == self.grid_h(),
    {
        (self.height / self.block_size) as i32
    }

    /// The current frame threshold in milliseconds.
    pub fn frame_time_threshold(&self) -> (r: u32)
        requires
            self.speed >= 1,
        ensures
            r == self.frame_threshold_spec(),
    {
        let dec: u32 = if self.touch_mode {
            SPEED_INCREASE_MS_MODE_TOUCH
        } else {
            SPEED_INCREASE_MS_MODE_KEYBOARD
        };
        let tier: u64 = if self.pressed && self.game_mode == GameMode::Long {
            LONG_MODE_HELD_SPEED
        } else {
            self.speed
        };
        if tier >= 20 {
            proof {
                assert(tier * dec >= 100) by (nonlinear_arith)
                    requires
                        tier >= 20,
                        dec == 5 || dec == 10,
                ;
            }
            0
        } else {
            proof {
                assert(tier * dec <= 190) by (nonlinear_arith)
                    requires
                        tier < 20,
                        dec == 5 || dec == 10,
                ;
            }
            let cost = (tier as u32) * dec;
            if cost >= FRAME_RATE_SPEED_1 {
                0
            } else {
                FRAME_RATE_SPEED_1 - cost
            }
        }
    }

    /// The timing gate: accepts the tick if enough time has passed since
    /// the last accepted one, and records it as the last accepted tick.
    fn enough_time_passed(&mut self, timestamp: u32) -> (r: bool)
        requires
            old(self).speed >= 1,
        ensures
            r == old(self).accepts(timestamp),
            r ==> *final(self) == (Game {
                timestamp_last_frame: timestamp,
                timestamp_started: if old(self).started {
                    old(self).timestamp_started
                } else {
                    timestamp
                },
                started: true,
                ..*old(self)
            }),
            !r ==> *final(self) == *old(self),
    {
        if timestamp > self.timestamp_last_frame {
            if timestamp - self.timestamp_last_frame > self.frame_time_threshold() {
                self.timestamp_last_frame = timestamp;
                if !self.started {
                    self.started = true;
                    self.timestamp_started = timestamp;
                }
                return true;
            }
        }
        false
    }

    /// Applies the pending input symbol: a direction request turns the
    /// snake unless it asks for the exact opposite of the current
    /// direction; the pause symbol toggles `pause` and resets the input.
    fn process_input(&mut self)
        ensures
            *final(self) == (Game {
                direction: next_direction(*old(self)),
                pause: next_pause(*old(self)),
                input: next_input(*old(self)),
                ..*old(self)
            }),
    {
        match self.input {
            InputSymbol::Left => {
                if self.direction != Direction::Right {
                    self.direction = Direction::Left;
                }
            },
            InputSymbol::Down => {
                if self.direction != Direction::Up {
                    self.direction = Direction::Down;
                }
            },
            InputSymbol::Right => {
                if self.direction != Direction::Left {
                    self.direction = Direction::Right;
                }
            },
            InputSymbol::Up => {
                if self.direction != Direction::Down {
                    self.direction = Direction::Up;
                }
            },
            InputSymbol::PauseToggle => {
                self.pause = !self.pause;
                self.input = InputSymbol::Neutral;
            },
            InputSymbol::Neutral => {},
        }
    }

    fn check_border_collision(&self) -> (r: bool)
        requires
            self.config_wf(),
            self.snake@.len() >= 1,
        ensures
            r == border_dead(self.snake@[0], self.direction, self.grid_w(), self.grid_h()),
    {
        let head = self.snake[0];
        match self.direction {
            Direction::Up => head.y < 0,
            Direction::Down => head.y >= self.grid_height(),
            Direction::Left => head.x < 0,
            Direction::Right => head.x >= self.grid_width(),
        }
    }

    fn check_snake_collision(&self) -> (r: bool)
        requires
            self.snake@.len() >= 1,
        ensures
            r == self_hit(self.snake@),
    {
        let head = self.snake[0];
        let mut i: usize = 1;
        while i < self.snake.len()
            invariant
                1 <= i <= self.snake@.len(),
                head == self.snake@[0],
                forall|j: int| 1 <= j < i ==> #[trigger] self.snake@[j] != self.snake@[0],
            decreases self.snake@.len() - i,
        {
            if self.snake[i] == head {
                return true;
            }
            i += 1;
        }
        false
    }

    /// Advances the wrapping cursor into the segment palette.
    fn inc_colour_index(&mut self)
        requires
            old(self).colour_index < NUM_COLOURS,
        ensures
            *final(self) == (Game {
                colour_index: ((old(self).colour_index + 1) % NUM_COLOURS as int) as usize,
                ..*old(self)
            }),
    {
        if self.colour_index == NUM_COLOURS - 1 {
            self.colour_index = 0;
        } else {
            self.colour_index = self.colour_index + 1;
        }
    }

    /// A fresh state holding no game: `over` is set until a real
    /// configuration arrives through `set_state`.
    pub fn default() -> (g: Game)
        ensures
            g.wf(),
            g.over,
            g.width == 1 && g.height == 1 && g.block_size == 1,
            !g.draw_grid && !g.touch_mode,
            g.game_mode == GameMode::Fast,
            g.score == 0,
            g.speed == 1,
            g.snake@.len() == 0,
            g.name@.len() == 0,
            g.direction == Direction::Down,
            g.input == InputSymbol::Neutral,
            g.food == (Point { x: 0, y: 0 }),
            !g.pause,
            !g.pressed,
            !g.started,
            g.timestamp_last_frame == 0,
            g.timestamp_started == 0,
            g.colour_index == 0,
            g.rng == 0,
    {
        Game {
            width: 1,
            height: 1,
            block_size: 1,
            draw_grid: false,
            speed: 1,
            score: 0,
            snake: Vec::new(),
            direction: Direction::Down,
            food: Point { x: 0, y: 0 },
            over: true,
            pause: false,
            input: InputSymbol::Neutral,
            pressed: false,
            timestamp_last_frame: 0,
            timestamp_started: 0,
            started: false,
            colour_index: 0,
            touch_mode: false,
            game_mode: GameMode::Fast,
            name: Vec::new(),
            rng: 0,
        }
    }

    /// (Re)initializes the state for a new game. A malformed configuration
    /// is rejected with the exact error `config_error` gives, and the state
    /// is left untouched.
    #[verifier::rlimit(60)]
    pub fn set_state(
        &mut self,
        width: u32,
        height: u32,
        block_size: u32,
        draw_grid: bool,
        touch_mode: bool,
        game_mode: GameMode,
        name: Vec<u8>,
        seed: u64,
    ) -> (r: Result<(), ConfigError>)
        ensures
            match r {
                Result::Ok(()) => {
                    let post = *final(self);
                    &&& config_error(width, height, block_size) is None
                    &&& post.wf()
                    &&& !post.over
                    &&& post.width == width
                    &&& post.height == height
                    &&& post.block_size == block_size
                    &&& post.draw_grid == draw_grid
                    &&& post.touch_mode == touch_mode
                    &&& post.game_mode == game_mode
                    &&& post.name == name
                    &&& post.speed == 1
                    &&& post.score == 0
                    &&& post.direction == Direction::Down
                    &&& post.input == InputSymbol::Down
                    &&& !post.pause
                    &&& !post.pressed
                    &&& !post.started
                    &&& post.timestamp_last_frame == 0
                    &&& post.timestamp_started == 0
                    &&& post.colour_index == 0
                    &&& post.snake@ == initial_snake(post.grid_w(), post.grid_h())
                    &&& post.in_bounds(post.food)
                    &&& !post.snake@.contains(post.food)
                },
                Result::Err(e) => {
                    &&& config_error(width, height, block_size) == Option::Some(e)
                    &&& *final(self) == *old(self)
                },
            },
    {
        if width == 0 || height == 0 || block_size == 0 {
            return Err(ConfigError::NonPositive);
        }
        let gw_u = width / block_size;
        let gh_u = height / block_size;
        if gw_u > MAX_GRID_CELLS || gh_u > MAX_GRID_CELLS {
            return Err(ConfigError::TooLarge);
        }
        if width % block_size != 0 || height % block_size != 0 {
            return Err(ConfigError::NotDivisible);
        }
        if gw_u < 2 || gh_u < 4 {
            return Err(ConfigError::TooSmall);
        }
        let cx = (gw_u / 2) as i32;
        let cy = (gh_u / 2) as i32;
        let mut snake: Vec<Point> = Vec::new();
        snake.push(Point { x: cx, y: cy });
        snake.push(Point { x: cx, y: cy - 1 });
        snake.push(Point { x: cx, y: cy - 2 });
        self.width = width;
        self.height = height;
        self.block_size = block_size;
        self.draw_grid = draw_grid;
        self.touch_mode = touch_mode;
        self.game_mode = game_mode;
        self.name = name;
        self.speed = 1;
        self.score = 0;
        self.snake = snake;
        self.direction = Direction::Down;
        self.over = false;
        self.pause = false;
        self.input = InputSymbol::Down;
        self.pressed = false;
        self.timestamp_last_frame = 0;
        self.timestamp_started = 0;
        self.started = false;
        self.colour_index = 0;
        self.rng = seed;
        self.food = Point { x: 0, y: 0 };
        proof {
            assert(self.snake@ =~= initial_snake(self.grid_w(), self.grid_h()));
        }
        self.place_food();
        proof {
            let wx: int = if self.grid_w() / 2 == 0 {
                1
            } else {
                0
            };
            let w = Point { x: wx as i32, y: 0 };
            assert(!self.snake@.contains(w)) by {
                assert(forall|i: int|
                    0 <= i < self.snake@.len() ==> (#[trigger] self.snake@[i]).x != w.x);
            }
            assert(free_cell_exists(self.snake@, self.grid_w(), self.grid_h()));
        }
        Ok(())
    }

    /// Moves the snake one cell in the current direction: the head
    /// advances, each trailing segment takes the position its predecessor
    /// held before this move.
    fn move_snake(&mut self)
        requires
            old(self).config_wf(),
            old(self).snake@.len() >= 1,
            old(self).in_bounds(old(self).snake@[0]),
        ensures
            *final(self) == (Game { snake: final(self).snake, ..*old(self) }),
            final(self).snake@ == shifted(old(self).snake@, old(self).direction),
    {
        let head = self.snake[0];
        let new_head = match self.direction {
            Direction::Up => Point { x: head.x, y: head.y - 1 },
            Direction::Down => Point { x: head.x, y: head.y + 1 },
            Direction::Left => Point { x: head.x - 1, y: head.y },
            Direction::Right => Point { x: head.x + 1, y: head.y },
        };
        let ghost target = shifted(old(self).snake@, old(self).direction);
        let mut prev = head;
        self.snake[0] = new_head;
        let mut i: usize = 1;
        while i < self.snake.len()
            invariant
                1 <= i <= self.snake@.len(),
                self.snake@.len() == old(self).snake@.len(),
                target == shifted(old(self).snake@, old(self).direction),
                old(self).snake@.len() >= 1,
                *self == (Game { snake: self.snake, ..*old(self) }),
                forall|j: int| 0 <= j < i ==> self.snake@[j] == target[j],
                forall|j: int|
                    i <= j < self.snake@.len() ==> self.snake@[j] == old(self).snake@[j],
                prev == old(self).snake@[i - 1],
            decreases self.snake@.len() - i,
        {
            let tmp = self.snake[i];
            self.snake[i] = prev;
            prev = tmp;
            i += 1;
        }
        proof {
            assert(self.snake@ =~= target);
        }
    }

    /// The food-eat check and its consequences: growth by duplicating the
    /// tail cell, score, palette cursor, the Fast-mode speed milestones,
    /// and re-placing the food.
    fn handle_food_collision(&mut self)
        requires
            old(self).config_wf(),
            old(self).snake@.len() >= 3,
            old(self).snake@.len() == 3 + old(self).score,
            old(self).colour_index < NUM_COLOURS,
            old(self).speed >= 1,
            old(self).game_mode == GameMode::Fast ==> old(self).speed == 1 + old(self).score
                / 3,
            -1 <= old(self).snake@[0].x <= old(self).grid_w(),
            -1 <= old(self).snake@[0].y <= old(self).grid_h(),
        ensures
            ({
                let pre = *old(self);
                let post = *final(self);
                let eat = eats(pre.snake@[0], pre.food, pre.touch_mode);
                &&& (!eat ==> post == pre)
                &&& (eat ==> {
                    let grown = pre.snake@.push(pre.snake@[pre.snake@.len() - 1]);
                    &&& control_unchanged(pre, post)
                    &&& post.snake@ == grown
                    &&& post.score == pre.score + 1
                    &&& post.colour_index == (pre.colour_index + 1) % (NUM_COLOURS as int)
                    &&& post.speed == (if pre.game_mode == GameMode::Fast && (pre.score + 1) % 3
                        == 0 {
                        pre.speed + 1
                    } else {
                        pre.speed as int
                    })
                    &&& post.in_bounds(post.food) || post.food == pre.food
                    &&& (free_cell_exists(grown, pre.grid_w(), pre.grid_h()) ==> (post.in_bounds(
                        post.food,
                    ) && !grown.contains(post.food)))
                })
            }),
    {
        let head = self.snake[0];
        let food = self.food;
        let touch_eat = if self.touch_mode {
            (food.x == head.x - 1 && food.y == head.y - 1) || (food.x == head.x - 1 && food.y
                == head.y) || (food.x == head.x && food.y == head.y - 1) || (food.x == head.x + 1
                && food.y == head.y) || (food.x == head.x && food.y == head.y + 1) || (food.x
                == head.x + 1 && food.y == head.y + 1)
        } else {
            false
        };
        if head == food || touch_eat {
            let last = self.snake[self.snake.len() - 1];
            self.snake.push(last);
            let n = self.snake.len();
            proof {
                assert(self.score + 1 == n - 3);
            }
            self.score = self.score + 1;
            self.inc_colour_index();
            if self.game_mode == GameMode::Fast {
                if self.score % SPEED_INCREASE_AT_SCORE == 0 {
                    proof {
                        assert(self.speed + 1 <= u64::MAX) by {
                            assert(self.speed == 1 + old(self).score / 3);
                            assert(old(self).score / 3 <= old(self).score);
                        }
                    }
                    self.speed = self.speed + 1;
                }
            }
            self.place_food();
        }
    }

    /// Rejection-sampled food placement: draw candidates inside the
    /// playable rectangle (inset by a fixed border in touch mode) and
    /// reject any that lie on the snake. A bounded number of draws is
    /// followed by an exhaustive free-cell scan, so placement succeeds
    /// whenever any grid cell is free.
    pub fn place_food(&mut self)
        requires
            old(self).config_wf(),
        ensures
            *final(self) == (Game {
                food: final(self).food,
                rng: final(self).rng,
                ..*old(self)
            }),
            final(self).in_bounds(final(self).food) || final(self).food == old(self).food,
            free_cell_exists(old(self).snake@, old(self).grid_w(), old(self).grid_h())
                ==> (final(self).in_bounds(final(self).food) && !old(self).snake@.contains(
                final(self).food,
            )),
    {
        let gw = self.grid_width();
        let gh = self.grid_height();
        let use_inset = self.touch_mode && gw > 2 * TOUCH_MODE_FOOD_BORDER_OFFSET && gh > 2
            * TOUCH_MODE_FOOD_BORDER_OFFSET;
        let x0 = if use_inset { TOUCH_MODE_FOOD_BORDER_OFFSET } else { 0 };
        let y0 = if use_inset { TOUCH_MODE_FOOD_BORDER_OFFSET } else { 0 };
        let x1 = if use_inset { gw - TOUCH_MODE_FOOD_BORDER_OFFSET } else { gw };
        let y1 = if use_inset { gh - TOUCH_MODE_FOOD_BORDER_OFFSET } else { gh };
        let mut k: u32 = 0;
        while k < FOOD_SAMPLE_CAP
            invariant
                *self == (Game { rng: self.rng, ..*old(self) }),
                self.config_wf(),
                gw == self.grid_w(),
                gh == self.grid_h(),
                0 <= x0 < x1 <= gw,
                0 <= y0 < y1 <= gh,
            decreases FOOD_SAMPLE_CAP - k,
        {
            let w = (x1 - x0) as u32;
            let h = (y1 - y0) as u32;
            let rx = self.draw_random(w);
            let ry = self.draw_random(h);
            let cand = Point { x: x0 + rx as i32, y: y0 + ry as i32 };
            if !contains_point(&self.snake, cand) {
                self.food = cand;
                return ;
            }
            k += 1;
        }
        let scanned = find_free_cell(&self.snake, x0, y0, x1, y1);
        match scanned {
            Some(p) => {
                self.food = p;
                return ;
            },
            None => {},
        }
        if use_inset {
            let scanned_full = find_free_cell(&self.snake, 0, 0, gw, gh);
            match scanned_full {
                Some(p) => {
                    self.food = p;
                    return ;
                },
                None => {},
            }
        }
        proof {
            if free_cell_exists(self.snake@, self.grid_w(), self.grid_h()) {
                let p = choose|p: Point|
                    0 <= p.x < self.grid_w() && 0 <= p.y < self.grid_h() && !self.snake@.contains(
                        p,
                    );
                assert(self.snake@.contains(p));
            }
        }
    }

    /// One invocation of the frame loop: gate the tick, apply input,
    /// advance the world, and resolve termination. Returns whether the
    /// frame loop should keep running.
    pub fn world_loop_contents(&mut self, timestamp: u32) -> (cont: bool)
        requires
            old(self).wf(),
        ensures
            final(self).wf(),
            cont == !final(self).over,
            old(self).over ==> *final(self) == *old(self),
            (!old(self).over && !old(self).accepts(timestamp)) ==> *final(self) == *old(self),
            (!old(self).over && old(self).accepts(timestamp)) ==> ticked(
                *old(self),
                *final(self),
                timestamp,
            ),
            final(self).score >= old(self).score,
            final(self).speed >= old(self).speed,
            requested_direction(old(self).input) == Option::Some(opposite(old(self).direction))
                ==> final(self).direction == old(self).direction,
    {
        if self.over {
            return false;
        }
        if !self.enough_time_passed(timestamp) {
            return true;
        }
        self.process_input();
        if self.pause {
            return true;
        }
        let ghost pre_move = *self;
        self.move_snake();
        self.handle_food_collision();
        let border = self.check_border_collision();
        let snake_hit = self.check_snake_collision();
        if border || snake_hit {
            self.over = true;
            return false;
        }
        proof {
            lemma_div3_step(old(self).score as int);
            assert forall|i: int| 0 <= i < self.snake@.len() implies self.in_bounds(
                #[trigger] self.snake@[i],
            ) by {
                let moved = shifted(pre_move.snake@, pre_move.direction);
                if i == 0 {
                } else if i < moved.len() {
                    assert(pre_move.snake@[i - 1] == self.snake@[i]);
                } else {
                    assert(self.snake@[i] == moved[moved.len() - 1]);
                }
            }
        }
        true
    }

    /// Draws the next pseudo-random value below `bound` from the injected
    /// deterministic source.
    fn draw_random(&mut self, bound: u32) -> (r: u32)
        requires
            bound >= 1,
        ensures
            r < bound,
            *final(self) == (Game { rng: lcg_next(old(self).rng), ..*old(self) }),
    {
        self.rng = self.rng.wrapping_mul(LCG_MUL).wrapping_add(LCG_INC);
        ((self.rng % 0x80000000) as u32) % bound
    }
}

/// The palette slot of snake segment `i`: the first three (head) cells use
/// a fixed colour, later segments cycle through the palette.
pub fn segment_colour_index(i: usize) -> (r: Option<usize>)
    ensures
        i < 3 ==> r is None,
        i >= 3 ==> r == Option::Some(((i - 3) % NUM_COLOURS as int) as usize),
{
    if i < INITIAL_SNAKE_LEN {
        None
    } else {
        Some((i - INITIAL_SNAKE_LEN) % NUM_COLOURS)
    }
}

/// The background palette slot for a speed tier: the background changes
/// only once the tier reaches the threshold, then cycles.
pub fn background_colour_index(speed: u64) -> (r: Option<usize>)
    ensures
        speed < SPEED_TO_SET_BG_COL ==> r is None,
        speed >= SPEED_TO_SET_BG_COL ==> r == Option::Some(
            (((speed - SPEED_TO_SET_BG_COL) as int) % NUM_BACKGROUND_COLOURS as int) as usize,
        ),
{
    if speed >= SPEED_TO_SET_BG_COL {
        Some(((speed - SPEED_TO_SET_BG_COL) % 7) as usize)
    } else {
        None
    }
}

/// The snake centred on the grid, head first, tail extending upward.
pub open spec fn initial_snake(gw: int, gh: int) -> Seq<Point> {
    Seq::new(3, |i: int| Point { x: (gw / 2) as i32, y: (gh / 2 - i) as i32 })
}

/// The fields that one simulation step never touches.
pub open spec fn control_unchanged(pre: Game, post: Game) -> bool {
    &&& post.width == pre.width
    &&& post.height == pre.height
    &&& post.block_size == pre.block_size
    &&& post.draw_grid == pre.draw_grid
    &&& post.touch_mode == pre.touch_mode
    &&& post.game_mode == pre.game_mode
    &&& post.name == pre.name
    &&& post.direction == pre.direction
    &&& post.pause == pre.pause
    &&& post.input == pre.input
    &&& post.pressed == pre.pressed
    &&& post.over == pre.over
    &&& post.timestamp_last_frame == pre.timestamp_last_frame
    &&& post.timestamp_started == pre.timestamp_started
    &&& post.started == pre.started
}

/// The full transition taken by an accepted tick.
pub open spec fn ticked(pre: Game, post: Game, ts: u32) -> bool {
    let dir = next_direction(pre);
    let paused = next_pause(pre);
    let common = {
        &&& post.direction == dir
        &&& post.pause == paused
        &&& post.input == next_input(pre)
        &&& post.timestamp_last_frame == ts
        &&& post.started
        &&& post.timestamp_started == (if pre.started {
            pre.timestamp_started as int
        } else {
            ts as int
        })
        &&& post.pressed == pre.pressed
        &&& post.width == pre.width
        &&& post.height == pre.height
        &&& post.block_size == pre.block_size
        &&& post.draw_grid == pre.draw_grid
        &&& post.touch_mode == pre.touch_mode
        &&& post.game_mode == pre.game_mode
        &&& post.name == pre.name
    };
    if paused {
        common && post.snake@ == pre.snake@ && post.score == pre.score && post.speed == pre.speed
            && post.colour_index == pre.colour_index && post.food == pre.food && post.over
            == pre.over && post.rng == pre.rng
    } else {
        let moved = shifted(pre.snake@, dir);
        let eat = eats(moved[0], pre.food, pre.touch_mode);
        let grown = if eat {
            moved.push(moved[moved.len() - 1])
        } else {
            moved
        };
        let dead = border_dead(moved[0], dir, pre.grid_w(), pre.grid_h()) || self_hit(grown);
        &&& common
        &&& post.snake@ == grown
        &&& post.score == pre.score + (if eat {
            1int
        } else {
            0int
        })
        &&& post.colour_index == (if eat {
            (pre.colour_index + 1) % (NUM_COLOURS as int)
        } else {
            pre.colour_index as int
        })
        &&& post.speed == (if eat && pre.game_mode == GameMode::Fast && (pre.score + 1) % 3 == 0 {
            pre.speed + 1
        } else {
            pre.speed as int
        })
        &&& post.over == dead
        &&& (if eat {
            &&& post.in_bounds(post.food)
            &&& (free_cell_exists(grown, pre.grid_w(), pre.grid_h()) ==> !grown.contains(
                post.food,
            ))
        } else {
            post.food == pre.food && post.rng == pre.rng
        })
    }
}

fn contains_point(v: &Vec<Point>, p: Point) -> (b: bool)
    ensures
        b == v@.contains(p),
{
    let mut i: usize = 0;
    while i < v.len()
        invariant
            0 <= i <= v@.len(),
            forall|j: int| 0 <= j < i ==> v@[j] != p,
        decreases v@.len() - i,
    {
        if v[i] == p {
            return true;
        }
        i += 1;
    }
    false
}

/// Scans the rectangle `[x0, x1) x [y0, y1)` row by row for a cell free of
/// the snake.
fn find_free_cell(v: &Vec<Point>, x0: i32, y0: i32, x1: i32, y1: i32) -> (r: Option<Point>)
    requires
        0 <= x0 <= x1 <= 1000001,
        0 <= y0 <= y1 <= 1000001,
    ensures
        match r {
            Option::Some(p) => x0 <= p.x < x1 && y0 <= p.y < y1 && !v@.contains(p),
            Option::None => forall|p: Point|
                x0 <= p.x < x1 && y0 <= p.y < y1 ==> v@.contains(p),
        },
{
    let mut y = y0;
    while y < y1
        invariant
            0 <= x0 <= x1 <= 1000001,
            0 <= y0 <= y <= y1 <= 1000001,
            forall|p: Point| x0 <= p.x < x1 && y0 <= p.y < y ==> v@.contains(p),
        decreases y1 - y,
    {
        let mut x = x0;
        while x < x1
            invariant
                0 <= x0 <= x <= x1 <= 1000001,
                0 <= y0 <= y < y1 <= 1000001,
                forall|p: Point| x0 <= p.x < x1 && y0 <= p.y < y ==> v@.contains(p),
                forall|p: Point| x0 <= p.x < x && p.y == y ==> v@.contains(p),
            decreases x1 - x,
        {
            let cand = Point { x, y };
            if !contains_point(v, cand) {
                return Some(cand);
            }
            x += 1;
        }
        proof {
            assert(forall|p: Point|
                x0 <= p.x < x1 && y0 <= p.y < y + 1 ==> v@.contains(p));
        }
        y += 1;
    }
    None
}

/// Stepping a non-negative score by one moves its third either not at all
/// or, exactly at the multiples of three, by one.
proof fn lemma_div3_step(s: int)
    requires
        s >= 0,
    ensures
        (s + 1) % 3 == 0 ==> (s + 1) / 3 == s / 3 + 1,
        (s + 1) % 3 != 0 ==> (s + 1) / 3 == s / 3,
{
    assert((s + 1) % 3 == 0 ==> (s + 1) / 3 == s / 3 + 1) by (nonlinear_arith)
        requires
            s >= 0,
    ;
    assert((s + 1) % 3 != 0 ==> (s + 1) / 3 == s / 3) by (nonlinear_arith)
        requires
            s >= 0,
    ;
}

/// While a game is live, every snake cell lies inside the grid.
pub proof fn lemma_snake_in_bounds(g: Game)
    requires
        g.wf(),
        !g.over,
    ensures
        forall|i: int| 0 <= i < g.snake@.len() ==> g.in_bounds(#[trigger] g.snake@[i]),
{
}

/// While a Fast-mode game is live, the speed tier is pinned to the score
/// milestones: it is one more than a third of the score.
pub proof fn lemma_fast_speed_tier(g: Game)
    requires
        g.wf(),
        !g.over,
        g.game_mode == GameMode::Fast,
    ensures
        g.speed == 1 + g.score / 3,
{
}

} // verus!
