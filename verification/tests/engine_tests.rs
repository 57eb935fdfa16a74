use snake::game::{
    background_colour_index, segment_colour_index, ConfigError, Direction, Game, GameMode,
    InputSymbol, Point,
};
use snake::highscore::add_score;

fn new_game(mode: GameMode, touch: bool, seed: u64) -> Game {
    let mut g = Game::default();
    g.set_state(200, 200, 10, false, touch, mode, b"tester".to_vec(), seed)
        .unwrap();
    g
}

#[test]
fn initial_state_matches_configuration() {
    let g = new_game(GameMode::Fast, false, 7);
    assert_eq!(g.snake.len(), 3);
    assert_eq!(g.speed, 1);
    assert_eq!(g.score, 0);
    assert_eq!(g.direction, Direction::Down);
    assert!(!g.is_over());
    assert!(!g.pause);
    // 20x20 grid, snake centred and vertical
    assert_eq!(g.snake[0], Point { x: 10, y: 10 });
    assert_eq!(g.snake[1], Point { x: 10, y: 9 });
    assert_eq!(g.snake[2], Point { x: 10, y: 8 });
}

#[test]
fn config_rejections() {
    let mut g = Game::default();
    assert_eq!(
        g.set_state(0, 200, 10, false, false, GameMode::Fast, vec![], 1),
        Err(ConfigError::NonPositive)
    );
    assert_eq!(
        g.set_state(200, 200, 0, false, false, GameMode::Fast, vec![], 1),
        Err(ConfigError::NonPositive)
    );
    assert_eq!(
        g.set_state(205, 200, 10, false, false, GameMode::Fast, vec![], 1),
        Err(ConfigError::NotDivisible)
    );
    assert_eq!(
        g.set_state(10, 20, 10, false, false, GameMode::Fast, vec![], 1),
        Err(ConfigError::TooSmall)
    );
    assert_eq!(
        g.set_state(4000000000, 200, 1, false, false, GameMode::Fast, vec![], 1),
        Err(ConfigError::TooLarge)
    );
    // a rejected configuration leaves the state untouched
    assert!(g.is_over());
}

#[test]
fn snake_advances_downward_without_input() {
    let mut g = new_game(GameMode::Fast, false, 3);
    let cont = g.world_loop_contents(100);
    assert!(cont);
    assert_eq!(g.snake[0], Point { x: 10, y: 11 });
    assert_eq!(g.snake[1], Point { x: 10, y: 10 });
    assert_eq!(g.snake[2], Point { x: 10, y: 9 });
}

#[test]
fn tick_below_threshold_is_ignored() {
    let mut g = new_game(GameMode::Fast, false, 3);
    // threshold at speed 1 on keyboard is 90 ms; 50 is too soon
    let cont = g.world_loop_contents(50);
    assert!(cont);
    assert_eq!(g.snake[0], Point { x: 10, y: 10 });
    assert_eq!(g.timestamp_last_frame, 0);
}

#[test]
fn opposite_direction_is_rejected() {
    let mut g = new_game(GameMode::Fast, false, 3);
    g.set_input(InputSymbol::Up); // moving down; up is the exact opposite
    g.world_loop_contents(100);
    assert_eq!(g.direction, Direction::Down);
    assert_eq!(g.snake[0], Point { x: 10, y: 11 });
}

#[test]
fn perpendicular_turn_is_accepted() {
    let mut g = new_game(GameMode::Fast, false, 3);
    g.set_input(InputSymbol::Left);
    g.world_loop_contents(100);
    assert_eq!(g.direction, Direction::Left);
    assert_eq!(g.snake[0], Point { x: 9, y: 10 });
}

#[test]
fn pause_toggles_and_freezes_the_world() {
    let mut g = new_game(GameMode::Fast, false, 3);
    g.set_input(InputSymbol::PauseToggle);
    let cont = g.world_loop_contents(100);
    assert!(cont);
    assert!(g.pause);
    assert_eq!(g.input, InputSymbol::Neutral);
    assert_eq!(g.snake[0], Point { x: 10, y: 10 });
    // a second toggle resumes movement within the same tick
    g.set_input(InputSymbol::PauseToggle);
    g.world_loop_contents(200);
    assert!(!g.pause);
    assert_eq!(g.snake[0], Point { x: 10, y: 11 });
}

#[test]
fn eating_grows_scores_and_replaces_food() {
    let mut g = new_game(GameMode::Fast, false, 3);
    g.food = Point { x: 10, y: 11 };
    g.world_loop_contents(100);
    assert_eq!(g.score, 1);
    assert_eq!(g.snake.len(), 4);
    // the duplicated tail cell
    assert_eq!(g.snake[3], g.snake[2]);
    // fresh food is on the grid and off the snake
    assert!(g.food.x >= 0 && g.food.x < 20 && g.food.y >= 0 && g.food.y < 20);
    assert!(!g.snake.contains(&g.food));
    assert_eq!(g.colour_index, 1);
}

#[test]
fn fast_mode_speed_rises_at_score_multiples_of_three() {
    let mut g = new_game(GameMode::Fast, false, 3);
    let mut ts = 0u32;
    for n in 1..=7u64 {
        ts += 100;
        let head = g.snake[0];
        g.food = Point {
            x: head.x,
            y: head.y + 1,
        };
        // steer down the column; wrap around by turning is not needed in 7 steps
        g.world_loop_contents(ts);
        assert_eq!(g.score, n);
        assert_eq!(g.speed, 1 + n / 3);
    }
    assert_eq!(g.speed, 3);
    assert_eq!(g.snake.len(), 10);
}

#[test]
fn long_mode_speed_stays_at_one() {
    let mut g = new_game(GameMode::Long, false, 3);
    let mut ts = 0u32;
    for _ in 0..4 {
        ts += 200;
        let head = g.snake[0];
        g.food = Point {
            x: head.x,
            y: head.y + 1,
        };
        g.world_loop_contents(ts);
    }
    assert_eq!(g.score, 4);
    assert_eq!(g.speed, 1);
}

#[test]
fn frame_threshold_follows_tier_and_input_mode() {
    let mut g = new_game(GameMode::Fast, false, 3);
    assert_eq!(g.frame_time_threshold(), 90); // 100 - 1 * 10
    g.speed = 4;
    g.score = 9;
    assert_eq!(g.frame_time_threshold(), 60);
    let mut t = new_game(GameMode::Fast, true, 3);
    assert_eq!(t.frame_time_threshold(), 95); // 100 - 1 * 5
    t.speed = 30;
    t.score = 87;
    assert_eq!(t.frame_time_threshold(), 0); // clamped at zero
}

#[test]
fn long_mode_held_key_forces_the_elevated_tier() {
    let mut g = new_game(GameMode::Long, false, 3);
    assert_eq!(g.frame_time_threshold(), 90);
    g.set_pressed(true);
    assert_eq!(g.frame_time_threshold(), 40); // 100 - 6 * 10
    g.set_pressed(false);
    assert_eq!(g.frame_time_threshold(), 90);
}

#[test]
fn snake_stays_in_bounds_over_many_ticks() {
    let mut g = new_game(GameMode::Fast, false, 11);
    let mut ts = 0u32;
    let inputs = [
        InputSymbol::Left,
        InputSymbol::Up,
        InputSymbol::Right,
        InputSymbol::Down,
    ];
    let mut k = 0usize;
    while !g.is_over() && ts < 40000 {
        ts += 100;
        if ts % 700 == 0 {
            g.set_input(inputs[k % 4]);
            k += 1;
        }
        g.world_loop_contents(ts);
        if !g.is_over() {
            for p in &g.snake {
                assert!(p.x >= 0 && p.x < 20, "x out of bounds: {}", p.x);
                assert!(p.y >= 0 && p.y < 20, "y out of bounds: {}", p.y);
            }
        }
    }
}

#[test]
fn border_collision_ends_the_game_on_every_edge() {
    // bottom edge: keep moving down from the start
    let mut g = new_game(GameMode::Fast, false, 3);
    let mut ts = 0u32;
    let mut guard = 0;
    loop {
        ts += 100;
        let cont = g.world_loop_contents(ts);
        guard += 1;
        assert!(guard < 100);
        if !cont {
            break;
        }
    }
    assert!(g.is_over());
    assert_eq!(g.snake[0].y, 20); // one past the half-open bound

    // right edge uses the same half-open bound as the others
    let mut g = new_game(GameMode::Fast, false, 3);
    g.set_input(InputSymbol::Right);
    let mut ts = 0u32;
    let mut guard = 0;
    loop {
        ts += 100;
        let cont = g.world_loop_contents(ts);
        guard += 1;
        assert!(guard < 100);
        if !cont {
            break;
        }
    }
    assert!(g.is_over());
    assert_eq!(g.snake[0].x, 20);
}

#[test]
fn game_over_is_a_terminal_no_op() {
    let mut g = new_game(GameMode::Fast, false, 3);
    let mut ts = 0u32;
    loop {
        ts += 100;
        if !g.world_loop_contents(ts) {
            break;
        }
    }
    let frozen_score = g.score;
    let frozen_head = g.snake[0];
    let cont = g.world_loop_contents(ts + 1000);
    assert!(!cont);
    assert_eq!(g.score, frozen_score);
    assert_eq!(g.snake[0], frozen_head);
}

#[test]
fn touch_mode_eats_from_the_enlarged_neighbourhood() {
    let mut g = new_game(GameMode::Fast, true, 3);
    // head will move to (10, 11); food one cell to the right of that
    g.food = Point { x: 11, y: 11 };
    g.world_loop_contents(200);
    assert_eq!(g.score, 1);

    let mut g = new_game(GameMode::Fast, false, 3);
    g.food = Point { x: 11, y: 11 };
    g.world_loop_contents(200);
    assert_eq!(g.score, 0); // keyboard mode needs exact overlap
}

#[test]
fn place_food_never_lands_on_the_snake() {
    for seed in 0..200u64 {
        let mut g = new_game(GameMode::Fast, false, seed);
        for _ in 0..20 {
            g.place_food();
            assert!(!g.snake.contains(&g.food), "seed {}", seed);
            assert!(g.food.x >= 0 && g.food.x < 20 && g.food.y >= 0 && g.food.y < 20);
        }
    }
}

#[test]
fn place_food_respects_the_touch_inset() {
    for seed in 0..100u64 {
        let mut g = new_game(GameMode::Fast, true, seed);
        g.place_food();
        assert!(!g.snake.contains(&g.food));
        assert!(g.food.x >= 5 && g.food.x < 15, "seed {}: {}", seed, g.food.x);
        assert!(g.food.y >= 5 && g.food.y < 15, "seed {}: {}", seed, g.food.y);
    }
}

#[test]
fn place_food_fills_a_crowded_grid() {
    // a 2x4 grid holds 8 cells; the snake covers 3 of them
    let mut g = Game::default();
    g.set_state(20, 40, 10, false, false, GameMode::Fast, vec![], 9)
        .unwrap();
    for _ in 0..50 {
        g.place_food();
        assert!(!g.snake.contains(&g.food));
        assert!(g.food.x >= 0 && g.food.x < 2 && g.food.y >= 0 && g.food.y < 4);
    }
}

#[test]
fn colour_helpers_follow_the_palettes() {
    assert_eq!(segment_colour_index(0), None);
    assert_eq!(segment_colour_index(2), None);
    assert_eq!(segment_colour_index(3), Some(0));
    assert_eq!(segment_colour_index(23), Some(20));
    assert_eq!(segment_colour_index(24), Some(0));
    assert_eq!(background_colour_index(1), None);
    assert_eq!(background_colour_index(2), Some(0));
    assert_eq!(background_colour_index(8), Some(6));
    assert_eq!(background_colour_index(9), Some(0));
}

#[test]
fn end_to_end_game_flow() {
    let mut g = new_game(GameMode::Fast, false, 42);
    assert_eq!(g.snake.len(), 3);
    assert_eq!(g.speed, 1);
    assert_eq!(g.score, 0);
    assert_eq!(g.direction, Direction::Down);

    // no input: straight down
    g.world_loop_contents(100);
    assert_eq!(g.snake[0], Point { x: 10, y: 11 });

    // food at the head's next position: eat and grow
    g.food = Point { x: 10, y: 12 };
    g.world_loop_contents(200);
    assert_eq!(g.score, 1);
    assert_eq!(g.snake.len(), 4);

    // two more meals reach the first speed milestone
    g.food = Point { x: 10, y: 13 };
    g.world_loop_contents(300);
    g.food = Point { x: 10, y: 14 };
    g.world_loop_contents(400);
    assert_eq!(g.score, 3);
    assert_eq!(g.speed, 2);

    // turn off the column, then drive up and out of the grid
    g.set_input(InputSymbol::Left);
    g.world_loop_contents(500);
    g.set_input(InputSymbol::Up);
    let mut ts = 500u32;
    let mut cont = true;
    while cont {
        ts += 100;
        cont = g.world_loop_contents(ts);
        assert!(ts < 5000);
    }
    assert!(g.is_over());
    assert!(g.snake[0].y < 0);

    // the finished game inserts exactly one record with the input-mode label
    let label: Vec<u8> = if g.touch_mode {
        b"Touch".to_vec()
    } else {
        b"Keyboard".to_vec()
    };
    let (list, time) = add_score(
        Vec::new(),
        g.name.clone(),
        g.score,
        label.clone(),
        b"Fast Snake".to_vec(),
        g.elapsed_ms(),
    );
    assert_eq!(list.len(), 1);
    assert_eq!(list[0].mode, label);
    assert_eq!(list[0].score, 3);
    assert_eq!(list[0].time, time);
}

#[test]
fn elapsed_ms_measures_accepted_ticks() {
    let mut g = new_game(GameMode::Fast, false, 3);
    assert_eq!(g.elapsed_ms(), 0);
    g.world_loop_contents(150);
    assert_eq!(g.elapsed_ms(), 0); // first accepted tick starts the clock
    g.world_loop_contents(450);
    assert_eq!(g.elapsed_ms(), 300);
}
