use maze_escape::caster::FP;
use maze_escape::maze::from_rows;
use maze_escape::world::{
    accumulate, clamp_frame_delta, end_screen_frame, menu_frame, move_player, playing_fixed_step,
    rotate_player, sfx_final_volume, sound_menu_frame,
};
use maze_escape::{AppState, GameEvent, Grid, Maze, Player, World};

fn build(rows: &[&str]) -> Maze {
    let cells: Vec<Vec<char>> = rows.iter().map(|r| r.chars().collect()).collect();
    from_rows(&cells).unwrap()
}

fn world_on(rows: &[&str], cell: (usize, usize)) -> World {
    let maze = build(rows);
    let bs = 10usize;
    let px = (cell.0 as i64 * bs as i64 + bs as i64 / 2) * FP;
    let py = (cell.1 as i64 * bs as i64 + bs as i64 / 2) * FP;
    let fog = Grid::new(maze.rows, maze.cols, false);
    World {
        maze,
        block_size: bs,
        player: Player::new(px, py, 0, 1_047_198),
        enemies: Vec::new(),
        medkits: Vec::new(),
        keys: Vec::new(),
        bins: Vec::new(),
        fog,
        goal_unlocked: false,
    }
}

#[test]
fn step_away_from_goal_stays_playing() {
    let mut w = world_on(&["+++++", "+  g+", "+++++"], (1, 1));
    let (state, events) = playing_fixed_step(&mut w);
    assert!(matches!(state, AppState::Playing));
    assert!(!events.iter().any(|e| matches!(e, GameEvent::NeedKey)));
}

#[test]
fn goal_without_key_keeps_playing_and_emits_need_key() {
    let mut w = world_on(&["+++++", "+  g+", "+++++"], (3, 1));
    let (state, events) = playing_fixed_step(&mut w);
    assert!(matches!(state, AppState::Playing));
    assert!(events.iter().any(|e| matches!(e, GameEvent::NeedKey)));
}

#[test]
fn goal_with_key_wins() {
    let mut w = world_on(&["+++++", "+  g+", "+++++"], (3, 1));
    w.player.pickup_key();
    let (state, events) = playing_fixed_step(&mut w);
    assert!(matches!(state, AppState::Victory));
    assert!(events.iter().any(|e| matches!(e, GameEvent::Won)));
}

#[test]
fn goal_with_unlock_flag_wins_without_key() {
    let mut w = world_on(&["+++++", "+  g+", "+++++"], (3, 1));
    w.goal_unlocked = true;
    let (state, _) = playing_fixed_step(&mut w);
    assert!(matches!(state, AppState::Victory));
}

#[test]
fn health_zero_transitions_to_game_over() {
    let mut w = world_on(&["+++++", "+  g+", "+++++"], (1, 1));
    w.player.apply_damage(100);
    let (state, events) = playing_fixed_step(&mut w);
    assert!(matches!(state, AppState::GameOver));
    assert!(events.iter().any(|e| matches!(e, GameEvent::Died)));
}

#[test]
fn step_takes_pickups_under_the_player() {
    let mut w = world_on(&["+++++", "+  g+", "+++++"], (1, 1));
    w.player.apply_damage(40);
    w.medkits.push(maze_escape::Pickup { cell: (1, 1), taken: false });
    w.keys.push(maze_escape::Pickup { cell: (1, 1), taken: false });
    w.keys.push(maze_escape::Pickup { cell: (2, 1), taken: false });
    let (_, events) = playing_fixed_step(&mut w);
    assert!(w.medkits[0].taken);
    assert!(w.keys[0].taken);
    assert!(!w.keys[1].taken);
    assert!(w.player.has_key);
    assert_eq!(w.player.health, 85);
    assert!(events.iter().any(|e| matches!(e, GameEvent::MedkitTaken)));
    assert!(events.iter().any(|e| matches!(e, GameEvent::KeyTaken)));
}

#[test]
fn step_reveals_fog_around_the_player() {
    let mut w = world_on(&["+++++", "+  g+", "+++++"], (1, 1));
    let (_, _) = playing_fixed_step(&mut w);
    assert!(w.fog.read(1, 1));
    assert!(w.fog.read(1, 2));
    assert!(!w.fog.read(1, 4));
}

#[test]
fn moving_forward_in_the_open_advances_the_player() {
    let mut w = world_on(&["+++++", "+   +", "+++++"], (1, 1));
    let x0 = w.player.pos_x;
    let ev = move_player(&mut w, true, false, false, FP, 0, 16_667);
    assert!(ev.is_none());
    assert!(w.player.pos_x > x0);
    assert_eq!(w.player.pos_y, (1 * 10 + 5) * FP);
}

#[test]
fn moving_into_a_wall_stops_the_player() {
    let mut w = world_on(&["+++++", "+   +", "+++++"], (1, 1));
    let x0 = w.player.pos_x;
    // Facing west: one sub-step would enter the border wall.
    for _ in 0..200 {
        let _ = move_player(&mut w, true, false, false, -(FP), 0, 16_667);
    }
    assert!(w.player.pos_x <= x0);
    let cx = (w.player.pos_x / FP / 10) as usize;
    assert_eq!(w.maze.read(1, cx), ' ');
}

#[test]
fn opening_a_door_with_the_key_unlocks_an_adjacent_goal() {
    let mut w = world_on(&["++++++", "+  Dg+", "++++++"], (2, 1));
    w.player.pickup_key();
    // Stand near the east edge of the cell so one sub-step crosses in.
    w.player.pos_x = (2 * 10 + 9) * FP + 900;
    let mut opened = false;
    for _ in 0..10 {
        if let Some(ev) = move_player(&mut w, true, false, false, FP, 0, 16_667) {
            assert!(matches!(ev, GameEvent::DoorOpened));
            opened = true;
            break;
        }
    }
    assert!(opened);
    assert_eq!(w.maze.read(1, 3), ' ');
    assert!(!w.player.has_key);
    assert!(w.goal_unlocked);
}

#[test]
fn door_without_key_blocks_movement() {
    let mut w = world_on(&["++++++", "+  Dg+", "++++++"], (2, 1));
    w.player.pos_x = (2 * 10 + 9) * FP + 900;
    for _ in 0..10 {
        let ev = move_player(&mut w, true, false, false, FP, 0, 16_667);
        assert!(ev.is_none());
    }
    assert_eq!(w.maze.read(1, 3), 'D');
    let cx = (w.player.pos_x / FP / 10) as usize;
    assert_eq!(cx, 2);
}

#[test]
fn running_drains_stamina() {
    let mut w = world_on(&["+++++++", "+     +", "+++++++"], (1, 1));
    let s0 = w.player.stamina;
    let _ = move_player(&mut w, true, false, true, FP, 0, 16_667);
    assert_eq!(w.player.stamina, s0 - 60 * 16_667);
}

#[test]
fn menu_navigation_cycles_and_selects() {
    let (s, start) = menu_frame(0, false, true, false, 450);
    assert!(matches!(s, AppState::Menu { selected: 1 }));
    assert!(!start);
    let (s, _) = menu_frame(0, true, false, false, 450);
    assert!(matches!(s, AppState::Menu { selected: 2 }));
    let (s, start) = menu_frame(0, false, false, true, 450);
    assert!(matches!(s, AppState::Menu { selected: 0 }));
    assert!(start);
    let (s, _) = menu_frame(1, false, false, true, 450);
    assert!(matches!(s, AppState::SoundMenu { volume: 450, previous_selected: 1 }));
    let (s, _) = menu_frame(2, false, false, true, 450);
    assert!(matches!(s, AppState::Exiting));
}

#[test]
fn sound_menu_slides_and_clamps_volume() {
    let (_, v) = sound_menu_frame(500, 1, false, true, false, 1_000_000);
    assert_eq!(v, 1000);
    let (_, v) = sound_menu_frame(100, 1, true, false, false, 1_000_000);
    assert_eq!(v, 0);
    let (s, v) = sound_menu_frame(300, 1, false, false, true, 16_667);
    assert_eq!(v, 300);
    assert!(matches!(s, AppState::Menu { selected: 1 }));
}

#[test]
fn end_screens_confirm_back_to_menu() {
    let s = end_screen_frame(true, AppState::Victory);
    assert!(matches!(s, AppState::Menu { selected: 0 }));
    let s = end_screen_frame(false, AppState::GameOver);
    assert!(matches!(s, AppState::GameOver));
}

#[test]
fn frame_delta_is_clamped_before_accumulation() {
    assert_eq!(clamp_frame_delta(300_000), 250_000);
    assert_eq!(clamp_frame_delta(10_000), 10_000);
    assert_eq!(accumulate(5_000, 400_000), 255_000);
}

#[test]
fn sfx_volume_scales_and_clamps() {
    assert_eq!(sfx_final_volume(300, 400), 120);
    assert_eq!(sfx_final_volume(5000, 400), 400);
    assert_eq!(sfx_final_volume(1000, 1000), 1000);
    assert_eq!(sfx_final_volume(0, 1000), 0);
}

#[test]
fn rotation_normalizes_into_the_half_open_interval() {
    let mut p = Player::new(0, 0, 3_000_000, 1_047_198);
    // Turning right past pi wraps to the negative side, never to
    // exactly minus pi.
    rotate_player(&mut p, false, true, 1_000_000);
    assert!(-3_141_593 < p.angle && p.angle <= 3_141_593);
    let mut q = Player::new(0, 0, -3_141_593 + 3_141_593, 1_047_198);
    rotate_player(&mut q, false, false, 0);
    assert!(-3_141_593 < q.angle && q.angle <= 3_141_593);
}

#[test]
fn fixed_step_health_follows_the_damage_and_heal_rules() {
    let mut w = world_on(&["+++++", "+  g+", "+++++"], (1, 1));
    w.player.shield = 20;
    w.medkits.push(maze_escape::Pickup { cell: (1, 1), taken: false });
    let (_, _) = playing_fixed_step(&mut w);
    // No enemies: no damage; one medkit heals nothing at full health,
    // so it charges the shield.
    assert_eq!(w.player.health, 100);
    assert_eq!(w.player.shield, 45);
}
