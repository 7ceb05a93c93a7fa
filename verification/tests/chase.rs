use enemy_pathfinder::game::{same_cell, FrameEvents, GameState, PathFollower};
use enemy_pathfinder::map::RuntimeMapAdapter;

fn grid(rows: &[&str]) -> RuntimeMapAdapter {
    let height = rows.len();
    let width = rows[0].len();
    let mut solid = Vec::new();
    for row in rows {
        for byte in row.bytes() {
            solid.push(byte == b'#');
        }
    }
    RuntimeMapAdapter { tile_size: 32, width, height, solid }
}

fn follower(path: Vec<(usize, usize)>, path_index: usize) -> PathFollower {
    let last_start = path.first().copied().unwrap_or((0, 0));
    let last_goal = path.last().copied().unwrap_or((0, 0));
    PathFollower { path, last_start, last_goal, path_index }
}

#[test]
fn progress_stops_at_the_last_waypoint() {
    let path = vec![(0, 0), (1, 0), (2, 0)];
    let mut chase = follower(path.clone(), 0);
    assert_eq!(chase.next_waypoint((0, 0)), Some((1, 0)));
    chase.note_arrival((1, 0), (1, 0));
    assert_eq!(chase.path_index, 1);
    assert_eq!(chase.next_waypoint((1, 0)), Some((2, 0)));
    chase.note_arrival((2, 0), (2, 0));
    assert_eq!(chase.path_index, 2);
    for _ in 0..3 {
        assert_eq!(chase.next_waypoint((2, 0)), None);
        assert_eq!(chase.path_index, 2);
        chase.note_arrival((2, 0), (2, 0));
        assert_eq!(chase.path_index, 2);
    }
    assert_eq!(chase.path, path);
}

#[test]
fn short_routes_give_no_waypoint() {
    let mut none = follower(vec![], 0);
    assert_eq!(none.next_waypoint((0, 0)), None);
    let mut single = follower(vec![(4, 4)], 0);
    assert_eq!(single.next_waypoint((0, 0)), None);
    assert_eq!(single.path_index, 0);
    single.note_arrival((4, 4), (4, 4));
    assert_eq!(single.path_index, 0);
}

#[test]
fn progress_moves_past_waypoints_already_reached() {
    let mut chase = follower(vec![(0, 0), (1, 0), (1, 0), (1, 1)], 0);
    // Set right to waypoint 1, then past waypoint 2, which is the same cell.
    assert_eq!(chase.next_waypoint((1, 0)), Some((1, 1)));
    assert_eq!(chase.path_index, 2);
    let mut ahead = follower(vec![(0, 0), (1, 0), (1, 1), (2, 1)], 1);
    assert_eq!(ahead.next_waypoint((1, 1)), Some((2, 1)));
    assert_eq!(ahead.path_index, 2);
}

#[test]
fn drift_sets_progress_to_the_first_waypoint_with_the_pursuers_cell() {
    let path = vec![(0, 0), (1, 0), (2, 0), (1, 0), (3, 0)];
    let mut chase = follower(path.clone(), 4);
    chase.sync_path_index((1, 0));
    assert_eq!(chase.path_index, 1);
    chase.sync_path_index((1, 0));
    assert_eq!(chase.path_index, 1);
    chase.sync_path_index((9, 9));
    assert_eq!(chase.path_index, 1);
    let mut beyond = follower(path.clone(), 7);
    beyond.sync_path_index((2, 0));
    assert_eq!(beyond.path_index, 7);
    let mut arrived = follower(path, 2);
    arrived.note_arrival((1, 0), (3, 0));
    assert_eq!(arrived.path_index, 2);
    arrived.note_arrival((1, 0), (1, 0));
    assert_eq!(arrived.path_index, 3);
}

#[test]
fn route_is_searched_again_only_when_needed() {
    let map = grid(&["...", ".#.", "..."]);
    let mut chase = PathFollower::new();
    assert!(chase.path.is_empty());
    chase.update_path_cache(&map, false, (0, 0), (2, 0));
    assert_eq!(chase.path, vec![(0, 0), (1, 0), (2, 0)]);
    assert_eq!((chase.last_start, chase.last_goal, chase.path_index), ((0, 0), (2, 0), 0));
    chase.path_index = 2;
    chase.update_path_cache(&map, false, (0, 0), (2, 0));
    assert_eq!(chase.path_index, 2);
    chase.update_path_cache(&map, false, (1, 0), (2, 0));
    assert_eq!(chase.path, vec![(1, 0), (2, 0)]);
    assert_eq!((chase.last_start, chase.path_index), ((1, 0), 0));
    chase.update_path_cache(&map, false, (1, 0), (1, 1));
    assert!(chase.path.is_empty());
    assert_eq!(chase.last_goal, (1, 1));
    chase.update_path_cache(&map, false, (1, 0), (1, 1));
    assert!(chase.path.is_empty());
    chase.update_path_cache(&map, false, (1, 0), (2, 2));
    chase.path_index = 1;
    chase.update_path_cache(&map, true, (0, 0), (0, 2));
    assert!(chase.path.is_empty());
    assert_eq!((chase.last_start, chase.last_goal, chase.path_index), ((1, 0), (2, 2), 0));
    chase.update_path_cache(&map, false, (1, 0), (2, 2));
    assert_eq!(chase.path, vec![(1, 0), (2, 0), (2, 1), (2, 2)]);
    chase.reset();
    assert!(chase.path.is_empty());
    assert_eq!((chase.last_start, chase.last_goal, chase.path_index), ((0, 0), (0, 0), 0));
}

fn events(start: bool, restart: bool, end_zone: bool, touch: bool) -> FrameEvents {
    FrameEvents {
        start_pressed: start,
        restart_pressed: restart,
        player_in_end_zone: end_zone,
        enemy_touches_player: touch,
    }
}

#[test]
fn screens_follow_one_another() {
    let start = GameState::StartScreen;
    let playing = GameState::Playing;
    let win = GameState::Win;
    let over = GameState::GameOver;
    assert_eq!(start.advance(events(false, true, true, true)), start);
    assert_eq!(start.advance(events(true, false, false, false)), playing);
    assert_eq!(playing.advance(events(true, true, false, false)), playing);
    assert_eq!(playing.advance(events(false, false, true, false)), win);
    assert_eq!(playing.advance(events(false, false, true, true)), win);
    assert_eq!(playing.advance(events(false, false, false, true)), over);
    assert_eq!(win.advance(events(true, false, true, true)), win);
    assert_eq!(win.advance(events(false, true, false, false)), playing);
    assert_eq!(over.advance(events(true, false, true, true)), over);
    assert_eq!(over.advance(events(false, true, false, false)), playing);
    assert!(same_cell((1, 2), (1, 2)) && !same_cell((1, 2), (2, 1)));
}
