use crate::map::RuntimeMapAdapter;
use crate::pathfinding::{astar_route, astar_with_map, cell, cells};
use vstd::prelude::*;

verus! {

/// The screens of a session.
#[derive(Clone, Copy, Debug, PartialEq, Eq, Structural)]
pub enum GameState {
    StartScreen,
    Playing,
    Win,
    GameOver,
}

/// What one frame brought: the keys that matter and, while playing, how the
/// chase stands.
#[derive(Clone, Copy, Debug, PartialEq, Eq, Structural)]
pub struct FrameEvents {
    pub start_pressed: bool,
    pub restart_pressed: bool,
    pub player_in_end_zone: bool,
    pub enemy_touches_player: bool,
}

/// The screen that follows `state` after a frame with `events`.
pub open spec fn next_state(state: GameState, events: FrameEvents) -> GameState {
    match state {
        GameState::StartScreen => if events.start_pressed {
            GameState::Playing
        } else {
            GameState::StartScreen
        },
        GameState::Playing => if events.player_in_end_zone {
            GameState::Win
        } else if events.enemy_touches_player {
            GameState::GameOver
        } else {
            GameState::Playing
        },
        GameState::Win => if events.restart_pressed {
            GameState::Playing
        } else {
            GameState::Win
        },
        GameState::GameOver => if events.restart_pressed {
            GameState::Playing
        } else {
            GameState::GameOver
        },
    }
}

impl GameState {
    /// The screen that follows after a frame with `events`: the start screen
    /// waits for the start key, play ends in a win when the player stands in
    /// the end zone and else in defeat when the enemy touches the player, and
    /// both end screens wait for the restart key.
    pub fn advance(self, events: FrameEvents) -> (next: GameState)
        ensures
            next == next_state(self, events),
    {
        match self {
            GameState::StartScreen => if events.start_pressed {
                GameState::Playing
            } else {
                GameState::StartScreen
            },
            GameState::Playing => if events.player_in_end_zone {
                GameState::Win
            } else if events.enemy_touches_player {
                GameState::GameOver
            } else {
                GameState::Playing
            },
            GameState::Win => if events.restart_pressed {
                GameState::Playing
            } else {
                GameState::Win
            },
            GameState::GameOver => if events.restart_pressed {
                GameState::Playing
            } else {
                GameState::GameOver
            },
        }
    }
}

/// The index the pursuer's progress is set to when it stands in `here`: where
/// the waypoint at `index` is not `here`, the first waypoint that is; else,
/// and where no waypoint is, `index` itself.
pub open spec fn synced_index(path: Seq<(usize, usize)>, index: int, here: (usize, usize)) -> int {
    if 0 <= index < path.len() && path[index] != here {
        match path.index_of_first(here) {
            Some(found) => found,
            None => index,
        }
    } else {
        index
    }
}

/// The index reached from `index` by passing every next waypoint that is
/// `here`.
pub open spec fn advanced_index(path: Seq<(usize, usize)>, index: int, here: (usize, usize)) -> int
    decreases path.len() - index,
{
    if 0 <= index && index + 1 < path.len() && path[index + 1] == here {
        advanced_index(path, index + 1, here)
    } else {
        index
    }
}

/// The pursuer's cached route and its progress along it.
#[derive(Debug)]
pub struct PathFollower {
    /// The cached route; empty when none is cached.
    pub path: Vec<(usize, usize)>,
    /// The cells the cached route was last searched between.
    pub last_start: (usize, usize),
    pub last_goal: (usize, usize),
    /// The waypoint the pursuer stands on or passed last.
    pub path_index: usize,
}

impl PathFollower {
    /// No route cached, no progress made.
    pub fn new() -> (follower: Self)
        ensures
            follower.path@.len() == 0,
            follower.last_start == (0usize, 0usize),
            follower.last_goal == (0usize, 0usize),
            follower.path_index == 0,
    {
        PathFollower { path: Vec::new(), last_start: (0, 0), last_goal: (0, 0), path_index: 0 }
    }

    /// Forgets the cached route, as at the start of a session.
    pub fn reset(&mut self)
        ensures
            final(self).path@.len() == 0,
            final(self).last_start == (0usize, 0usize),
            final(self).last_goal == (0usize, 0usize),
            final(self).path_index == 0,
    {
        self.path.clear();
        self.path_index = 0;
        self.last_start = (0, 0);
        self.last_goal = (0, 0);
    }

    /// Brings the cached route up to date. With line of sight the route is
    /// dropped. Without it the route is searched anew when the pursuer's or
    /// the target's cell has changed or no route is cached, and kept otherwise;
    /// a new route starts at progress zero.
    pub fn update_path_cache(
        &mut self,
        map: &RuntimeMapAdapter,
        los: bool,
        start_cell: (usize, usize),
        goal_cell: (usize, usize),
    )
        requires
            map.wf(),
        ensures
            los ==> {
                &&& final(self).path@.len() == 0
                &&& final(self).path_index == 0
                &&& final(self).last_start == old(self).last_start
                &&& final(self).last_goal == old(self).last_goal
            },
            !los && (start_cell != old(self).last_start || goal_cell != old(self).last_goal
                || old(self).path@.len() == 0) ==> {
                &&& cells(final(self).path@) == astar_route(map@, cell(start_cell), cell(goal_cell))
                &&& final(self).path_index == 0
                &&& final(self).last_start == start_cell
                &&& final(self).last_goal == goal_cell
            },
            !los && start_cell == old(self).last_start && goal_cell == old(self).last_goal && old(
                self,
            ).path@.len() > 0 ==> {
                &&& final(self).path@ == old(self).path@
                &&& final(self).path_index == old(self).path_index
                &&& final(self).last_start == old(self).last_start
                &&& final(self).last_goal == old(self).last_goal
            },
    {
        if !los {
            if start_cell.0 != self.last_start.0 || start_cell.1 != self.last_start.1 || goal_cell.0
                != self.last_goal.0 || goal_cell.1 != self.last_goal.1 || self.path.len() == 0 {
                self.path = astar_with_map(map, start_cell, goal_cell);
                self.last_start = start_cell;
                self.last_goal = goal_cell;
                self.path_index = 0;
            }
        } else {
            self.path.clear();
            self.path_index = 0;
        }
    }

    /// Sets the progress right when the pursuer has drifted off the waypoint
    /// it is thought to stand on: to the first waypoint that is its cell, if
    /// there is one.
    pub fn sync_path_index(&mut self, enemy_cell: (usize, usize))
        ensures
            final(self).path@ == old(self).path@,
            final(self).last_start == old(self).last_start,
            final(self).last_goal == old(self).last_goal,
            final(self).path_index as int == synced_index(
                old(self).path@,
                old(self).path_index as int,
                enemy_cell,
            ),
            old(self).path_index < old(self).path@.len() ==> final(self).path_index < old(
                self,
            ).path@.len(),
    {
        if self.path_index < self.path.len() && !same_cell(
            self.path[self.path_index],
            enemy_cell,
        ) {
            let mut i: usize = 0;
            while i < self.path.len()
                invariant
                    i <= self.path@.len(),
                    forall|j: int| 0 <= j < i ==> self.path@[j] != enemy_cell,
                    *self == *old(self),
                    self.path_index < self.path@.len(),
                    self.path@[self.path_index as int] != enemy_cell,
                decreases self.path@.len() - i,
            {
                if same_cell(self.path[i], enemy_cell) {
                    proof {
                        assert(self.path@.contains(enemy_cell));
                        self.path@.index_of_first_ensures(enemy_cell);
                    }
                    self.path_index = i;
                    return ;
                }
                i = i + 1;
            }
            proof {
                assert(!self.path@.contains(enemy_cell));
                self.path@.index_of_first_ensures(enemy_cell);
            }
        }
    }

    /// The waypoint to head for next when the pursuer stands in `enemy_cell`,
    /// after the progress has been set right and moved past every waypoint
    /// already reached. `None` when the route has fewer than two cells, or
    /// when the last waypoint is reached: then the pursuer stays.
    pub fn next_waypoint(&mut self, enemy_cell: (usize, usize)) -> (target: Option<(usize, usize)>)
        ensures
            final(self).path@ == old(self).path@,
            final(self).last_start == old(self).last_start,
            final(self).last_goal == old(self).last_goal,
            old(self).path@.len() < 2 ==> target is None && final(self).path_index == old(
                self,
            ).path_index,
            old(self).path@.len() >= 2 ==> {
                let reached = advanced_index(
                    old(self).path@,
                    synced_index(old(self).path@, old(self).path_index as int, enemy_cell),
                    enemy_cell,
                );
                &&& final(self).path_index as int == reached
                &&& reached + 1 >= old(self).path@.len() ==> target is None
                &&& reached + 1 < old(self).path@.len() ==> target == Some(
                    old(self).path@[reached + 1],
                )
            },
            old(self).path_index < old(self).path@.len() ==> final(self).path_index < old(
                self,
            ).path@.len(),
            old(self).path_index + 1 == old(self).path@.len() && old(self).path@[old(
                self,
            ).path_index as int] == enemy_cell ==> target is None && final(self).path_index == old(
                self,
            ).path_index,
    {
        if self.path.len() < 2 {
            return None;
        }
        self.sync_path_index(enemy_cell);
        let ghost synced = self.path_index;
        while self.path_index < self.path.len() - 1 && same_cell(
            self.path[self.path_index + 1],
            enemy_cell,
        )
            invariant
                self.path@ == old(self).path@,
                self.last_start == old(self).last_start,
                self.last_goal == old(self).last_goal,
                self.path@.len() >= 2,
                synced <= self.path_index,
                self.path_index < self.path@.len() || self.path_index == synced,
                advanced_index(self.path@, synced as int, enemy_cell) == advanced_index(
                    self.path@,
                    self.path_index as int,
                    enemy_cell,
                ),
            decreases self.path@.len() - self.path_index,
        {
            self.path_index = self.path_index + 1;
        }
        if self.path_index >= self.path.len() - 1 {
            return None;
        }
        Some(self.path[self.path_index + 1])
    }

    /// Records where a move towards `target_cell` ended: on that waypoint's
    /// cell the progress moves on to it at once, unless it stands on the last
    /// waypoint already.
    pub fn note_arrival(&mut self, new_cell: (usize, usize), target_cell: (usize, usize))
        ensures
            final(self).path@ == old(self).path@,
            final(self).last_start == old(self).last_start,
            final(self).last_goal == old(self).last_goal,
            final(self).path_index == if new_cell == target_cell && old(self).path_index + 1 < old(
                self,
            ).path@.len() {
                (old(self).path_index + 1) as usize
            } else {
                old(self).path_index
            },
            old(self).path_index < old(self).path@.len() ==> final(self).path_index < old(
                self,
            ).path@.len(),
    {
        if same_cell(new_cell, target_cell) && self.path.len() > 0 && self.path_index
            < self.path.len() - 1 {
            self.path_index = self.path_index + 1;
        }
    }
}

/// Whether two cells are the same cell.
pub fn same_cell(a: (usize, usize), b: (usize, usize)) -> (same: bool)
    ensures
        same == (a == b),
{
    a.0 == b.0 && a.1 == b.1
}

} // verus!
