use vstd::prelude::*;
use crate::maze::{
    grid_wf, open_at, count_open, lat_in, lat_w, lat_h, generate_maze, apply_difficulty,
    difficulty_from_index,
};
use crate::world::{RoundState, WorldState};
use crate::spawn::{find_spawn, allocate_unique_spawns_for_all, distinct_positions};
use crate::protocol::{
    Outbound, is_round_msg, is_map_snapshot, is_players_snapshot, round_msg, map_msg_for,
    players_msg,
};

verus! {

/// Whole seconds charged for an elapsed interval: the ceiling of ms / 1000.
pub open spec fn ceil_secs(ms: u64) -> int {
    ms as int / 1000 + if ms as int % 1000 == 0 {
        0int
    } else {
        1int
    }
}

/// The countdown after one tick: floored at zero, never negative.
pub open spec fn remaining_after(remaining: u32, ms: u64) -> int {
    if ceil_secs(ms) >= remaining as int {
        0
    } else {
        remaining as int - ceil_secs(ms)
    }
}

/// The timed state machine: Lobby (5s) -> InRound (30s) -> Intermission (5s)
/// -> next difficulty and back to Lobby. A tick with no elapsed time does
/// nothing; a tick that leaves time on the clock only counts down; a tick
/// that exhausts the clock performs exactly one transition, however much
/// time elapsed.
pub open spec fn round_step(st: RoundState, remaining: u32, diff: usize, ms: u64) -> (
    RoundState,
    int,
    int,
) {
    if ms == 0 {
        (st, remaining as int, diff as int)
    } else {
        let rem1 = remaining_after(remaining, ms);
        if rem1 > 0 {
            (st, rem1, diff as int)
        } else {
            match st {
                RoundState::Lobby => (RoundState::InRound, 30, diff as int),
                RoundState::InRound => (RoundState::Intermission, 5, diff as int),
                RoundState::Intermission => (RoundState::Lobby, 5, (diff as int + 1) % 3),
            }
        }
    }
}

/// Whether this tick fires a transition.
pub open spec fn transitions(remaining: u32, ms: u64) -> bool {
    ms > 0 && remaining_after(remaining, ms) == 0
}

/// The round state after `n` one-second ticks from the initial lobby with
/// five seconds on the clock and difficulty index 0.
pub open spec fn round_after_seconds(n: nat) -> (RoundState, int, int)
    decreases n,
{
    if n == 0 {
        (RoundState::Lobby, 5int, 0int)
    } else {
        let prev = round_after_seconds((n - 1) as nat);
        round_step(prev.0, prev.1 as u32, prev.2 as usize, 1000)
    }
}

/// Law: starting at Lobby with 5 seconds remaining and difficulty 0, ticking
/// one second at a time visits exactly Lobby (5s), InRound (30s) and
/// Intermission (5s) in that order, and the 40th second lands back in the
/// Lobby with the difficulty advanced to 1.
pub proof fn lemma_round_cycle(n: nat)
    requires
        n <= 40,
    ensures
        n < 5 ==> round_after_seconds(n) == (RoundState::Lobby, 5 - n as int, 0int),
        5 <= n < 35 ==> round_after_seconds(n) == (RoundState::InRound, 35 - n as int, 0int),
        35 <= n < 40 ==> round_after_seconds(n) == (RoundState::Intermission, 40 - n as int, 0int),
        n == 40 ==> round_after_seconds(n) == (RoundState::Lobby, 5int, 1int),
    decreases n,
{
    if n > 0 {
        lemma_round_cycle((n - 1) as nat);
    }
}

/// What one countdown tick does to the world and which messages it appends:
/// the round triple follows `round_step`; without a transition nothing else
/// changes and nothing is sent; a Lobby or InRound expiry sends one Round
/// broadcast; an Intermission expiry regenerates the maze (at least the
/// spanning tree's open cells), reassigns every player (ids kept, pairwise
/// distinct whenever the fresh maze has room), and sends Map, Players and
/// Round in that order.
pub open spec fn rounds_rel(
    w0: WorldState,
    w1: WorldState,
    elapsed_ms: u64,
    msgs: Seq<Outbound>,
) -> bool {
    &&& w1.map_width == w0.map_width
    &&& w1.map_height == w0.map_height
    &&& (w1.round_state, w1.round_seconds as int, w1.difficulty_idx as int) == round_step(
        w0.round_state,
        w0.round_seconds,
        w0.difficulty_idx,
        elapsed_ms,
    )
    &&& w1.players@.len() == w0.players@.len()
    &&& forall|k: int|
        0 <= k < w1.players@.len() ==> (#[trigger] w1.players@[k]).id == w0.players@[k].id
    &&& (!transitions(w0.round_seconds, elapsed_ms) ==> w1.map_cells@ == w0.map_cells@
        && w1.spawn_x == w0.spawn_x && w1.spawn_y == w0.spawn_y && w1.players@ == w0.players@
        && msgs.len() == 0)
    &&& ((transitions(w0.round_seconds, elapsed_ms) && w0.round_state != RoundState::Intermission)
        ==> w1.map_cells@ == w0.map_cells@ && w1.players@ == w0.players@ && msgs.len() == 1
        && is_round_msg(msgs[0], w1))
    &&& ((transitions(w0.round_seconds, elapsed_ms) && w0.round_state == RoundState::Intermission)
        ==> msgs.len() == 3 && is_map_snapshot(msgs[0], None, w1) && is_players_snapshot(
        msgs[1],
        w1,
    ) && is_round_msg(msgs[2], w1) && count_open(w1.map_cells@) >= 2 * lat_w(w0.map_width as int)
        * lat_h(w0.map_height as int) - 1)
    &&& ((transitions(w0.round_seconds, elapsed_ms) && w0.round_state == RoundState::Intermission
        && w0.players@.len() <= 2 * lat_w(w0.map_width as int) * lat_h(w0.map_height as int) - 1)
        ==> distinct_positions(w1.players@))
}

/// Advances the round countdown by the elapsed time and performs at most one
/// transition, as `rounds_rel` prescribes. Every transition broadcasts a
/// Round message carrying the new state; the Intermission -> Lobby
/// transition first advances the difficulty cycle, regenerates and reshapes
/// the maze, reassigns every player a fresh spawn, and broadcasts the new
/// Map and Players before the Round message.
pub fn tick_rounds(world: &mut WorldState, elapsed_ms: u64, out: &mut Vec<Outbound>)
    requires
        old(world).wf(),
    ensures
        final(world).wf(),
        final(out)@.len() >= old(out)@.len(),
        final(out)@.subrange(0, old(out)@.len() as int) == old(out)@,
        rounds_rel(
            *old(world),
            *final(world),
            elapsed_ms,
            final(out)@.subrange(old(out)@.len() as int, final(out)@.len() as int),
        ),
{
    if elapsed_ms == 0 {
        return ;
    }
    let sub64: u64 = elapsed_ms / 1000 + if elapsed_ms % 1000 == 0 {
        0
    } else {
        1
    };
    if world.round_seconds > 0 {
        world.round_seconds = if sub64 >= world.round_seconds as u64 {
            0
        } else {
            world.round_seconds - sub64 as u32
        };
    }
    proof {
        assert(world.round_seconds as int == remaining_after(old(world).round_seconds, elapsed_ms));
    }
    if world.round_seconds == 0 {
        match world.round_state {
            RoundState::Lobby => {
                world.round_state = RoundState::InRound;
                world.round_seconds = 30;
                out.push(round_msg(world));
            },
            RoundState::InRound => {
                world.round_state = RoundState::Intermission;
                world.round_seconds = 5;
                out.push(round_msg(world));
            },
            RoundState::Intermission => {
                world.difficulty_idx = (world.difficulty_idx + 1) % 3;
                let d = difficulty_from_index(world.difficulty_idx);
                let mw = world.map_width;
                let mh = world.map_height;
                let ncells = world.map_cells.len();
                let ghost players_entry = world.players@;
                let mut cells = generate_maze(mw, mh);
                proof {
                    assert(lat_in(lat_w(mw as int), lat_h(mh as int), 0, 0));
                    assert(open_at(cells@, mw as int, 1, 1));
                    crate::maze::lemma_idx_bound(mw as int, mh as int, 1, 1);
                }
                apply_difficulty(&mut cells, mw, mh, d);
                proof {
                    assert(open_at(cells@, mw as int, 1, 1));
                }
                world.map_cells = cells;
                let (sx, sy) = find_spawn(&world.map_cells, mw, mh);
                world.spawn_x = sx;
                world.spawn_y = sy;
                allocate_unique_spawns_for_all(&mut world.players, &world.map_cells, mw, mh);
                proof {
                    // ids are untouched, so the ascending order is kept
                    assert forall|i: int, j: int|
                        0 <= i < j < world.players@.len() implies (
                    #[trigger] world.players@[i]).id < (#[trigger] world.players@[j]).id by {
                        assert(players_entry[i].id < players_entry[j].id);
                    }
                }
                out.push(map_msg_for(None, world));
                out.push(players_msg(world));
                world.round_state = RoundState::Lobby;
                world.round_seconds = 5;
                out.push(round_msg(world));
            },
        }
    }
}

} // verus!
