use vstd::prelude::*;
use vstd::slice::SliceAdditionalExecFns;
use crate::maze::{
    grid_wf, open_at, lat_in, lat_w, lat_h, generate_maze, apply_difficulty, Difficulty,
    difficulty_index,
};
use crate::spawn::find_spawn;

verus! {

/// One connected client's avatar: its transport id and its grid cell.
#[derive(Clone, Copy, PartialEq, Eq, Structural, Debug)]
pub struct Player {
    pub id: u64,
    pub x: usize,
    pub y: usize,
}

/// The round state machine's phases.
#[derive(Clone, Copy, PartialEq, Eq, Structural, Debug)]
pub enum RoundState {
    Lobby,
    InRound,
    Intermission,
}

/// Player ids strictly ascend, so each id appears at most once.
pub open spec fn ids_sorted(players: Seq<Player>) -> bool {
    forall|i: int, j: int|
        0 <= i < j < players.len() ==> (#[trigger] players[i]).id < (#[trigger] players[j]).id
}

pub open spec fn contains_id(players: Seq<Player>, id: u64) -> bool {
    exists|k: int| 0 <= k < players.len() && (#[trigger] players[k]).id == id
}

/// The aggregate root: grid, players and round state.
pub struct WorldState {
    pub map_width: usize,
    pub map_height: usize,
    pub map_cells: Vec<u8>,
    pub spawn_x: usize,
    pub spawn_y: usize,
    pub players: Vec<Player>,
    pub round_state: RoundState,
    pub round_seconds: u32,
    pub difficulty_idx: usize,
}

impl WorldState {
    /// The world invariant: a well-formed odd grid, an open designated spawn,
    /// an open fixed fallback cell (1, 1) - the first room's center, which
    /// generation opens and shaping never closes - players keyed by strictly
    /// ascending ids, every player on an in-bounds open cell, and a
    /// difficulty index inside the three-step cycle.
    pub open spec fn wf(self) -> bool {
        &&& grid_wf(self.map_cells@, self.map_width as int, self.map_height as int)
        &&& self.spawn_x < self.map_width
        &&& self.spawn_y < self.map_height
        &&& open_at(self.map_cells@, self.map_width as int, self.spawn_x as int, self.spawn_y as int)
        &&& open_at(self.map_cells@, self.map_width as int, 1, 1)
        &&& ids_sorted(self.players@)
        &&& forall|k: int|
            0 <= k < self.players@.len() ==> (#[trigger] self.players@[k]).x < self.map_width
                && self.players@[k].y < self.map_height && open_at(
                self.map_cells@,
                self.map_width as int,
                self.players@[k].x as int,
                self.players@[k].y as int,
            )
        &&& self.difficulty_idx < 3
    }
}

pub fn find_player_idx(players: &Vec<Player>, id: u64) -> (r: Option<usize>)
    ensures
        match r {
            Some(i) => i < players@.len() && players@[i as int].id == id,
            None => !contains_id(players@, id),
        },
{
    let mut k: usize = 0;
    while k < players.len()
        invariant
            k <= players@.len(),
            forall|j: int| 0 <= j < k ==> (#[trigger] players@[j]).id != id,
        decreases players@.len() - k,
    {
        if players[k].id == id {
            return Some(k);
        }
        k = k + 1;
    }
    None
}

/// Inserting keeps every id that was there and adds the new one.
pub proof fn lemma_contains_id_insert(players: Seq<Player>, j: int, p: Player, id: u64)
    requires
        0 <= j <= players.len(),
    ensures
        contains_id(players.insert(j, p), id) == (contains_id(players, id) || p.id == id),
{
    let upd = players.insert(j, p);
    if contains_id(players, id) {
        let k = choose|k: int| 0 <= k < players.len() && (#[trigger] players[k]).id == id;
        if k < j {
            assert(upd[k] == players[k]);
        } else {
            assert(upd[k + 1] == players[k]);
        }
        assert(contains_id(upd, id));
    }
    if p.id == id {
        assert(upd[j] == p);
        assert(contains_id(upd, id));
    }
    if contains_id(upd, id) && p.id != id {
        let k = choose|k: int| 0 <= k < upd.len() && (#[trigger] upd[k]).id == id;
        if k < j {
            assert(players[k] == upd[k]);
        } else if k > j {
            assert(players[k - 1] == upd[k]);
        }
        assert(contains_id(players, id));
    }
}

/// Inserting one player anywhere keeps every id that was present.
pub proof fn lemma_insert_keeps_ids(before: Seq<Player>, after: Seq<Player>)
    requires
        exists|j: int, p: Player| 0 <= j <= before.len() && after == #[trigger] before.insert(j, p),
    ensures
        forall|id: u64| contains_id(before, id) ==> contains_id(after, id),
{
    let (j, p) = choose|j: int, p: Player|
        0 <= j <= before.len() && after == #[trigger] before.insert(j, p);
    assert forall|id: u64| contains_id(before, id) implies contains_id(after, id) by {
        lemma_contains_id_insert(before, j, p, id);
    }
}

/// Updating one entry without changing its id keeps the id set.
pub proof fn lemma_contains_id_update(players: Seq<Player>, k: int, p: Player, id: u64)
    requires
        0 <= k < players.len(),
        p.id == players[k].id,
    ensures
        contains_id(players.update(k, p), id) == contains_id(players, id),
{
    let upd = players.update(k, p);
    if contains_id(players, id) {
        let i = choose|i: int| 0 <= i < players.len() && (#[trigger] players[i]).id == id;
        assert(upd[i].id == id);
        assert(contains_id(upd, id));
    }
    if contains_id(upd, id) {
        let i = choose|i: int| 0 <= i < upd.len() && (#[trigger] upd[i]).id == id;
        assert(players[i].id == id);
        assert(contains_id(players, id));
    }
}

/// Inserts a new player, keeping ids strictly ascending.
pub fn insert_player_sorted(players: &mut Vec<Player>, p: Player)
    requires
        ids_sorted(old(players)@),
        !contains_id(old(players)@, p.id),
    ensures
        ids_sorted(final(players)@),
        final(players)@.len() == old(players)@.len() + 1,
        contains_id(final(players)@, p.id),
        exists|j: int|
            0 <= j <= old(players)@.len() && final(players)@ == #[trigger] old(players)@.insert(
                j,
                p,
            ),
{
    let ghost entry = players@;
    let mut k: usize = 0;
    while k < players.len() && players[k].id < p.id
        invariant
            ids_sorted(entry),
            players@ == entry,
            k <= entry.len(),
            forall|j: int| 0 <= j < k ==> (#[trigger] entry[j]).id < p.id,
        decreases entry.len() - k,
    {
        k = k + 1;
    }
    proof {
        // everything at or after k has a strictly larger id
        assert forall|j: int| k <= j < entry.len() implies (#[trigger] entry[j]).id > p.id by {
            if j > k as int {
                assert(entry[k as int].id < entry[j].id);
            }
            assert(entry[j].id != p.id);
        }
    }
    players.insert(k, p);
    proof {
        let upd = entry.insert(k as int, p);
        assert(players@ == upd);
        assert forall|i: int, j: int| 0 <= i < j < upd.len() implies (#[trigger] upd[i]).id < (
        #[trigger] upd[j]).id by {
            if i < k as int && j < k as int {
                assert(upd[i] == entry[i] && upd[j] == entry[j]);
            } else if i < k as int && j == k as int {
                assert(upd[i] == entry[i]);
            } else if i < k as int && j > k as int {
                assert(upd[i] == entry[i] && upd[j] == entry[j - 1]);
            } else if i == k as int {
                assert(upd[j] == entry[j - 1]);
            } else {
                assert(upd[i] == entry[i - 1] && upd[j] == entry[j - 1]);
            }
        }
        assert(upd[k as int] == p);
        assert(contains_id(players@, p.id));
    }
}

/// Removes the player with this id, if any; everything else is untouched.
pub fn remove_player(world: &mut WorldState, id: u64)
    requires
        old(world).wf(),
    ensures
        final(world).wf(),
        final(world).map_width == old(world).map_width,
        final(world).map_height == old(world).map_height,
        final(world).map_cells@ == old(world).map_cells@,
        final(world).spawn_x == old(world).spawn_x,
        final(world).spawn_y == old(world).spawn_y,
        final(world).round_state == old(world).round_state,
        final(world).round_seconds == old(world).round_seconds,
        final(world).difficulty_idx == old(world).difficulty_idx,
        !contains_id(old(world).players@, id) ==> final(world).players@ == old(world).players@,
        contains_id(old(world).players@, id) ==> exists|k: int|
            0 <= k < old(world).players@.len() && old(world).players@[k].id == id
                && final(world).players@ == #[trigger] old(world).players@.remove(k),
{
    let ghost entry = world.players@;
    match find_player_idx(&world.players, id) {
        None => {},
        Some(i) => {
            world.players.remove(i);
            proof {
                let upd = entry.remove(i as int);
                assert(world.players@ == upd);
                assert forall|a: int, b: int| 0 <= a < b < upd.len() implies (#[trigger] upd[a]).id
                    < (#[trigger] upd[b]).id by {
                    let a0 = if a < i as int {
                        a
                    } else {
                        a + 1
                    };
                    let b0 = if b < i as int {
                        b
                    } else {
                        b + 1
                    };
                    assert(upd[a] == entry[a0] && upd[b] == entry[b0]);
                }
                assert(contains_id(entry, id));
            }
        },
    }
}

/// Builds the world at startup: a fresh 41 x 31 maze shaped at the configured
/// difficulty, an open central spawn, no players, and a 5-second lobby. The
/// start grid keeps everything shaping preserves of a fresh perfect maze: at
/// least the spanning tree's 2*20*15 - 1 open cells, and every room center
/// open.
pub fn init_world(difficulty: Difficulty) -> (w: WorldState)
    ensures
        w.wf(),
        w.map_width == 41,
        w.map_height == 31,
        w.players@.len() == 0,
        w.round_state == RoundState::Lobby,
        w.round_seconds == 5,
        w.difficulty_idx == difficulty_index(difficulty),
        crate::maze::count_open(w.map_cells@) >= 2 * lat_w(41) * lat_h(31) - 1,
        forall|cx: int, cy: int|
            lat_in(lat_w(41), lat_h(31), cx, cy) ==> open_at(
                w.map_cells@,
                41,
                2 * cx + 1,
                2 * cy + 1,
            ),
{
    let mw: usize = 41;
    let mh: usize = 31;
    let mut cells = generate_maze(mw, mh);
    proof {
        assert(lat_in(lat_w(mw as int), lat_h(mh as int), 0, 0));
        assert(open_at(cells@, mw as int, (2 * 0 + 1) as int, (2 * 0 + 1) as int));
    }
    let ghost fresh_cells = cells@;
    apply_difficulty(&mut cells, mw, mh, difficulty);
    proof {
        assert(open_at(cells@, mw as int, 1, 1));
        crate::maze::lemma_count_open_monotone(fresh_cells, cells@);
        assert forall|cx: int, cy: int| lat_in(lat_w(41), lat_h(31), cx, cy) implies open_at(
            cells@,
            41,
            2 * cx + 1,
            2 * cy + 1,
        ) by {
            assert(open_at(fresh_cells, 41, 2 * cx + 1, 2 * cy + 1));
            crate::maze::lemma_idx_bound(41, 31, 2 * cx + 1, 2 * cy + 1);
        }
    }
    let (sx, sy) = find_spawn(&cells, mw, mh);
    proof {
        assert(1 < mw && 1 < mh && open_at(cells@, mw as int, 1 as int, 1 as int));
    }
    let idx = match difficulty {
        Difficulty::Easy => 0,
        Difficulty::Medium => 1,
        Difficulty::Hard => 2,
    };
    WorldState {
        map_width: mw,
        map_height: mh,
        map_cells: cells,
        spawn_x: sx,
        spawn_y: sy,
        players: Vec::new(),
        round_state: RoundState::Lobby,
        round_seconds: 5,
        difficulty_idx: idx,
    }
}

} // verus!
