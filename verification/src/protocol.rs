use vstd::prelude::*;
use vstd::slice::SliceAdditionalExecFns;
use vstd::string::StringExecFns;
use crate::maze::open_at;
use crate::world::{
    Player, RoundState, WorldState, contains_id, lemma_contains_id_insert,
    lemma_contains_id_update, lemma_insert_keeps_ids, find_player_idx, insert_player_sorted,
};
use crate::spawn::{find_unused_spawn, open_unoccupied, is_first_unoccupied};
use crate::rounds::{tick_rounds, round_step, rounds_rel};

verus! {

/// What a client can send: a registration / resync request, or one grid-step
/// move. Unknown event names never reach the router; the transport layer
/// drops them, matching the rule that unrecognized input is silently ignored.
pub enum InboundEvent {
    Hello { name: String },
    Input { dx: i32, dy: i32 },
}

/// What the server sends back over the reliable ordered channel.
pub enum OutboundEvent {
    Welcome { message: String, client_id: u64 },
    MapData { width: usize, height: usize, cells: Vec<u8> },
    PlayerInit { id: u64, x: usize, y: usize },
    Players { players: Vec<Player> },
    Round { state: RoundState, difficulty_idx: usize, remaining: u32 },
}

/// An outbound message and its destination: one client, or everyone.
pub struct Outbound {
    pub to: Option<u64>,
    pub event: OutboundEvent,
}

/// The text of the welcome acknowledgment.
pub open spec fn welcome_text(name: Seq<char>) -> Seq<char> {
    "Welcome, "@ + name + "!"@
}

pub open spec fn is_welcome_to(o: Outbound, id: u64, name: Seq<char>) -> bool {
    &&& o.to == Some(id)
    &&& o.event matches OutboundEvent::Welcome { message, client_id } && message@ == welcome_text(
        name,
    ) && client_id == id
}

pub open spec fn is_map_snapshot(o: Outbound, to: Option<u64>, w: WorldState) -> bool {
    &&& o.to == to
    &&& o.event matches OutboundEvent::MapData { width, height, cells } && width == w.map_width
        && height == w.map_height && cells@ == w.map_cells@
}

pub open spec fn is_player_init(o: Outbound, id: u64, p: Player) -> bool {
    &&& o.to == Some(id)
    &&& o.event matches OutboundEvent::PlayerInit { id: pid, x, y } && pid == p.id && x == p.x && y
        == p.y
}

pub open spec fn is_players_snapshot(o: Outbound, w: WorldState) -> bool {
    &&& o.to == None::<u64>
    &&& o.event matches OutboundEvent::Players { players } && players@ == w.players@
}

pub open spec fn is_round_msg(o: Outbound, w: WorldState) -> bool {
    &&& o.to == None::<u64>
    &&& o.event matches OutboundEvent::Round { state, difficulty_idx, remaining } && state
        == w.round_state && difficulty_idx == w.difficulty_idx && remaining == w.round_seconds
}

fn clone_cells(v: &Vec<u8>) -> (r: Vec<u8>)
    ensures
        r@ == v@,
{
    let mut r: Vec<u8> = Vec::new();
    let mut i: usize = 0;
    while i < v.len()
        invariant
            i <= v@.len(),
            r@ =~= v@.take(i as int),
        decreases v@.len() - i,
    {
        r.push(v[i]);
        i = i + 1;
    }
    proof {
        assert(v@.take(v@.len() as int) =~= v@);
    }
    r
}

fn clone_players(v: &Vec<Player>) -> (r: Vec<Player>)
    ensures
        r@ == v@,
{
    let mut r: Vec<Player> = Vec::new();
    let mut i: usize = 0;
    while i < v.len()
        invariant
            i <= v@.len(),
            r@ =~= v@.take(i as int),
        decreases v@.len() - i,
    {
        r.push(v[i]);
        i = i + 1;
    }
    proof {
        assert(v@.take(v@.len() as int) =~= v@);
    }
    r
}

fn welcome_msg(id: u64, name: &String) -> (o: Outbound)
    ensures
        is_welcome_to(o, id, name@),
{
    let mut m = String::from_str("Welcome, ");
    m.append(name.as_str());
    m.append("!");
    Outbound { to: Some(id), event: OutboundEvent::Welcome { message: m, client_id: id } }
}

pub fn map_msg_for(to: Option<u64>, world: &WorldState) -> (o: Outbound)
    ensures
        is_map_snapshot(o, to, *world),
{
    Outbound {
        to,
        event: OutboundEvent::MapData {
            width: world.map_width,
            height: world.map_height,
            cells: clone_cells(&world.map_cells),
        },
    }
}

pub fn players_msg(world: &WorldState) -> (o: Outbound)
    ensures
        is_players_snapshot(o, *world),
{
    Outbound {
        to: None,
        event: OutboundEvent::Players { players: clone_players(&world.players) },
    }
}

pub fn round_msg(world: &WorldState) -> (o: Outbound)
    ensures
        is_round_msg(o, *world),
{
    Outbound {
        to: None,
        event: OutboundEvent::Round {
            state: world.round_state,
            difficulty_idx: world.difficulty_idx,
            remaining: world.round_seconds,
        },
    }
}

// ---------------------------------------------------------------------------
// Movement: a requested delta is applied only when the candidate cell is in
// bounds and open and the player exists; otherwise it is silently dropped.
// ---------------------------------------------------------------------------

pub open spec fn clamp0(a: int) -> int {
    if a < 0 {
        0
    } else {
        a
    }
}

pub open spec fn target_x(p: Player, dx: i32) -> int {
    clamp0(p.x as int + dx as int)
}

pub open spec fn target_y(p: Player, dy: i32) -> int {
    clamp0(p.y as int + dy as int)
}

pub open spec fn valid_move(w: WorldState, p: Player, dx: i32, dy: i32) -> bool {
    &&& target_x(p, dx) < w.map_width as int
    &&& target_y(p, dy) < w.map_height as int
    &&& open_at(w.map_cells@, w.map_width as int, target_x(p, dx), target_y(p, dy))
}

pub open spec fn moved_player(p: Player, dx: i32, dy: i32) -> Player {
    Player { id: p.id, x: target_x(p, dx) as usize, y: target_y(p, dy) as usize }
}

/// Everything route_event leaves untouched: the grid, the spawn and the round
/// fields.
pub open spec fn same_static_fields(a: WorldState, b: WorldState) -> bool {
    &&& a.map_width == b.map_width
    &&& a.map_height == b.map_height
    &&& a.map_cells@ == b.map_cells@
    &&& a.spawn_x == b.spawn_x
    &&& a.spawn_y == b.spawn_y
    &&& a.round_state == b.round_state
    &&& a.round_seconds == b.round_seconds
    &&& a.difficulty_idx == b.difficulty_idx
}

/// What one Hello does: registers the sender once - a new player spawns on
/// the first open unoccupied cell of the expanding-square scan, or on the
/// fixed fallback (1, 1) when no such cell exists; an already-known id
/// leaves the player set untouched, so a repeated Hello is a pure resync -
/// and always appends, in order: a Welcome to the sender, a Map snapshot to
/// the sender, the sender's PlayerInit, and a Players broadcast.
pub open spec fn hello_rel(
    w0: WorldState,
    w1: WorldState,
    id: u64,
    name: Seq<char>,
    msgs: Seq<Outbound>,
) -> bool {
    &&& same_static_fields(w0, w1)
    &&& contains_id(w1.players@, id)
    &&& (contains_id(w0.players@, id) ==> w1.players@ == w0.players@)
    &&& (!contains_id(w0.players@, id) ==> exists|j: int, p: Player|
        0 <= j <= w0.players@.len() && p.id == id && w1.players@ == #[trigger] w0.players@.insert(
            j,
            p,
        ) && p.x < w0.map_width && p.y < w0.map_height && open_at(
            w0.map_cells@,
            w0.map_width as int,
            p.x as int,
            p.y as int,
        ) && ((exists|qx: usize, qy: usize| open_unoccupied(w0, qx, qy)) ==> is_first_unoccupied(
            w0,
            p.x,
            p.y,
        )) && (!(exists|qx: usize, qy: usize| open_unoccupied(w0, qx, qy)) ==> p.x == 1 && p.y
            == 1))
    &&& msgs.len() == 4
    &&& is_welcome_to(msgs[0], id, name)
    &&& is_map_snapshot(msgs[1], Some(id), w1)
    &&& (exists|k: int|
        0 <= k < w1.players@.len() && (#[trigger] w1.players@[k]).id == id && is_player_init(
            msgs[2],
            id,
            w1.players@[k],
        ))
    &&& is_players_snapshot(msgs[3], w1)
}

/// What one Input does: moves the sender by the clamped delta only if the
/// sender is known and the candidate cell is in bounds and open, and then
/// appends one Players broadcast; otherwise it changes nothing and sends
/// nothing.
pub open spec fn input_rel(
    w0: WorldState,
    w1: WorldState,
    id: u64,
    dx: i32,
    dy: i32,
    msgs: Seq<Outbound>,
) -> bool {
    &&& same_static_fields(w0, w1)
    &&& (!contains_id(w0.players@, id) ==> w1.players@ == w0.players@ && msgs.len() == 0)
    &&& forall|k: int|
        0 <= k < w0.players@.len() && (#[trigger] w0.players@[k]).id == id ==> {
            &&& (valid_move(w0, w0.players@[k], dx, dy) ==> w1.players@ == w0.players@.update(
                k,
                moved_player(w0.players@[k], dx, dy),
            ) && msgs.len() == 1 && is_players_snapshot(msgs[0], w1))
            &&& (!valid_move(w0, w0.players@[k], dx, dy) ==> w1.players@ == w0.players@
                && msgs.len() == 0)
        }
}

/// What routing one inbound event does to the world and which messages it
/// appends, by event kind.
pub open spec fn route_rel(
    w0: WorldState,
    w1: WorldState,
    id: u64,
    ev: InboundEvent,
    msgs: Seq<Outbound>,
) -> bool {
    match ev {
        InboundEvent::Hello { name } => hello_rel(w0, w1, id, name@, msgs),
        InboundEvent::Input { dx, dy } => input_rel(w0, w1, id, dx, dy, msgs),
    }
}

/// A witness that the batch was routed in arrival order: the chain of
/// worlds the router passed through, and the cut points that split the
/// queue into one message block per event.
pub open spec fn batch_chain(
    ws: Seq<WorldState>,
    cuts: Seq<int>,
    w0: WorldState,
    w1: WorldState,
    events: Seq<(u64, InboundEvent)>,
    msgs: Seq<Outbound>,
) -> bool {
    &&& ws.len() == events.len() + 1
    &&& cuts.len() == events.len() + 1
    &&& ws[0] == w0
    &&& ws[events.len() as int] == w1
    &&& cuts[0] == 0
    &&& cuts[events.len() as int] == msgs.len()
    &&& forall|i: int| 0 <= i < events.len() ==> 0 <= #[trigger] cuts[i] <= cuts[i + 1] <= msgs.len()
    &&& forall|i: int|
        0 <= i < events.len() ==> route_rel(
            ws[i],
            ws[i + 1],
            (#[trigger] events[i]).0,
            events[i].1,
            msgs.subrange(cuts[i], cuts[i + 1]),
        )
}

/// What routing a whole batch in arrival order does: some world chain and
/// queue split turn each event into its `route_rel` step, the message
/// blocks concatenated in batch order.
pub open spec fn batch_rel(
    w0: WorldState,
    w1: WorldState,
    events: Seq<(u64, InboundEvent)>,
    msgs: Seq<Outbound>,
) -> bool {
    exists|ws: Seq<WorldState>, cuts: Seq<int>|
        #[trigger] batch_chain(ws, cuts, w0, w1, events, msgs)
}

/// Routes one inbound event, as the protocol prescribes: see `hello_rel` and
/// `input_rel` for the two cases.
pub fn route_event(world: &mut WorldState, client_id: u64, ev: InboundEvent, out: &mut Vec<Outbound>)
    requires
        old(world).wf(),
    ensures
        final(world).wf(),
        final(out)@.len() >= old(out)@.len(),
        final(out)@.subrange(0, old(out)@.len() as int) == old(out)@,
        route_rel(
            *old(world),
            *final(world),
            client_id,
            ev,
            final(out)@.subrange(old(out)@.len() as int, final(out)@.len() as int),
        ),
{
    match ev {
        InboundEvent::Hello { name } => {
            out.push(welcome_msg(client_id, &name));
            let ghost players_before = world.players@;
            match find_player_idx(&world.players, client_id) {
                Some(_) => {},
                None => {
                    let (sx, sy) = find_unused_spawn(world);
                    let newp = Player { id: client_id, x: sx, y: sy };
                    insert_player_sorted(&mut world.players, newp);
                    proof {
                        let j = choose|j: int|
                            0 <= j <= players_before.len() && world.players@
                                == #[trigger] players_before.insert(j, newp);
                        lemma_contains_id_insert(players_before, j, newp, client_id);
                        assert forall|k: int| 0 <= k < world.players@.len() implies (
                        #[trigger] world.players@[k]).x < world.map_width && world.players@[k].y
                            < world.map_height && open_at(
                            world.map_cells@,
                            world.map_width as int,
                            world.players@[k].x as int,
                            world.players@[k].y as int,
                        ) by {
                            if k < j {
                                assert(world.players@[k] == players_before[k]);
                            } else if k > j {
                                assert(world.players@[k] == players_before[k - 1]);
                            } else {
                                assert(world.players@[k] == newp);
                            }
                        }
                    }
                },
            }
            out.push(map_msg_for(Some(client_id), world));
            match find_player_idx(&world.players, client_id) {
                Some(i) => {
                    let p = world.players[i];
                    out.push(
                        Outbound {
                            to: Some(client_id),
                            event: OutboundEvent::PlayerInit { id: p.id, x: p.x, y: p.y },
                        },
                    );
                },
                None => {
                    proof {
                        assert(false);
                    }
                },
            }
            out.push(players_msg(world));
        },
        InboundEvent::Input { dx, dy } => {
            match find_player_idx(&world.players, client_id) {
                None => {},
                Some(k) => {
                    let p = world.players[k];
                    let ncells = world.map_cells.len();
                    proof {
                        // ids are strictly sorted, so k is the only index with
                        // this id
                        assert forall|k2: int|
                            0 <= k2 < world.players@.len() && (#[trigger] world.players@[k2]).id
                                == client_id implies k2 == k as int by {
                            if k2 < k as int {
                                assert(world.players@[k2].id < world.players@[k as int].id);
                            }
                            if k2 > k as int {
                                assert(world.players@[k as int].id < world.players@[k2].id);
                            }
                        }
                    }
                    let txi: i128 = p.x as i128 + dx as i128;
                    let tyi: i128 = p.y as i128 + dy as i128;
                    let tx: i128 = if txi < 0 {
                        0
                    } else {
                        txi
                    };
                    let ty: i128 = if tyi < 0 {
                        0
                    } else {
                        tyi
                    };
                    if tx < world.map_width as i128 && ty < world.map_height as i128 {
                        let txu = tx as usize;
                        let tyu = ty as usize;
                        proof {
                            crate::maze::lemma_idx_bound(
                                world.map_width as int,
                                world.map_height as int,
                                txu as int,
                                tyu as int,
                            );
                        }
                        if world.map_cells[tyu * world.map_width + txu] == 0 {
                            let ghost players_before = world.players@;
                            world.players.set(k, Player { id: p.id, x: txu, y: tyu });
                            out.push(players_msg(world));
                            proof {
                                assert(world.players@ == players_before.update(
                                    k as int,
                                    moved_player(p, dx, dy),
                                ));
                                assert forall|i: int, j: int|
                                    0 <= i < j < world.players@.len() implies (
                                #[trigger] world.players@[i]).id < (
                                #[trigger] world.players@[j]).id by {
                                    assert(players_before[i].id < players_before[j].id);
                                }
                            }
                        }
                    }
                },
            }
        },
    }
}

/// One simulation tick: routes the inbound batch in arrival order, then
/// advances the round countdown (at most one transition per tick), and
/// returns the queued outbound messages. The queue is exactly the events'
/// messages, in batch order, followed by the scheduler's: some split point k
/// and mid-tick world chain the batch relation into the scheduler relation.
/// Routing never touches the round fields, so the round state after the
/// tick is exactly `round_step` of the state before it; players are never
/// removed by a tick, and every Hello sender in the batch is registered.
pub fn tick(world: &mut WorldState, elapsed_ms: u64, inbound: Vec<(u64, InboundEvent)>) -> (out:
    Vec<Outbound>)
    requires
        old(world).wf(),
    ensures
        final(world).wf(),
        final(world).map_width == old(world).map_width,
        final(world).map_height == old(world).map_height,
        (
            final(world).round_state,
            final(world).round_seconds as int,
            final(world).difficulty_idx as int,
        ) == round_step(
            old(world).round_state,
            old(world).round_seconds,
            old(world).difficulty_idx,
            elapsed_ms,
        ),
        forall|id: u64|
            contains_id(old(world).players@, id) ==> contains_id(final(world).players@, id),
        forall|k: int|
            0 <= k < inbound@.len() && (#[trigger] inbound@[k]).1 is Hello ==> contains_id(
                final(world).players@,
                inbound@[k].0,
            ),
        exists|wm: WorldState, k: int|
            0 <= k <= out@.len() && #[trigger] batch_rel(*old(world), wm, inbound@, out@.take(k))
                && rounds_rel(wm, *final(world), elapsed_ms, out@.skip(k)),
{
    let ghost gin = inbound@;
    let mut out: Vec<Outbound> = Vec::new();
    let mut ib = inbound;
    let ghost mut j: int = 0;
    let ghost mut ws: Seq<WorldState> = seq![*old(world)];
    let ghost mut cuts: Seq<int> = seq![0];
    while ib.len() > 0
        invariant
            world.wf(),
            world.map_width == old(world).map_width,
            world.map_height == old(world).map_height,
            world.round_state == old(world).round_state,
            world.round_seconds == old(world).round_seconds,
            world.difficulty_idx == old(world).difficulty_idx,
            0 <= j <= gin.len(),
            ib@ == gin.skip(j),
            ws.len() == j + 1,
            cuts.len() == j + 1,
            ws[0] == *old(world),
            ws[j] == *world,
            cuts[0] == 0,
            cuts[j] == out@.len(),
            forall|i: int| 0 <= i < j ==> 0 <= #[trigger] cuts[i] <= cuts[i + 1] <= out@.len(),
            forall|i: int|
                0 <= i < j ==> route_rel(
                    ws[i],
                    ws[i + 1],
                    (#[trigger] gin[i]).0,
                    gin[i].1,
                    out@.subrange(cuts[i], cuts[i + 1]),
                ),
            forall|id: u64|
                contains_id(old(world).players@, id) ==> contains_id(world.players@, id),
            forall|k: int|
                0 <= k < j && (#[trigger] gin[k]).1 is Hello ==> contains_id(
                    world.players@,
                    gin[k].0,
                ),
        decreases ib@.len(),
    {
        let ghost prev_world = *world;
        let ghost prev_out = out@;
        let (cid, ev) = ib.remove(0);
        let ghost gev = ev;
        proof {
            assert(gin.skip(j)[0] == gin[j]);
            assert((cid, gev) == gin[j]);
            assert(ib@ =~= gin.skip(j + 1));
        }
        route_event(world, cid, ev, &mut out);
        proof {
            let m2 = out@.subrange(prev_out.len() as int, out@.len() as int);
            assert(route_rel(prev_world, *world, cid, gev, m2));
            // this step never drops an id, and a Hello registers its sender
            assert forall|id: u64|
                contains_id(prev_world.players@, id) implies contains_id(world.players@, id) by {
                match gev {
                    InboundEvent::Hello { .. } => {
                        if contains_id(prev_world.players@, cid) {
                            assert(world.players@ == prev_world.players@);
                        } else {
                            lemma_insert_keeps_ids(prev_world.players@, world.players@);
                        }
                    },
                    InboundEvent::Input { dx, dy } => {
                        if contains_id(prev_world.players@, cid) {
                            let k = choose|k: int|
                                0 <= k < prev_world.players@.len() && (
                                #[trigger] prev_world.players@[k]).id == cid;
                            if world.players@ != prev_world.players@ {
                                assert(world.players@ == prev_world.players@.update(
                                    k,
                                    moved_player(prev_world.players@[k], dx, dy),
                                ));
                                lemma_contains_id_update(
                                    prev_world.players@,
                                    k,
                                    moved_player(prev_world.players@[k], dx, dy),
                                    id,
                                );
                            }
                        }
                    },
                }
            }
            match gev {
                InboundEvent::Hello { .. } => {
                    assert(contains_id(world.players@, cid));
                },
                InboundEvent::Input { .. } => {},
            }
            // grow the routing chain: earlier message blocks are untouched
            // because the queue only ever grows at the end
            assert forall|i: int| 0 <= i < j implies route_rel(
                ws[i],
                ws[i + 1],
                (#[trigger] gin[i]).0,
                gin[i].1,
                out@.subrange(cuts[i], cuts[i + 1]),
            ) by {
                assert(out@.subrange(cuts[i], cuts[i + 1]) =~= prev_out.subrange(
                    cuts[i],
                    cuts[i + 1],
                ));
            }
            ws = ws.push(*world);
            cuts = cuts.push(out@.len() as int);
            j = j + 1;
        }
    }
    proof {
        assert(gin.take(j) =~= gin);
    }
    let ghost wmid = *world;
    let ghost out_mid = out@;
    tick_rounds(world, elapsed_ms, &mut out);
    proof {
        // the scheduler keeps every id, so all registrations survive
        assert forall|id: u64|
            contains_id(wmid.players@, id) implies contains_id(world.players@, id) by {
            let k = choose|k: int|
                0 <= k < wmid.players@.len() && (#[trigger] wmid.players@[k]).id == id;
            assert(world.players@[k].id == wmid.players@[k].id);
        }
        // the chain witnesses the routed batch; the scheduler's block follows
        assert(out@.take(out_mid.len() as int) =~= out_mid);
        assert forall|i: int| 0 <= i < j implies route_rel(
            ws[i],
            ws[i + 1],
            (#[trigger] gin[i]).0,
            gin[i].1,
            out_mid.subrange(cuts[i], cuts[i + 1]),
        ) by {
        }
        assert(batch_chain(ws, cuts, *old(world), wmid, gin, out@.take(out_mid.len() as int)));
        assert(batch_rel(*old(world), wmid, gin, out@.take(out_mid.len() as int)));
        assert(out@.skip(out_mid.len() as int) =~= out@.subrange(
            out_mid.len() as int,
            out@.len() as int,
        ));
        assert(rounds_rel(wmid, *world, elapsed_ms, out@.skip(out_mid.len() as int)));
    }
    out
}

} // verus!
