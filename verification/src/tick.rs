//! The tick loop's decisions: interpreting the frames a client sent,
//! deferring join requests, applying them in arrival order, and removing
//! dropped clients from the world.
//!
//! The network shell drives these per tick, strictly ordered: accept, then
//! per-client ingest, then physics, then the deferred joins, then the
//! broadcast, then cleanup.

use vstd::prelude::*;
use crate::codec::{spec_frame, MAX_PAYLOAD};
use crate::gamestate::{
    spec_join, spec_remove, spec_rename, state_mem, state_wf, GameState, GameStateV,
};
use crate::messages::{
    enc_server_msg, encode_game_state_message, parse_client_msg, spec_input_clamped,
    ClientInput, ClientMessage, ClientMsgV, ServerMessage, ServerMsgV,
};
use crate::names::{sanitize_name, spec_sanitize};
use crate::player::{name_ok, PlayerType};

verus! {

/// A join request taken off the wire, deferred to its own tick phase so
/// that ingest never mutates the team collection it may be iterating near.
pub struct JoinRequest {
    pub player_id: u64,
    pub team_id: u64,
    pub player_type: PlayerType,
    pub name: String,
}

/// The mathematical value of a join request.
pub ghost struct JoinRequestV {
    pub player_id: u64,
    pub team_id: u64,
    pub player_type: PlayerType,
    pub name: Seq<char>,
}

impl View for JoinRequest {
    type V = JoinRequestV;

    open spec fn view(&self) -> JoinRequestV {
        JoinRequestV {
            player_id: self.player_id,
            team_id: self.team_id,
            player_type: self.player_type,
            name: self.name@,
        }
    }
}

/// The values of a list of join requests.
pub open spec fn requests_view(s: Seq<JoinRequest>) -> Seq<JoinRequestV> {
    s.map_values(|r: JoinRequest| r@)
}

/// Interprets one complete frame from a client: an input replaces the
/// cached input (clamped to the physics limits), a join request is queued
/// with its name sanitized, a rename is applied at once (to an existing
/// player), and an unparseable frame reports failure so the caller removes
/// the client.
pub fn handle_client_frame(
    state: &mut GameState,
    pending: &mut Vec<JoinRequest>,
    input: &mut ClientInput,
    client_id: u64,
    frame: &Vec<u8>,
) -> (ok: bool)
    requires
        state_wf(old(state)@),
    ensures
        state_wf(final(state)@),
        match parse_client_msg(frame@) {
            None => !ok && final(state)@ == old(state)@ && final(pending)@ == old(pending)@
                && *final(input) == *old(input),
            Some(m) => ok && match m {
                ClientMsgV::Input(i) => *final(input) == spec_input_clamped(i) && final(state)@
                    == old(state)@ && final(pending)@ == old(pending)@,
                ClientMsgV::JoinTeam { team_id, player_type, name } => requests_view(
                    final(pending)@,
                ) == requests_view(old(pending)@).push(
                    JoinRequestV {
                        player_id: client_id,
                        team_id,
                        player_type,
                        name: spec_sanitize(name),
                    },
                ) && final(state)@ == old(state)@ && *final(input) == *old(input),
                ClientMsgV::SetName { name } => final(pending)@ == old(pending)@
                    && *final(input) == *old(input) && final(state)@ == (
                if state_mem(old(state)@, client_id) {
                    spec_rename(old(state)@, client_id, spec_sanitize(name))
                } else {
                    old(state)@
                }),
            },
        },
{
    match ClientMessage::decode(frame) {
        None => false,
        Some(msg) => match msg {
            ClientMessage::Input(i) => {
                *input = i.clamped();
                true
            },
            ClientMessage::JoinTeam { team_id, player_type, name } => {
                let clean = sanitize_name(name.as_str());
                let ghost prev = requests_view(pending@);
                let ghost wanted = JoinRequestV {
                    player_id: client_id,
                    team_id,
                    player_type,
                    name: spec_sanitize(name@),
                };
                pending.push(
                    JoinRequest { player_id: client_id, team_id, player_type, name: clean },
                );
                proof {
                    assert(requests_view(pending@) =~= prev.push(wanted));
                }
                true
            },
            ClientMessage::SetName { name } => {
                let clean = sanitize_name(name.as_str());
                let present = state.get_player_by_id(client_id).is_some();
                if present {
                    state.set_player_name(client_id, clean);
                }
                true
            },
        },
    }
}

/// The world after every queued join is applied, in arrival order.
pub open spec fn spec_apply_joins(g: GameStateV, rs: Seq<JoinRequestV>) -> GameStateV
    decreases rs.len(),
{
    if rs.len() == 0 {
        g
    } else {
        spec_apply_joins(
            spec_join(g, rs[0].player_id, rs[0].team_id, rs[0].name, rs[0].player_type),
            rs.drop_first(),
        )
    }
}

/// Applies every queued join, in arrival order.
pub fn apply_pending_joins(state: &mut GameState, pending: &Vec<JoinRequest>)
    requires
        state_wf(old(state)@),
        forall|j: int| 0 <= j < pending@.len() ==> name_ok((#[trigger] pending@[j])@.name),
    ensures
        final(state)@ == spec_apply_joins(old(state)@, requests_view(pending@)),
        state_wf(final(state)@),
{
    let ghost g0 = state@;
    let ghost rsv = requests_view(pending@);
    let n = pending.len();
    let mut i: usize = 0;
    proof {
        assert(rsv.skip(0) =~= rsv);
    }
    while i < n
        invariant
            i <= n,
            n == pending@.len(),
            rsv == requests_view(pending@),
            state_wf(state@),
            forall|j: int| 0 <= j < n ==> name_ok((#[trigger] pending@[j])@.name),
            spec_apply_joins(g0, rsv) == spec_apply_joins(state@, rsv.skip(i as int)),
        decreases n - i,
    {
        let ghost before = state@;
        let r = &pending[i];
        state.try_add_player_to_team(r.player_id, r.team_id, r.player_type, r.name.clone());
        proof {
            assert(rsv[i as int] == pending@[i as int]@);
            assert(rsv.skip(i as int)[0] == rsv[i as int]);
            assert(rsv.skip(i as int).drop_first() =~= rsv.skip(i + 1));
            assert(state@ == spec_join(
                before,
                rsv[i as int].player_id,
                rsv[i as int].team_id,
                rsv[i as int].name,
                rsv[i as int].player_type,
            ));
        }
        i += 1;
    }
    proof {
        assert(rsv.skip(n as int) =~= Seq::<JoinRequestV>::empty());
    }
}

/// The world after every listed identity is removed.
pub open spec fn spec_cleanup(g: GameStateV, ids: Seq<u64>) -> GameStateV
    decreases ids.len(),
{
    if ids.len() == 0 {
        g
    } else {
        spec_cleanup(spec_remove(g, ids[0]), ids.drop_first())
    }
}

/// A removal keeps an absent identity absent, whole-world.
proof fn lemma_remove_keeps_absent(g: GameStateV, id: u64, x: u64)
    requires
        state_wf(g),
        !state_mem(g, x),
    ensures
        !state_mem(spec_remove(g, id), x),
{
    crate::gamestate::lemma_remove_wf(g, id);
    let r = spec_remove(g, id);
    assert forall|i: int| 0 <= i < r.teams.len() implies !crate::player::team_mem(
        #[trigger] r.teams[i],
        x,
    ) by {
        assert(!crate::player::team_mem(g.teams[i], x));
        if x != id {
            assert(crate::player::team_mem(r.teams[i], x) == crate::player::team_mem(
                g.teams[i],
                x,
            ));
        } else {
            assert(!state_mem(r, id));
        }
    }
}

/// Cleanup removes every listed identity from every team, and the world
/// stays well-formed.
pub proof fn lemma_cleanup_removes(g: GameStateV, ids: Seq<u64>)
    requires
        state_wf(g),
    ensures
        state_wf(spec_cleanup(g, ids)),
        forall|k: int| 0 <= k < ids.len() ==> !state_mem(spec_cleanup(g, ids), ids[k]),
        forall|x: u64| !state_mem(g, x) ==> !#[trigger] state_mem(spec_cleanup(g, ids), x),
    decreases ids.len(),
{
    if ids.len() == 0 {
    } else {
        let g1 = spec_remove(g, ids[0]);
        crate::gamestate::lemma_remove_wf(g, ids[0]);
        lemma_cleanup_removes(g1, ids.drop_first());
        assert forall|x: u64| !state_mem(g, x) implies !#[trigger] state_mem(
            spec_cleanup(g, ids),
            x,
        ) by {
            lemma_remove_keeps_absent(g, ids[0], x);
        }
        assert forall|k: int| 0 <= k < ids.len() implies !state_mem(
            spec_cleanup(g, ids),
            ids[k],
        ) by {
            if k == 0 {
                assert(!state_mem(g1, ids[0]));
                assert(spec_cleanup(g, ids) == spec_cleanup(g1, ids.drop_first()));
            } else {
                assert(ids.drop_first()[k - 1] == ids[k]);
            }
        }
    }
}

/// Removes every client marked for removal this tick from the world; their
/// identities occupy no team afterwards.
pub fn cleanup_clients(state: &mut GameState, ids: &Vec<u64>)
    requires
        state_wf(old(state)@),
    ensures
        final(state)@ == spec_cleanup(old(state)@, ids@),
        state_wf(final(state)@),
        forall|k: int| 0 <= k < ids@.len() ==> !state_mem(final(state)@, ids@[k]),
{
    let ghost g0 = state@;
    let n = ids.len();
    let mut i: usize = 0;
    proof {
        assert(ids@.skip(0) =~= ids@);
    }
    while i < n
        invariant
            i <= n,
            n == ids@.len(),
            state_wf(state@),
            spec_cleanup(g0, ids@) == spec_cleanup(state@, ids@.skip(i as int)),
        decreases n - i,
    {
        let ghost before = state@;
        state.remove_player(ids[i]);
        proof {
            assert(ids@.skip(i as int)[0] == ids@[i as int]);
            assert(ids@.skip(i as int).drop_first() =~= ids@.skip(i + 1));
            assert(state@ == spec_remove(before, ids@[i as int]));
        }
        i += 1;
    }
    proof {
        assert(ids@.skip(n as int) =~= Seq::<u64>::empty());
        lemma_cleanup_removes(g0, ids@);
    }
}

/// The frame that carries this tick's world snapshot to one client; fails
/// exactly when the snapshot has outgrown the largest frame payload.
pub fn encode_state_frame(state: &GameState) -> (r: Option<Vec<u8>>)
    requires
        state_wf(state@),
    ensures
        ({
            let payload = enc_server_msg(ServerMsgV::GameState(state@));
            match r {
                Some(f) => payload.len() <= MAX_PAYLOAD && f@ == spec_frame(payload),
                None => payload.len() > MAX_PAYLOAD,
            }
        }),
{
    let payload = encode_game_state_message(state);
    crate::codec::encode(&payload)
}

/// The identity-assignment frame sent to a fresh connection before anything
/// else.
pub fn encode_assign_id_frame(id: u64) -> (r: Vec<u8>)
    ensures
        r@ == spec_frame(enc_server_msg(ServerMsgV::AssignId(id))),
{
    let msg = ServerMessage::AssignId(id);
    let payload = msg.encode();
    proof {
        assert(crate::wire::pow256(8) == 0x1_0000_0000_0000_0000) by {
            reveal_with_fuel(crate::wire::pow256, 9);
        }
        crate::wire::lemma_le_round_trip(id as nat, 8);
        assert(payload@.len() == 9);
    }
    match crate::codec::encode(&payload) {
        Some(f) => f,
        None => {
            proof {
                assert(false);
            }
            vstd::pervasive::unreached()
        },
    }
}

} // verus!
