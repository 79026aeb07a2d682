//! The authoritative world model: the fixed set of teams with their
//! occupants, and the join, leave, rename and lookup operations whose
//! invariants hold between every pair of ticks.

use vstd::prelude::*;
use vstd::utf8::{is_ascii_chars, is_ascii_chars_encode_utf8};
use crate::constants::{TEAM_BLUE_ID, TEAM_RED_ID};
use crate::constants::DT_LIMIT;
use crate::messages::{input_wf, ClientInput};
use crate::player::{
    agent_mem, dispatcher_is, lemma_team_add_after, lemma_team_remove_after, name_ok,
    player_in_team, player_wf, spec_new_player, spec_team_add, spec_team_remove, team_mem,
    team_wf, Player, PlayerType, PlayerV, Team, TeamV,
};

verus! {

/// The whole world model: every team, and whether the game has started.
pub struct GameState {
    pub teams: Vec<Team>,
    pub game_started: bool,
}

/// The mathematical value of the world model.
pub ghost struct GameStateV {
    pub teams: Seq<TeamV>,
    pub game_started: bool,
}

impl View for GameState {
    type V = GameStateV;

    open spec fn view(&self) -> GameStateV {
        GameStateV {
            teams: self.teams@.map_values(|t: Team| t@),
            game_started: self.game_started,
        }
    }
}

/// Whether the given identity occupies any team.
pub open spec fn state_mem(g: GameStateV, id: u64) -> bool {
    exists|i: int| 0 <= i < g.teams.len() && team_mem(#[trigger] g.teams[i], id)
}

/// Whether some team stores exactly this player value.
pub open spec fn player_in_state(g: GameStateV, p: PlayerV) -> bool {
    exists|i: int| 0 <= i < g.teams.len() && player_in_team(#[trigger] g.teams[i], p)
}

/// The world model's invariant: every team is well-formed, team identities
/// are distinct, and no player identity occupies two teams.
pub open spec fn state_wf(g: GameStateV) -> bool {
    &&& (forall|i: int| 0 <= i < g.teams.len() ==> team_wf(#[trigger] g.teams[i]))
    &&& (forall|i: int, j: int|
        0 <= i < j < g.teams.len() ==> (#[trigger] g.teams[i]).id != (#[trigger] g.teams[j]).id)
    &&& (forall|i: int, j: int, x: u64|
        0 <= i < j < g.teams.len() ==> !(#[trigger] team_mem(g.teams[i], x)
            && #[trigger] team_mem(g.teams[j], x)))
}

/// What a join does to one team: the identity leaves if present; then, if
/// this is the target team, the join is attempted.
pub open spec fn spec_join_step(
    t: TeamV,
    player_id: u64,
    team_id: u64,
    name: Seq<char>,
    player_type: PlayerType,
) -> TeamV {
    let t1 = if team_mem(t, player_id) {
        spec_team_remove(t, player_id)
    } else {
        t
    };
    if t.id == team_id {
        spec_team_add(t1, player_id, name, player_type)
    } else {
        t1
    }
}

/// The world after a join: every team goes through the join step.
pub open spec fn spec_join(
    g: GameStateV,
    player_id: u64,
    team_id: u64,
    name: Seq<char>,
    player_type: PlayerType,
) -> GameStateV {
    GameStateV {
        teams: g.teams.map_values(
            |t: TeamV| spec_join_step(t, player_id, team_id, name, player_type),
        ),
        ..g
    }
}

/// The world after a removal: the identity leaves every team.
pub open spec fn spec_remove(g: GameStateV, id: u64) -> GameStateV {
    GameStateV { teams: g.teams.map_values(|t: TeamV| spec_team_remove(t, id)), ..g }
}

/// The player with new display name, when the identity matches.
pub open spec fn renamed_player(p: PlayerV, id: u64, name: Seq<char>) -> PlayerV {
    if p.id == id {
        PlayerV { name, ..p }
    } else {
        p
    }
}

/// One team after a rename: every occupant with the identity carries the new
/// name; everything else is untouched.
pub open spec fn spec_rename_team(t: TeamV, id: u64, name: Seq<char>) -> TeamV {
    TeamV {
        dispatcher: match t.dispatcher {
            Some(p) => Some(renamed_player(p, id, name)),
            None => None,
        },
        agents: t.agents.map_values(|p: PlayerV| renamed_player(p, id, name)),
        ..t
    }
}

/// The world after a rename.
pub open spec fn spec_rename(g: GameStateV, id: u64, name: Seq<char>) -> GameStateV {
    GameStateV { teams: g.teams.map_values(|t: TeamV| spec_rename_team(t, id, name)), ..g }
}

/// The player replaced wholesale, when the identity matches.
pub open spec fn replaced_player(p: PlayerV, id: u64, q: PlayerV) -> PlayerV {
    if p.id == id {
        q
    } else {
        p
    }
}

/// One team with every occupant of the identity replaced by `q`.
pub open spec fn spec_replace_team(t: TeamV, id: u64, q: PlayerV) -> TeamV {
    TeamV {
        dispatcher: match t.dispatcher {
            Some(p) => Some(replaced_player(p, id, q)),
            None => None,
        },
        agents: t.agents.map_values(|p: PlayerV| replaced_player(p, id, q)),
        ..t
    }
}

/// The world with every occupant of the identity replaced by `q`.
pub open spec fn spec_replace(g: GameStateV, id: u64, q: PlayerV) -> GameStateV {
    GameStateV { teams: g.teams.map_values(|t: TeamV| spec_replace_team(t, id, q)), ..g }
}

/// The player after one physics step, when the identity matches.
pub open spec fn advanced_player(p: PlayerV, id: u64, dt: i64, input: ClientInput) -> PlayerV {
    if p.id == id {
        crate::player::spec_player_update(p, dt, input)
    } else {
        p
    }
}

/// One team after a physics step for the identity.
pub open spec fn spec_advance_team(t: TeamV, id: u64, dt: i64, input: ClientInput) -> TeamV {
    TeamV {
        dispatcher: match t.dispatcher {
            Some(p) => Some(advanced_player(p, id, dt, input)),
            None => None,
        },
        agents: t.agents.map_values(|p: PlayerV| advanced_player(p, id, dt, input)),
        ..t
    }
}

/// The world after a physics step for the identity.
pub open spec fn spec_advance(g: GameStateV, id: u64, dt: i64, input: ClientInput) -> GameStateV {
    GameStateV { teams: g.teams.map_values(|t: TeamV| spec_advance_team(t, id, dt, input)), ..g }
}

/// A rename keeps the invariant: identities, roles and positions are
/// untouched, and the new name fits the cap.
pub proof fn lemma_rename_wf(g: GameStateV, id: u64, name: Seq<char>)
    requires
        state_wf(g),
        name_ok(name),
    ensures
        state_wf(spec_rename(g, id, name)),
{
    let r = spec_rename(g, id, name);
    assert forall|i: int| 0 <= i < g.teams.len() implies team_wf(#[trigger] r.teams[i])
        && (forall|x: u64| #[trigger] team_mem(r.teams[i], x) == team_mem(g.teams[i], x)) by {
        let t = g.teams[i];
        let rt = r.teams[i];
        assert(rt.agents.len() == t.agents.len());
        assert(forall|k: int|
            0 <= k < t.agents.len() ==> #[trigger] rt.agents[k] == renamed_player(
                t.agents[k],
                id,
                name,
            ));
        assert forall|x: u64| #[trigger] team_mem(rt, x) == team_mem(t, x) by {
            assert(forall|k: int|
                0 <= k < t.agents.len() ==> (#[trigger] rt.agents[k]).id == t.agents[k].id);
            if agent_mem(t, x) {
                let k = choose|k: int| 0 <= k < t.agents.len() && t.agents[k].id == x;
                assert(rt.agents[k].id == x);
            }
            if agent_mem(rt, x) {
                let k = choose|k: int| 0 <= k < rt.agents.len() && rt.agents[k].id == x;
                assert(t.agents[k].id == x);
            }
        }
    }
}

/// A physics step keeps the invariant: identities and roles are untouched,
/// and the moved player stays well-formed.
pub proof fn lemma_advance_wf(g: GameStateV, id: u64, dt: i64, input: ClientInput)
    requires
        state_wf(g),
    ensures
        state_wf(spec_advance(g, id, dt, input)),
{
    let r = spec_advance(g, id, dt, input);
    assert forall|i: int| 0 <= i < g.teams.len() implies team_wf(#[trigger] r.teams[i])
        && (forall|x: u64| #[trigger] team_mem(r.teams[i], x) == team_mem(g.teams[i], x)) by {
        let t = g.teams[i];
        let rt = r.teams[i];
        assert(rt.agents.len() == t.agents.len());
        assert(forall|k: int|
            0 <= k < t.agents.len() ==> #[trigger] rt.agents[k] == advanced_player(
                t.agents[k],
                id,
                dt,
                input,
            ));
        assert forall|k: int|
            0 <= k < t.agents.len() implies (#[trigger] rt.agents[k]).id == t.agents[k].id
            && rt.agents[k].player_type == t.agents[k].player_type && player_wf(rt.agents[k]) by {
            crate::player::lemma_player_update_wf(t.agents[k], dt, input);
        }
        if t.dispatcher is Some {
            crate::player::lemma_player_update_wf(t.dispatcher->0, dt, input);
        }
        assert forall|x: u64| #[trigger] team_mem(rt, x) == team_mem(t, x) by {
            if agent_mem(t, x) {
                let k = choose|k: int| 0 <= k < t.agents.len() && t.agents[k].id == x;
                assert(rt.agents[k].id == x);
            }
            if agent_mem(rt, x) {
                let k = choose|k: int| 0 <= k < rt.agents.len() && rt.agents[k].id == x;
                assert(t.agents[k].id == x);
            }
        }
    }
}

/// The names of the two initial teams fit the name cap.
proof fn lemma_team_names_ok()
    ensures
        name_ok("RED"@),
        name_ok("BLUE"@),
{
    reveal_strlit("RED");
    reveal_strlit("BLUE");
    assert(is_ascii_chars("RED"@));
    assert(is_ascii_chars("BLUE"@));
    is_ascii_chars_encode_utf8("RED"@);
    is_ascii_chars_encode_utf8("BLUE"@);
}

/// The initial world: the red and the blue team, both empty, game not
/// started.
pub open spec fn spec_initial_state() -> GameStateV {
    GameStateV {
        teams: seq![
            TeamV {
                id: TEAM_RED_ID,
                name: "RED"@,
                color: (255, 0, 0),
                dispatcher: None,
                agents: Seq::empty(),
            },
            TeamV {
                id: TEAM_BLUE_ID,
                name: "BLUE"@,
                color: (0, 0, 255),
                dispatcher: None,
                agents: Seq::empty(),
            },
        ],
        game_started: false,
    }
}

/// A join keeps the invariant; afterwards, every other identity's membership
/// per team is untouched, and the joining identity occupies at most the
/// target team.
pub proof fn lemma_join_wf(
    g: GameStateV,
    player_id: u64,
    team_id: u64,
    name: Seq<char>,
    player_type: PlayerType,
)
    requires
        state_wf(g),
        name_ok(name),
    ensures
        state_wf(spec_join(g, player_id, team_id, name, player_type)),
        spec_join(g, player_id, team_id, name, player_type).teams.len() == g.teams.len(),
        forall|i: int|
            0 <= i < g.teams.len() ==> (#[trigger] spec_join(
                g,
                player_id,
                team_id,
                name,
                player_type,
            ).teams[i]).id == g.teams[i].id,
        forall|i: int, x: u64|
            0 <= i < g.teams.len() && x != player_id ==> #[trigger] team_mem(
                spec_join(g, player_id, team_id, name, player_type).teams[i],
                x,
            ) == team_mem(g.teams[i], x),
        forall|i: int|
            0 <= i < g.teams.len() && #[trigger] team_mem(
                spec_join(g, player_id, team_id, name, player_type).teams[i],
                player_id,
            ) ==> g.teams[i].id == team_id,
{
    let r = spec_join(g, player_id, team_id, name, player_type);
    assert forall|i: int| 0 <= i < g.teams.len() implies {
        &&& team_wf(#[trigger] r.teams[i])
        &&& r.teams[i].id == g.teams[i].id
        &&& (forall|x: u64|
            x != player_id ==> #[trigger] team_mem(r.teams[i], x) == team_mem(g.teams[i], x))
        &&& (team_mem(r.teams[i], player_id) ==> g.teams[i].id == team_id)
    } by {
        let t = g.teams[i];
        let t1 = if team_mem(t, player_id) {
            spec_team_remove(t, player_id)
        } else {
            t
        };
        if team_mem(t, player_id) {
            lemma_team_remove_after(t, player_id);
        }
        assert(team_wf(t1) && !team_mem(t1, player_id) && t1.id == t.id);
        if t.id == team_id {
            lemma_team_add_after(t1, player_id, name, player_type);
        }
    }
    assert(state_wf(r)) by {
        assert forall|i: int, j: int, x: u64|
            0 <= i < j < r.teams.len() implies !(#[trigger] team_mem(r.teams[i], x)
            && #[trigger] team_mem(r.teams[j], x)) by {
            if team_mem(r.teams[i], x) && team_mem(r.teams[j], x) {
                if x != player_id {
                    assert(team_mem(g.teams[i], x) && team_mem(g.teams[j], x));
                } else {
                    assert(g.teams[i].id == team_id && g.teams[j].id == team_id);
                }
            }
        }
    }
}

/// A removal keeps the invariant and leaves the identity in no team.
pub proof fn lemma_remove_wf(g: GameStateV, id: u64)
    requires
        state_wf(g),
    ensures
        state_wf(spec_remove(g, id)),
        !state_mem(spec_remove(g, id), id),
        spec_remove(g, id).teams.len() == g.teams.len(),
        forall|i: int, x: u64|
            0 <= i < g.teams.len() && x != id ==> #[trigger] team_mem(
                spec_remove(g, id).teams[i],
                x,
            ) == team_mem(g.teams[i], x),
{
    let r = spec_remove(g, id);
    assert forall|i: int| 0 <= i < g.teams.len() implies {
        &&& team_wf(#[trigger] r.teams[i])
        &&& !team_mem(r.teams[i], id)
        &&& r.teams[i].id == g.teams[i].id
        &&& (forall|x: u64| x != id ==> #[trigger] team_mem(r.teams[i], x) == team_mem(
            g.teams[i],
            x,
        ))
    } by {
        lemma_team_remove_after(g.teams[i], id);
    }
}

/// Dispatcher contention is first-writer-wins: once a player holds a team's
/// empty dispatcher slot, a later dispatcher join by anyone else is a silent
/// no-op and the first occupant stays.
pub proof fn lemma_dispatcher_contention(
    g: GameStateV,
    ti: int,
    a: u64,
    b: u64,
    team_id: u64,
    name_a: Seq<char>,
    name_b: Seq<char>,
)
    requires
        0 <= ti < g.teams.len(),
        g.teams[ti].id == team_id,
        g.teams[ti].dispatcher is None,
        a != b,
    ensures
        spec_join(g, a, team_id, name_a, PlayerType::Dispatcher).teams[ti].dispatcher == Some(
            spec_new_player(a, name_a, PlayerType::Dispatcher),
        ),
        spec_join(
            spec_join(g, a, team_id, name_a, PlayerType::Dispatcher),
            b,
            team_id,
            name_b,
            PlayerType::Dispatcher,
        ).teams[ti].dispatcher == Some(spec_new_player(a, name_a, PlayerType::Dispatcher)),
{
    let g1 = spec_join(g, a, team_id, name_a, PlayerType::Dispatcher);
    let t = g.teams[ti];
    let t1 = if team_mem(t, a) {
        spec_team_remove(t, a)
    } else {
        t
    };
    assert(t1.dispatcher is None);
    assert(g1.teams[ti].dispatcher == Some(spec_new_player(a, name_a, PlayerType::Dispatcher)));
    let g2 = spec_join(g1, b, team_id, name_b, PlayerType::Dispatcher);
    let u = g1.teams[ti];
    let u1 = if team_mem(u, b) {
        spec_team_remove(u, b)
    } else {
        u
    };
    assert(!dispatcher_is(u, b));
    assert(u1.dispatcher == u.dispatcher);
    assert(g2.teams[ti].dispatcher == u.dispatcher);
}

/// A join moves the player: after joining one team as an agent and then
/// another, the player is among the second team's agents and out of the
/// first team entirely.
pub proof fn lemma_rejoin_moves_player(
    g: GameStateV,
    a: u64,
    i1: int,
    i2: int,
    name: Seq<char>,
)
    requires
        state_wf(g),
        name_ok(name),
        0 <= i1 < g.teams.len(),
        0 <= i2 < g.teams.len(),
        i1 != i2,
    ensures
        agent_mem(
            spec_join(
                spec_join(g, a, g.teams[i1].id, name, PlayerType::Agent),
                a,
                g.teams[i2].id,
                name,
                PlayerType::Agent,
            ).teams[i2],
            a,
        ),
        !team_mem(
            spec_join(
                spec_join(g, a, g.teams[i1].id, name, PlayerType::Agent),
                a,
                g.teams[i2].id,
                name,
                PlayerType::Agent,
            ).teams[i1],
            a,
        ),
{
    let id1 = g.teams[i1].id;
    let id2 = g.teams[i2].id;
    assert(id1 != id2);
    let g1 = spec_join(g, a, id1, name, PlayerType::Agent);
    lemma_join_wf(g, a, id1, name, PlayerType::Agent);
    let g2 = spec_join(g1, a, id2, name, PlayerType::Agent);

    // the first team: the player leaves it during the second join, and is
    // not re-added because its identity is not the second target
    let u = g1.teams[i1];
    assert(team_wf(u));
    assert(u.id == id1);
    let u1 = if team_mem(u, a) {
        spec_team_remove(u, a)
    } else {
        u
    };
    if team_mem(u, a) {
        lemma_team_remove_after(u, a);
    }
    assert(!team_mem(u1, a));
    assert(g2.teams[i1] == u1);

    // the second team: an agent join always appends the player
    let w = g1.teams[i2];
    let w1 = if team_mem(w, a) {
        spec_team_remove(w, a)
    } else {
        w
    };
    assert(w.id == id2);
    let added = spec_team_add(w1, a, name, PlayerType::Agent);
    assert(g2.teams[i2] == added);
    assert(added.agents[added.agents.len() - 1].id == a);
    assert(agent_mem(added, a));
}

/// Two stored players with the same identity are the same player.
pub proof fn lemma_stored_unique(g: GameStateV, id: u64, a: PlayerV, b: PlayerV)
    requires
        state_wf(g),
        player_in_state(g, a),
        player_in_state(g, b),
        a.id == id,
        b.id == id,
    ensures
        a == b,
{
    let ia = choose|i: int| 0 <= i < g.teams.len() && player_in_team(#[trigger] g.teams[i], a);
    let ib = choose|i: int| 0 <= i < g.teams.len() && player_in_team(#[trigger] g.teams[i], b);
    assert(team_mem(g.teams[ia], id)) by {
        if g.teams[ia].agents.contains(a) {
            let k = choose|k: int|
                0 <= k < g.teams[ia].agents.len() && g.teams[ia].agents[k] == a;
            assert(agent_mem(g.teams[ia], id));
        }
    }
    assert(team_mem(g.teams[ib], id)) by {
        if g.teams[ib].agents.contains(b) {
            let k = choose|k: int|
                0 <= k < g.teams[ib].agents.len() && g.teams[ib].agents[k] == b;
            assert(agent_mem(g.teams[ib], id));
        }
    }
    assert(ia == ib);
    let t = g.teams[ia];
    if t.dispatcher == Some(a) && t.dispatcher == Some(b) {
    } else if t.agents.contains(a) && t.agents.contains(b) {
        let ka = choose|k: int| 0 <= k < t.agents.len() && t.agents[k] == a;
        let kb = choose|k: int| 0 <= k < t.agents.len() && t.agents[k] == b;
        assert(ka == kb);
    } else {
        // one is the dispatcher, the other an agent: the team invariant
        // forbids the dispatcher's identity among the agents
        if t.dispatcher == Some(a) {
            let kb = choose|k: int| 0 <= k < t.agents.len() && t.agents[k] == b;
            assert(agent_mem(t, id));
            assert(false);
        } else {
            let ka = choose|k: int| 0 <= k < t.agents.len() && t.agents[k] == a;
            assert(agent_mem(t, id));
            assert(false);
        }
    }
}

/// A mutable borrow of one team of the list.
fn team_at_mut(v: &mut Vec<Team>, i: usize) -> (t: &mut Team)
    requires
        i < old(v)@.len(),
    ensures
        *t == old(v)@[i as int],
        final(v)@ == old(v)@.update(i as int, *final(t)),
{
    &mut v[i]
}

/// A mutable borrow of one player of a list.
fn player_at_mut(v: &mut Vec<Player>, i: usize) -> (p: &mut Player)
    requires
        i < old(v)@.len(),
    ensures
        *p == old(v)@[i as int],
        final(v)@ == old(v)@.update(i as int, *final(p)),
{
    &mut v[i]
}

/// Gives every occupant of the team with the given identity the new name.
fn rename_in_team(t: &mut Team, id: u64, name: &String)
    ensures
        final(t)@ == spec_rename_team(old(t)@, id, name@),
{
    let ghost t0 = t@;
    match &mut t.dispatcher {
        Some(d) => {
            if d.id == id {
                d.name = name.clone();
            }
        },
        None => {},
    }
    proof {
        assert(t@.dispatcher == spec_rename_team(t0, id, name@).dispatcher);
        assert(t@.agents == t0.agents);
    }
    let ghost mid = t@;
    let ghost a0v = t@.agents;
    let n = t.agents.len();
    let mut k: usize = 0;
    while k < n
        invariant
            n == t.agents@.len(),
            k <= n,
            a0v.len() == n,
            t@.id == mid.id,
            t@.name == mid.name,
            t@.color == mid.color,
            t@.dispatcher == mid.dispatcher,
            forall|j: int|
                0 <= j < k ==> #[trigger] t.agents@[j]@ == renamed_player(a0v[j], id, name@),
            forall|j: int| k <= j < n ==> #[trigger] t.agents@[j]@ == a0v[j],
        decreases n - k,
    {
        let ghost prev_agents = t.agents@;
        let matches_id = t.agents[k].id == id;
        if matches_id {
            let p = player_at_mut(&mut t.agents, k);
            p.name = name.clone();
        }
        proof {
            assert(prev_agents[k as int]@ == a0v[k as int]);
            assert(t.agents@[k as int]@ == renamed_player(a0v[k as int], id, name@));
            assert(forall|j: int|
                0 <= j < n && j != k ==> #[trigger] t.agents@[j] == prev_agents[j]);
        }
        k += 1;
    }
    proof {
        assert(t@.agents =~~= spec_rename_team(t0, id, name@).agents);
        assert(t@.dispatcher == spec_rename_team(t0, id, name@).dispatcher);
    }
}

/// Applies one physics step to every occupant of the team with the identity.
fn advance_in_team(t: &mut Team, id: u64, delta_time: i64, input: &ClientInput)
    requires
        team_wf(old(t)@),
        input_wf(*input),
        0 <= delta_time <= DT_LIMIT,
    ensures
        final(t)@ == spec_advance_team(old(t)@, id, delta_time, *input),
{
    let ghost t0 = t@;
    match &mut t.dispatcher {
        Some(d) => {
            if d.id == id {
                d.update(delta_time, input);
            }
        },
        None => {},
    }
    proof {
        assert(t@.dispatcher == spec_advance_team(t0, id, delta_time, *input).dispatcher);
        assert(t@.agents == t0.agents);
    }
    let ghost mid = t@;
    let ghost a0v = t@.agents;
    let n = t.agents.len();
    let mut k: usize = 0;
    while k < n
        invariant
            n == t.agents@.len(),
            k <= n,
            a0v.len() == n,
            input_wf(*input),
            0 <= delta_time <= DT_LIMIT,
            t@.id == mid.id,
            t@.name == mid.name,
            t@.color == mid.color,
            t@.dispatcher == mid.dispatcher,
            forall|j: int| 0 <= j < n ==> player_wf(#[trigger] a0v[j]),
            forall|j: int|
                0 <= j < k ==> #[trigger] t.agents@[j]@ == advanced_player(
                    a0v[j],
                    id,
                    delta_time,
                    *input,
                ),
            forall|j: int| k <= j < n ==> #[trigger] t.agents@[j]@ == a0v[j],
        decreases n - k,
    {
        let ghost prev_agents = t.agents@;
        let matches_id = t.agents[k].id == id;
        if matches_id {
            let p = player_at_mut(&mut t.agents, k);
            p.update(delta_time, input);
        }
        proof {
            assert(prev_agents[k as int]@ == a0v[k as int]);
            assert(t.agents@[k as int]@ == advanced_player(a0v[k as int], id, delta_time, *input));
            assert(forall|j: int|
                0 <= j < n && j != k ==> #[trigger] t.agents@[j] == prev_agents[j]);
        }
        k += 1;
    }
    proof {
        assert(t@.agents =~~= spec_advance_team(t0, id, delta_time, *input).agents);
        assert(t@.dispatcher == spec_advance_team(t0, id, delta_time, *input).dispatcher);
    }
}

impl GameState {
    /// The initial world: the red and the blue team, both empty.
    pub fn new() -> (r: GameState)
        ensures
            r@ == spec_initial_state(),
            state_wf(r@),
    {
        let mut teams: Vec<Team> = Vec::new();
        teams.push(Team::new(TEAM_RED_ID, "RED".to_owned(), (255, 0, 0)));
        teams.push(Team::new(TEAM_BLUE_ID, "BLUE".to_owned(), (0, 0, 255)));
        let r = GameState { teams, game_started: false };
        proof {
            assert(r@.teams =~~= spec_initial_state().teams);
            lemma_team_names_ok();
            assert(forall|i: int| 0 <= i < r@.teams.len() ==> team_wf(#[trigger] r@.teams[i]));
            assert(state_wf(r@)) by {
                assert forall|i: int, j: int, x: u64|
                    0 <= i < j < r@.teams.len() implies !(#[trigger] team_mem(r@.teams[i], x)
                    && #[trigger] team_mem(r@.teams[j], x)) by {
                    assert(!team_mem(r@.teams[i], x));
                }
            }
        }
        r
    }

    /// Advances world-level state by one tick; the world carries no
    /// per-tick state of its own, so nothing changes.
    pub fn update(&mut self, _delta_time: i64)
        ensures
            final(self)@ == old(self)@,
    {
    }

    /// Looks up the player occupying any team under the given identity.
    pub fn get_player_by_id(&self, id: u64) -> (r: Option<&Player>)
        requires
            state_wf(self@),
        ensures
            match r {
                Some(p) => p@.id == id && player_in_state(self@, p@) && state_mem(self@, id),
                None => !state_mem(self@, id),
            },
    {
        let n = self.teams.len();
        let mut i: usize = 0;
        while i < n
            invariant
                n == self.teams@.len(),
                i <= n,
                state_wf(self@),
                forall|j: int| 0 <= j < i ==> !team_mem(#[trigger] self@.teams[j], id),
            decreases n - i,
        {
            match &self.teams[i].dispatcher {
                Some(d) => {
                    if d.id == id {
                        proof {
                            assert(dispatcher_is(self@.teams[i as int], id));
                            assert(player_in_team(self@.teams[i as int], d@));
                        }
                        return Some(d);
                    }
                },
                None => {},
            }
            let m = self.teams[i].agents.len();
            let mut k: usize = 0;
            while k < m
                invariant
                    n == self.teams@.len(),
                    i < n,
                    m == self.teams@[i as int].agents@.len(),
                    k <= m,
                    forall|l: int|
                        0 <= l < k ==> (#[trigger] self@.teams[i as int].agents[l]).id != id,
                decreases m - k,
            {
                if self.teams[i].agents[k].id == id {
                    proof {
                        assert(self@.teams[i as int].agents[k as int].id == id);
                        assert(player_in_team(
                            self@.teams[i as int],
                            self@.teams[i as int].agents[k as int],
                        )) by {
                            assert(self@.teams[i as int].agents.contains(
                                self@.teams[i as int].agents[k as int],
                            ));
                        }
                    }
                    return Some(&self.teams[i].agents[k]);
                }
                k += 1;
            }
            proof {
                assert(!dispatcher_is(self@.teams[i as int], id));
                assert(!agent_mem(self@.teams[i as int], id));
            }
            i += 1;
        }
        proof {
            assert(!state_mem(self@, id));
        }
        None
    }

    /// Applies the join operation: the identity leaves whatever team it
    /// occupies, then joins the target team in the requested role, where
    /// dispatcher contention is a silent no-op.
    pub fn try_add_player_to_team(
        &mut self,
        player_id: u64,
        team_id: u64,
        player_type: PlayerType,
        name: String,
    )
        requires
            state_wf(old(self)@),
            name_ok(name@),
        ensures
            final(self)@ == spec_join(old(self)@, player_id, team_id, name@, player_type),
            state_wf(final(self)@),
    {
        let ghost g0 = self@;
        let n = self.teams.len();
        let mut i: usize = 0;
        while i < n
            invariant
                n == self.teams@.len(),
                i <= n,
                g0.teams.len() == n,
                self@.game_started == g0.game_started,
                forall|j: int|
                    0 <= j < i ==> #[trigger] self@.teams[j] == spec_join_step(
                        g0.teams[j],
                        player_id,
                        team_id,
                        name@,
                        player_type,
                    ),
                forall|j: int| i <= j < n ==> #[trigger] self@.teams[j] == g0.teams[j],
            decreases n - i,
        {
            let ghost prev = self.teams@;
            let ghost prev_view = self@.teams;
            let t = team_at_mut(&mut self.teams, i);
            let has = t.has_player(player_id);
            if has {
                t.remove_player(player_id);
                if t.id == team_id {
                    t.try_add_player(player_id, name.clone(), player_type);
                }
            } else {
                if t.id == team_id {
                    t.try_add_player(player_id, name.clone(), player_type);
                }
            }
            proof {
                assert(forall|j: int| 0 <= j < n ==> #[trigger] prev_view[j] == prev[j]@);
                assert(forall|j: int|
                    0 <= j < n ==> #[trigger] self@.teams[j] == self.teams@[j]@);
                assert(self.teams@[i as int]@ == spec_join_step(
                    prev[i as int]@,
                    player_id,
                    team_id,
                    name@,
                    player_type,
                ));
                assert(forall|j: int| 0 <= j < n && j != i ==> self.teams@[j] == prev[j]);
                assert(forall|j: int|
                    0 <= j < n && j != i ==> #[trigger] self@.teams[j] == prev_view[j]);
                assert(self@.teams[i as int] == spec_join_step(
                    prev_view[i as int],
                    player_id,
                    team_id,
                    name@,
                    player_type,
                ));
            }
            i += 1;
        }
        proof {
            assert(self@.teams =~~= spec_join(g0, player_id, team_id, name@, player_type).teams);
            lemma_join_wf(g0, player_id, team_id, name@, player_type);
        }
    }

    /// Gives the stored player the new display name. The caller sanitizes the
    /// name first: it is never empty and fits the byte cap.
    pub fn set_player_name(&mut self, player_id: u64, name: String)
        requires
            state_wf(old(self)@),
            state_mem(old(self)@, player_id),
            name_ok(name@),
            name@.len() > 0,
        ensures
            final(self)@ == spec_rename(old(self)@, player_id, name@),
            state_wf(final(self)@),
    {
        let ghost g0 = self@;
        let n = self.teams.len();
        let mut i: usize = 0;
        while i < n
            invariant
                n == self.teams@.len(),
                i <= n,
                g0.teams.len() == n,
                self@.game_started == g0.game_started,
                forall|j: int|
                    0 <= j < i ==> #[trigger] self@.teams[j] == spec_rename_team(
                        g0.teams[j],
                        player_id,
                        name@,
                    ),
                forall|j: int| i <= j < n ==> #[trigger] self@.teams[j] == g0.teams[j],
            decreases n - i,
        {
            let ghost prev = self.teams@;
            let ghost prev_view = self@.teams;
            let t = team_at_mut(&mut self.teams, i);
            rename_in_team(t, player_id, &name);
            proof {
                assert(forall|j: int| 0 <= j < n ==> #[trigger] prev_view[j] == prev[j]@);
                assert(forall|j: int|
                    0 <= j < n ==> #[trigger] self@.teams[j] == self.teams@[j]@);
                assert(forall|j: int| 0 <= j < n && j != i ==> self.teams@[j] == prev[j]);
                assert(forall|j: int|
                    0 <= j < n && j != i ==> #[trigger] self@.teams[j] == prev_view[j]);
                assert(self@.teams[i as int] == spec_rename_team(
                    prev_view[i as int],
                    player_id,
                    name@,
                ));
            }
            i += 1;
        }
        proof {
            assert(self@.teams =~~= spec_rename(g0, player_id, name@).teams);
            lemma_rename_wf(g0, player_id, name@);
        }
    }

    /// Applies one tick of physics to the stored player from its cached
    /// input; a no-op where the identity occupies no team.
    pub fn advance_player(&mut self, player_id: u64, delta_time: i64, input: &ClientInput)
        requires
            state_wf(old(self)@),
            input_wf(*input),
            0 <= delta_time <= DT_LIMIT,
        ensures
            final(self)@ == spec_advance(old(self)@, player_id, delta_time, *input),
            state_wf(final(self)@),
    {
        let ghost g0 = self@;
        let n = self.teams.len();
        let mut i: usize = 0;
        while i < n
            invariant
                n == self.teams@.len(),
                i <= n,
                g0.teams.len() == n,
                input_wf(*input),
                0 <= delta_time <= DT_LIMIT,
                self@.game_started == g0.game_started,
                forall|j: int| 0 <= j < n ==> team_wf(#[trigger] g0.teams[j]),
                forall|j: int|
                    0 <= j < i ==> #[trigger] self@.teams[j] == spec_advance_team(
                        g0.teams[j],
                        player_id,
                        delta_time,
                        *input,
                    ),
                forall|j: int| i <= j < n ==> #[trigger] self@.teams[j] == g0.teams[j],
            decreases n - i,
        {
            let ghost prev = self.teams@;
            let ghost prev_view = self@.teams;
            let t = team_at_mut(&mut self.teams, i);
            advance_in_team(t, player_id, delta_time, input);
            proof {
                assert(forall|j: int| 0 <= j < n ==> #[trigger] prev_view[j] == prev[j]@);
                assert(forall|j: int|
                    0 <= j < n ==> #[trigger] self@.teams[j] == self.teams@[j]@);
                assert(forall|j: int| 0 <= j < n && j != i ==> self.teams@[j] == prev[j]);
                assert(forall|j: int|
                    0 <= j < n && j != i ==> #[trigger] self@.teams[j] == prev_view[j]);
                assert(self@.teams[i as int] == spec_advance_team(
                    prev_view[i as int],
                    player_id,
                    delta_time,
                    *input,
                ));
            }
            i += 1;
        }
        proof {
            assert(self@.teams =~~= spec_advance(g0, player_id, delta_time, *input).teams);
            lemma_advance_wf(g0, player_id, delta_time, *input);
        }
    }

    /// Finds where the identity is stored: the team index, and the agent
    /// index within it, or none for the dispatcher slot.
    fn locate_player(&self, id: u64) -> (r: Option<(usize, Option<usize>)>)
        ensures
            match r {
                Some(loc) => {
                    &&& (loc.0 as int) < self@.teams.len()
                    &&& match loc.1 {
                        Some(k) => {
                            &&& (k as int) < self@.teams[loc.0 as int].agents.len()
                            &&& self@.teams[loc.0 as int].agents[k as int].id == id
                            &&& !dispatcher_is(self@.teams[loc.0 as int], id)
                        },
                        None => dispatcher_is(self@.teams[loc.0 as int], id),
                    }
                },
                None => !state_mem(self@, id),
            },
    {
        let n = self.teams.len();
        let mut i: usize = 0;
        while i < n
            invariant
                n == self.teams@.len(),
                i <= n,
                forall|j: int| 0 <= j < i ==> !team_mem(#[trigger] self@.teams[j], id),
            decreases n - i,
        {
            match &self.teams[i].dispatcher {
                Some(d) => {
                    if d.id == id {
                        proof {
                            assert(dispatcher_is(self@.teams[i as int], id));
                        }
                        return Some((i, None));
                    }
                },
                None => {},
            }
            let m = self.teams[i].agents.len();
            let mut k: usize = 0;
            while k < m
                invariant
                    n == self.teams@.len(),
                    i < n,
                    m == self.teams@[i as int].agents@.len(),
                    !dispatcher_is(self@.teams[i as int], id),
                    k <= m,
                    forall|l: int|
                        0 <= l < k ==> (#[trigger] self@.teams[i as int].agents[l]).id != id,
                decreases m - k,
            {
                if self.teams[i].agents[k].id == id {
                    return Some((i, Some(k)));
                }
                k += 1;
            }
            proof {
                assert(!agent_mem(self@.teams[i as int], id));
            }
            i += 1;
        }
        proof {
            assert(!state_mem(self@, id));
        }
        None
    }

    /// A mutable borrow of the player stored under the identity, together
    /// with (ghost) where it sits: the team index, and the agent index or
    /// none for the dispatcher slot. When the borrow expires the world holds
    /// whatever the caller made of the player, at that one spot, and nothing
    /// else has changed; `lemma_replace_located` turns this into the
    /// whole-world `spec_replace` equation.
    pub fn get_mut_player_by_id(&mut self, id: u64) -> (r: (&mut Player, Ghost<(
        int,
        Option<int>,
    )>))
        requires
            state_wf(old(self)@),
            state_mem(old(self)@, id),
        ensures
            (*r.0)@.id == id,
            player_in_state(old(self)@, (*r.0)@),
            0 <= r.1@.0 < old(self)@.teams.len(),
            final(self)@.teams.len() == old(self)@.teams.len(),
            final(self)@.game_started == old(self)@.game_started,
            forall|j: int|
                0 <= j < old(self)@.teams.len() && j != r.1@.0 ==> #[trigger] final(self)@.teams[j] == old(self)@.teams[j],
            match r.1@.1 {
                None => old(self)@.teams[r.1@.0].dispatcher == Some((*r.0)@) && final(self)@.teams[r.1@.0] == (TeamV {
                    dispatcher: Some((*final(r.0))@),
                    ..old(self)@.teams[r.1@.0]
                }),
                Some(k) => {
                    &&& 0 <= k < old(self)@.teams[r.1@.0].agents.len()
                    &&& old(self)@.teams[r.1@.0].agents[k] == (*r.0)@
                    &&& final(self)@.teams[r.1@.0].dispatcher == old(self)@.teams[r.1@.0].dispatcher
                    &&& final(self)@.teams[r.1@.0].id == old(self)@.teams[r.1@.0].id
                    &&& final(self)@.teams[r.1@.0].name == old(self)@.teams[r.1@.0].name
                    &&& final(self)@.teams[r.1@.0].color == old(self)@.teams[r.1@.0].color
                    &&& final(self)@.teams[r.1@.0].agents.len() == old(self)@.teams[r.1@.0].agents.len()
                    &&& final(self)@.teams[r.1@.0].agents[k] == (*final(r.0))@
                    &&& forall|l: int|
                        0 <= l < old(self)@.teams[r.1@.0].agents.len() && l != k
                            ==> #[trigger] final(self)@.teams[r.1@.0].agents[l] == old(self)@.teams[r.1@.0].agents[l]
                },
            },
    {
        let ghost g0 = self@;
        let loc = self.locate_player(id);
        match loc {
            Some((ti, slot)) => {
                let t = team_at_mut(&mut self.teams, ti);
                match slot {
                    Some(k) => {
                        proof {
                            assert(player_in_team(
                                g0.teams[ti as int],
                                g0.teams[ti as int].agents[k as int],
                            )) by {
                                assert(g0.teams[ti as int].agents.contains(
                                    g0.teams[ti as int].agents[k as int],
                                ));
                            }
                        }
                        let p = player_at_mut(&mut t.agents, k);
                        (p, Ghost((ti as int, Some(k as int))))
                    },
                    None => {
                        match &mut t.dispatcher {
                            Some(d) => (d, Ghost((ti as int, None))),
                            None => {
                                proof {
                                    assert(false);
                                }
                                vstd::pervasive::unreached()
                            },
                        }
                    },
                }
            },
            None => {
                proof {
                    assert(false);
                }
                vstd::pervasive::unreached()
            },
        }
    }

    /// Turns the located-spot description that `get_mut_player_by_id` gives
    /// into the whole-world replacement equation.
    pub proof fn lemma_replace_located(
        g0: GameStateV,
        g1: GameStateV,
        id: u64,
        ti: int,
        slot: Option<int>,
        q: PlayerV,
    )
        requires
            state_wf(g0),
            0 <= ti < g0.teams.len(),
            g1.teams.len() == g0.teams.len(),
            g1.game_started == g0.game_started,
            forall|j: int|
                0 <= j < g0.teams.len() && j != ti ==> #[trigger] g1.teams[j] == g0.teams[j],
            match slot {
                None => dispatcher_is(g0.teams[ti], id) && g1.teams[ti] == (TeamV {
                    dispatcher: Some(q),
                    ..g0.teams[ti]
                }),
                Some(k) => {
                    &&& 0 <= k < g0.teams[ti].agents.len()
                    &&& g0.teams[ti].agents[k].id == id
                    &&& g1.teams[ti].dispatcher == g0.teams[ti].dispatcher
                    &&& g1.teams[ti].id == g0.teams[ti].id
                    &&& g1.teams[ti].name == g0.teams[ti].name
                    &&& g1.teams[ti].color == g0.teams[ti].color
                    &&& g1.teams[ti].agents.len() == g0.teams[ti].agents.len()
                    &&& g1.teams[ti].agents[k] == q
                    &&& forall|l: int|
                        0 <= l < g0.teams[ti].agents.len() && l != k ==> #[trigger] g1.teams[
                            ti
                        ].agents[l] == g0.teams[ti].agents[l]
                },
            },
        ensures
            g1 == spec_replace(g0, id, q),
    {
        let r = spec_replace(g0, id, q);
        assert(team_mem(g0.teams[ti], id)) by {
            match slot {
                None => {},
                Some(k) => {
                    assert(agent_mem(g0.teams[ti], id));
                },
            }
        }
        assert forall|j: int| 0 <= j < g0.teams.len() implies #[trigger] g1.teams[j]
            == r.teams[j] by {
            let t = g0.teams[j];
            if j != ti {
                // no other team holds the identity, so replacement is the
                // identity there
                assert(!team_mem(t, id));
                assert(t.dispatcher is Some ==> !dispatcher_is(t, id));
                assert(r.teams[j].agents =~= t.agents) by {
                    assert(forall|l: int|
                        0 <= l < t.agents.len() ==> (#[trigger] t.agents[l]).id != id);
                }
                assert(r.teams[j] == t);
            } else {
                match slot {
                    None => {
                        assert(!agent_mem(t, id));
                        assert(r.teams[j].agents =~= g1.teams[j].agents) by {
                            assert(forall|l: int|
                                0 <= l < t.agents.len() ==> (#[trigger] t.agents[l]).id != id);
                        }
                    },
                    Some(k) => {
                        assert(!dispatcher_is(t, id));
                        assert(r.teams[j].agents =~= g1.teams[j].agents) by {
                            assert(forall|l: int|
                                0 <= l < t.agents.len() && l != k ==> (
                                #[trigger] t.agents[l]).id != id);
                        }
                        assert(r.teams[j].dispatcher == g1.teams[j].dispatcher);
                    },
                }
            }
        }
        assert(g1.teams =~= r.teams);
    }

    /// Removes the identity from every team; a no-op where it is absent.
    pub fn remove_player(&mut self, player_id: u64)
        requires
            state_wf(old(self)@),
        ensures
            final(self)@ == spec_remove(old(self)@, player_id),
            state_wf(final(self)@),
            !state_mem(final(self)@, player_id),
    {
        let ghost g0 = self@;
        let n = self.teams.len();
        let mut i: usize = 0;
        while i < n
            invariant
                n == self.teams@.len(),
                i <= n,
                g0.teams.len() == n,
                self@.game_started == g0.game_started,
                forall|j: int|
                    0 <= j < i ==> #[trigger] self@.teams[j] == spec_team_remove(
                        g0.teams[j],
                        player_id,
                    ),
                forall|j: int| i <= j < n ==> #[trigger] self@.teams[j] == g0.teams[j],
            decreases n - i,
        {
            let ghost prev = self.teams@;
            let ghost prev_view = self@.teams;
            let t = team_at_mut(&mut self.teams, i);
            t.remove_player(player_id);
            proof {
                assert(forall|j: int| 0 <= j < n ==> #[trigger] prev_view[j] == prev[j]@);
                assert(forall|j: int|
                    0 <= j < n ==> #[trigger] self@.teams[j] == self.teams@[j]@);
                assert(self.teams@[i as int]@ == spec_team_remove(prev[i as int]@, player_id));
                assert(forall|j: int| 0 <= j < n && j != i ==> self.teams@[j] == prev[j]);
                assert(forall|j: int|
                    0 <= j < n && j != i ==> #[trigger] self@.teams[j] == prev_view[j]);
                assert(self@.teams[i as int] == spec_team_remove(prev_view[i as int], player_id));
            }
            i += 1;
        }
        proof {
            assert(self@.teams =~~= spec_remove(g0, player_id).teams);
            lemma_remove_wf(g0, player_id);
        }
    }
}

} // verus!
