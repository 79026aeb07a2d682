//! Players, roles and teams: the entities of the world model.
//!
//! A team holds at most one dispatcher and any number of agents. A player is
//! created by a successful join, moved by per-tick physics, renamed in place,
//! and destroyed by an explicit remove.

use vstd::prelude::*;
use vstd::utf8::encode_utf8;
use crate::constants::{DT_LIMIT, NAME_MAX_BYTES, PLAYER_SPEED, POS_LIMIT};
use crate::fx::{
    fx_clamp, fx_cos, fx_floor_mod, fx_mul, fx_sin, lemma_div_exact, lemma_fx_mul_range,
    spec_clamp, spec_fx_cos, spec_fx_mod, spec_fx_mul, spec_fx_sin, FxVec2, FX_TAU,
};
use crate::messages::{input_wf, ClientInput};

verus! {

/// The role a player occupies within its team.
#[derive(Clone, Copy, Debug, PartialEq, Eq, Structural)]
pub enum PlayerType {
    Dispatcher,
    Agent,
}

/// One player of the world model.
#[derive(Debug)]
pub struct Player {
    pub id: u64,
    pub name: String,
    pub position: FxVec2,
    pub rotation: i64,
    pub player_type: PlayerType,
}

/// The mathematical value of a player.
pub ghost struct PlayerV {
    pub id: u64,
    pub name: Seq<char>,
    pub pos_x: int,
    pub pos_y: int,
    pub rotation: int,
    pub player_type: PlayerType,
}

impl View for Player {
    type V = PlayerV;

    open spec fn view(&self) -> PlayerV {
        PlayerV {
            id: self.id,
            name: self.name@,
            pos_x: self.position.x as int,
            pos_y: self.position.y as int,
            rotation: self.rotation as int,
            player_type: self.player_type,
        }
    }
}

/// A name the model may store: its UTF-8 form fits the configured byte cap.
pub open spec fn name_ok(name: Seq<char>) -> bool {
    encode_utf8(name).len() <= NAME_MAX_BYTES
}

/// A well-formed player: its angle is reduced, its position is within the
/// world bounds, and its name fits the byte cap.
pub open spec fn player_wf(p: PlayerV) -> bool {
    &&& 0 <= p.rotation < FX_TAU
    &&& -POS_LIMIT <= p.pos_x <= POS_LIMIT
    &&& -POS_LIMIT <= p.pos_y <= POS_LIMIT
    &&& name_ok(p.name)
}

/// The player a join installs: at the origin, facing angle zero.
pub open spec fn spec_new_player(id: u64, name: Seq<char>, player_type: PlayerType) -> PlayerV {
    PlayerV { id, name, pos_x: 0, pos_y: 0, rotation: 0, player_type }
}

/// One physics step: the turn input is applied to the facing as an
/// instantaneous turn (not scaled by time), then the movement axes, rotated
/// into the player's own reference frame, advance the position at the player
/// speed for the tick's duration. The position stays clamped to the world
/// bounds and the facing stays reduced to one turn.
pub open spec fn spec_player_update(p: PlayerV, dt: i64, input: ClientInput) -> PlayerV {
    let rot = spec_fx_mod(p.rotation - input.rotation, FX_TAU as int);
    let c = spec_fx_cos(-rot);
    let s = spec_fx_sin(-rot);
    let dir_x = spec_fx_mul(input.x_input as int, c) - spec_fx_mul(input.y_input as int, s);
    let dir_y = spec_fx_mul(input.x_input as int, s) + spec_fx_mul(input.y_input as int, c);
    let step_x = spec_fx_mul(spec_fx_mul(dir_x, PLAYER_SPEED as int), dt as int);
    let step_y = spec_fx_mul(spec_fx_mul(dir_y, PLAYER_SPEED as int), dt as int);
    PlayerV {
        pos_x: spec_clamp(p.pos_x + step_x, POS_LIMIT as int),
        pos_y: spec_clamp(p.pos_y + step_y, POS_LIMIT as int),
        rotation: rot,
        ..p
    }
}

/// With no turn input and facing angle zero, a physics step moves the player
/// by exactly its movement axes scaled by the player speed and the tick's
/// duration — the local frame coincides with the world frame — and the facing
/// stays zero.
pub proof fn lemma_player_update_unrotated(p: PlayerV, dt: i64, input: ClientInput)
    requires
        p.rotation == 0,
        input.rotation == 0,
    ensures
        spec_player_update(p, dt, input) == (PlayerV {
            pos_x: spec_clamp(
                p.pos_x + spec_fx_mul(
                    spec_fx_mul(input.x_input as int, PLAYER_SPEED as int),
                    dt as int,
                ),
                POS_LIMIT as int,
            ),
            pos_y: spec_clamp(
                p.pos_y + spec_fx_mul(
                    spec_fx_mul(input.y_input as int, PLAYER_SPEED as int),
                    dt as int,
                ),
                POS_LIMIT as int,
            ),
            rotation: 0,
            ..p
        }),
{
    crate::fx::lemma_div_exact(0, FX_TAU as int, 0);
    vstd::arithmetic::div_mod::lemma_fundamental_div_mod_converse(0, FX_TAU as int, 0, 0);
    assert(spec_fx_mod(0, FX_TAU as int) == 0);
    crate::fx::lemma_fx_cos_zero();
    crate::fx::lemma_fx_sin_zero();
    crate::fx::lemma_fx_mul_one(input.x_input as int);
    crate::fx::lemma_fx_mul_one(input.y_input as int);
    crate::fx::lemma_fx_mul_zero(input.x_input as int);
    crate::fx::lemma_fx_mul_zero(input.y_input as int);
}

/// A physics step keeps a well-formed player well-formed.
pub proof fn lemma_player_update_wf(p: PlayerV, dt: i64, input: ClientInput)
    requires
        player_wf(p),
    ensures
        player_wf(spec_player_update(p, dt, input)),
{
}

impl Player {
    /// A fresh player at the origin.
    pub fn new(id: u64, name: String, player_type: PlayerType) -> (r: Player)
        ensures
            r@ == spec_new_player(id, name@, player_type),
    {
        Player {
            id,
            name,
            position: FxVec2 { x: 0, y: 0 },
            rotation: 0,
            player_type,
        }
    }

    /// Applies one tick of movement from the given input.
    pub fn update(&mut self, delta_time: i64, input: &ClientInput)
        requires
            player_wf(old(self)@),
            input_wf(*input),
            0 <= delta_time <= DT_LIMIT,
        ensures
            final(self)@ == spec_player_update(old(self)@, delta_time, *input),
            player_wf(final(self)@),
    {
        let rot = fx_floor_mod(self.rotation - input.rotation, FX_TAU);
        let c = fx_cos(-rot);
        let s = fx_sin(-rot);
        proof {
            lemma_fx_mul_range(input.x_input as int, c as int, 1000, 1000);
            lemma_fx_mul_range(input.y_input as int, s as int, 1000, 1000);
            lemma_fx_mul_range(input.x_input as int, s as int, 1000, 1000);
            lemma_fx_mul_range(input.y_input as int, c as int, 1000, 1000);
            lemma_div_exact(1000int * 1000, 1000, 1000);
        }
        let dir_x = fx_mul(input.x_input, c) - fx_mul(input.y_input, s);
        let dir_y = fx_mul(input.x_input, s) + fx_mul(input.y_input, c);
        proof {
            lemma_fx_mul_range(dir_x as int, PLAYER_SPEED as int, 2000, 1500);
            lemma_fx_mul_range(dir_y as int, PLAYER_SPEED as int, 2000, 1500);
            lemma_div_exact(2000int * 1500, 1000, 3000);
        }
        let speed_x = fx_mul(dir_x, PLAYER_SPEED);
        let speed_y = fx_mul(dir_y, PLAYER_SPEED);
        proof {
            lemma_fx_mul_range(speed_x as int, delta_time as int, 3000, DT_LIMIT as int);
            lemma_fx_mul_range(speed_y as int, delta_time as int, 3000, DT_LIMIT as int);
            lemma_div_exact(3000 * (DT_LIMIT as int), 1000, 180_000);
        }
        let step_x = fx_mul(speed_x, delta_time);
        let step_y = fx_mul(speed_y, delta_time);
        self.position = FxVec2 {
            x: fx_clamp(self.position.x + step_x, POS_LIMIT),
            y: fx_clamp(self.position.y + step_y, POS_LIMIT),
        };
        self.rotation = rot;
    }
}

impl Clone for Player {
    /// A clone carries the same value.
    fn clone(&self) -> (r: Self)
        ensures
            r@ == self@,
    {
        Player {
            id: self.id,
            name: self.name.clone(),
            position: self.position,
            rotation: self.rotation,
            player_type: self.player_type,
        }
    }
}

/// One team: a name and color, at most one dispatcher, any number of agents.
#[derive(Debug)]
pub struct Team {
    pub id: u64,
    pub name: String,
    pub color: (u8, u8, u8),
    pub dispatcher: Option<Player>,
    pub agents: Vec<Player>,
}

/// The mathematical value of a team.
pub ghost struct TeamV {
    pub id: u64,
    pub name: Seq<char>,
    pub color: (u8, u8, u8),
    pub dispatcher: Option<PlayerV>,
    pub agents: Seq<PlayerV>,
}

impl View for Team {
    type V = TeamV;

    open spec fn view(&self) -> TeamV {
        TeamV {
            id: self.id,
            name: self.name@,
            color: self.color,
            dispatcher: match self.dispatcher {
                Some(p) => Some(p@),
                None => None,
            },
            agents: self.agents@.map_values(|p: Player| p@),
        }
    }
}

/// Whether this team's dispatcher slot holds the given identity.
pub open spec fn dispatcher_is(t: TeamV, id: u64) -> bool {
    match t.dispatcher {
        Some(p) => p.id == id,
        None => false,
    }
}

/// Whether the given identity is among this team's agents.
pub open spec fn agent_mem(t: TeamV, id: u64) -> bool {
    exists|k: int| 0 <= k < t.agents.len() && t.agents[k].id == id
}

/// Whether the given identity occupies this team, in either role.
pub open spec fn team_mem(t: TeamV, id: u64) -> bool {
    dispatcher_is(t, id) || agent_mem(t, id)
}

/// A well-formed team: role tags match the slots players occupy, every
/// player is well-formed, and no identity appears twice within the team.
pub open spec fn team_wf(t: TeamV) -> bool {
    &&& name_ok(t.name)
    &&& (t.dispatcher matches Some(p) ==> p.player_type == PlayerType::Dispatcher
        && player_wf(p))
    &&& (forall|k: int|
        0 <= k < t.agents.len() ==> (#[trigger] t.agents[k]).player_type == PlayerType::Agent
            && player_wf(t.agents[k]))
    &&& (forall|j: int, k: int|
        0 <= j < k < t.agents.len() ==> (#[trigger] t.agents[j]).id != (
        #[trigger] t.agents[k]).id)
    &&& (t.dispatcher matches Some(p) ==> !agent_mem(t, p.id))
}

/// The team after a join attempt: a dispatcher fills an empty slot and is
/// otherwise ignored; an agent is always appended.
pub open spec fn spec_team_add(
    t: TeamV,
    player_id: u64,
    name: Seq<char>,
    player_type: PlayerType,
) -> TeamV {
    match player_type {
        PlayerType::Dispatcher => if t.dispatcher is None {
            TeamV { dispatcher: Some(spec_new_player(player_id, name, player_type)), ..t }
        } else {
            t
        },
        PlayerType::Agent => TeamV {
            agents: t.agents.push(spec_new_player(player_id, name, player_type)),
            ..t
        },
    }
}

/// The team after a removal: a matching dispatcher leaves the slot (agents
/// untouched); otherwise every matching agent leaves.
pub open spec fn spec_team_remove(t: TeamV, id: u64) -> TeamV {
    if dispatcher_is(t, id) {
        TeamV { dispatcher: None, ..t }
    } else {
        TeamV { agents: t.agents.filter(|p: PlayerV| p.id != id), ..t }
    }
}

/// Whether the team stores exactly this player value, in either role.
pub open spec fn player_in_team(t: TeamV, p: PlayerV) -> bool {
    t.dispatcher == Some(p) || t.agents.contains(p)
}

/// Filtering a sequence of players keeps only elements of the original, every
/// kept element satisfies the predicate, every original element satisfying it
/// is kept, and pairwise-distinct identities stay pairwise distinct.
proof fn lemma_filter_players(s: Seq<PlayerV>, pred: spec_fn(PlayerV) -> bool)
    ensures
        forall|i: int|
            0 <= i < s.filter(pred).len() ==> s.contains(#[trigger] s.filter(pred)[i]) && pred(
                s.filter(pred)[i],
            ),
        forall|i: int|
            0 <= i < s.len() && pred(#[trigger] s[i]) ==> s.filter(pred).contains(s[i]),
        (forall|j: int, k: int|
            0 <= j < k < s.len() ==> (#[trigger] s[j]).id != (#[trigger] s[k]).id) ==> (forall|
            j: int,
            k: int,
        |
            0 <= j < k < s.filter(pred).len() ==> (#[trigger] s.filter(pred)[j]).id != (
            #[trigger] s.filter(pred)[k]).id),
    decreases s.len(),
{
    reveal_with_fuel(Seq::filter, 2);
    if s.len() == 0 {
    } else {
        let head = s.drop_last();
        lemma_filter_players(head, pred);
        assert(forall|i: int| 0 <= i < head.len() ==> head[i] == s[i]);
        assert(forall|i: int|
            0 <= i < head.len() && head.contains(#[trigger] head[i]) ==> s.contains(head[i]));
        assert(forall|p: PlayerV| head.contains(p) ==> s.contains(p)) by {
            assert(forall|p: PlayerV| #[trigger] head.contains(p) ==> exists|i: int|
                0 <= i < head.len() && head[i] == p);
        }
        assert(s.contains(s.last())) by {
            assert(s[s.len() - 1] == s.last());
        }
        if pred(s.last()) {
            assert(s.filter(pred) == head.filter(pred).push(s.last()));
            // distinctness: the appended element's identity differs from every
            // element kept from the front of the sequence
            if forall|j: int, k: int|
                0 <= j < k < s.len() ==> (#[trigger] s[j]).id != (#[trigger] s[k]).id {
                assert forall|j: int|
                    0 <= j < head.filter(pred).len() implies (#[trigger] head.filter(pred)[j]).id
                    != s.last().id by {
                    let p = head.filter(pred)[j];
                    assert(head.contains(p));
                    let w = choose|w: int| 0 <= w < head.len() && head[w] == p;
                    assert(s[w] == p);
                    assert(s[s.len() - 1] == s.last());
                }
            }
        } else {
            assert(s.filter(pred) == head.filter(pred));
        }
    }
}

/// After a removal the identity is gone, every other identity's membership is
/// untouched, every stored player value with another identity is untouched,
/// and the team stays well-formed.
pub proof fn lemma_team_remove_after(t: TeamV, id: u64)
    requires
        team_wf(t),
    ensures
        team_wf(spec_team_remove(t, id)),
        !team_mem(spec_team_remove(t, id), id),
        forall|x: u64|
            x != id ==> #[trigger] team_mem(spec_team_remove(t, id), x) == team_mem(t, x),
        forall|p: PlayerV|
            p.id != id ==> #[trigger] player_in_team(spec_team_remove(t, id), p) == player_in_team(
                t,
                p,
            ),
        spec_team_remove(t, id).id == t.id,
        spec_team_remove(t, id).dispatcher is Some ==> t.dispatcher == spec_team_remove(
            t,
            id,
        ).dispatcher,
{
    let r = spec_team_remove(t, id);
    if dispatcher_is(t, id) {
        assert(forall|x: u64| x != id ==> #[trigger] agent_mem(r, x) == agent_mem(t, x));
    } else {
        let pred = |p: PlayerV| p.id != id;
        lemma_filter_players(t.agents, pred);
        assert forall|x: u64| x != id implies #[trigger] team_mem(r, x) == team_mem(t, x) by {
            if agent_mem(t, x) {
                let k = choose|k: int| 0 <= k < t.agents.len() && t.agents[k].id == x;
                assert(t.agents.filter(pred).contains(t.agents[k]));
                let j = choose|j: int|
                    0 <= j < r.agents.len() && r.agents[j] == t.agents[k];
                assert(agent_mem(r, x));
            }
            if agent_mem(r, x) {
                let k = choose|k: int| 0 <= k < r.agents.len() && r.agents[k].id == x;
                assert(t.agents.contains(r.agents[k]));
                let j = choose|j: int| 0 <= j < t.agents.len() && t.agents[j] == r.agents[k];
                assert(agent_mem(t, x));
            }
        }
        assert forall|p: PlayerV| p.id != id implies #[trigger] player_in_team(r, p)
            == player_in_team(t, p) by {
            if t.agents.contains(p) {
                let k = choose|k: int| 0 <= k < t.agents.len() && t.agents[k] == p;
                assert(t.agents.filter(pred).contains(p));
            }
            if r.agents.contains(p) {
                let k = choose|k: int| 0 <= k < r.agents.len() && r.agents[k] == p;
                assert(t.agents.contains(p));
            }
        }
        assert(!agent_mem(r, id)) by {
            if agent_mem(r, id) {
                let k = choose|k: int| 0 <= k < r.agents.len() && r.agents[k].id == id;
                assert(pred(r.agents[k]));
            }
        }
        assert(team_wf(r)) by {
            assert(forall|k: int|
                0 <= k < r.agents.len() ==> t.agents.contains(#[trigger] r.agents[k]));
            assert forall|k: int|
                0 <= k < r.agents.len() implies (#[trigger] r.agents[k]).player_type
                == PlayerType::Agent && player_wf(r.agents[k]) by {
                let j = choose|j: int| 0 <= j < t.agents.len() && t.agents[j] == r.agents[k];
            }
            if t.dispatcher is Some {
                let d = t.dispatcher->0;
                assert(!agent_mem(r, d.id)) by {
                    if agent_mem(r, d.id) {
                        let k = choose|k: int|
                            0 <= k < r.agents.len() && r.agents[k].id == d.id;
                        let j = choose|j: int|
                            0 <= j < t.agents.len() && t.agents[j] == r.agents[k];
                        assert(agent_mem(t, d.id));
                    }
                }
            }
        }
    }
}

/// After a join attempt on a team not holding the identity: an agent is
/// always present afterwards; a dispatcher occupies the slot exactly when it
/// was empty; no other membership changes; and the team stays well-formed.
pub proof fn lemma_team_add_after(t: TeamV, id: u64, name: Seq<char>, player_type: PlayerType)
    requires
        team_wf(t),
        !team_mem(t, id),
        name_ok(name),
    ensures
        team_wf(spec_team_add(t, id, name, player_type)),
        forall|x: u64|
            x != id ==> #[trigger] team_mem(spec_team_add(t, id, name, player_type), x)
                == team_mem(t, x),
        team_mem(spec_team_add(t, id, name, player_type), id) == (player_type
            == PlayerType::Agent || t.dispatcher is None),
        spec_team_add(t, id, name, player_type).id == t.id,
{
    let r = spec_team_add(t, id, name, player_type);
    match player_type {
        PlayerType::Dispatcher => {
            if t.dispatcher is None {
                assert(dispatcher_is(r, id));
                assert(forall|x: u64| #[trigger] agent_mem(r, x) == agent_mem(t, x));
                assert(!agent_mem(r, id));
            }
        },
        PlayerType::Agent => {
            let n = t.agents.len() as int;
            assert(r.agents[n] == spec_new_player(id, name, player_type));
            assert(agent_mem(r, id));
            assert(forall|k: int| 0 <= k < n ==> r.agents[k] == t.agents[k]);
            assert forall|x: u64| x != id implies #[trigger] team_mem(r, x) == team_mem(t, x) by {
                if agent_mem(t, x) {
                    let k = choose|k: int| 0 <= k < n && t.agents[k].id == x;
                    assert(r.agents[k].id == x);
                }
                if agent_mem(r, x) {
                    let k = choose|k: int| 0 <= k <= n && r.agents[k].id == x;
                    assert(k < n);
                    assert(t.agents[k].id == x);
                }
            }
            assert(team_wf(r)) by {
                assert(forall|k: int| 0 <= k < n ==> !(#[trigger] t.agents[k].id == id));
            }
        },
    }
}

impl Team {
    /// A fresh team with no occupants.
    pub fn new(id: u64, name: String, color: (u8, u8, u8)) -> (r: Team)
        ensures
            r@ == (TeamV {
                id,
                name: name@,
                color,
                dispatcher: None,
                agents: Seq::empty(),
            }),
    {
        let r = Team { id, name, color, dispatcher: None, agents: Vec::new() };
        proof {
            assert(r@.agents =~= Seq::<PlayerV>::empty());
        }
        r
    }

    /// Whether the given identity occupies this team, in either role.
    pub fn has_player(&self, id: u64) -> (r: bool)
        ensures
            r == team_mem(self@, id),
    {
        match &self.dispatcher {
            None => {},
            Some(d) => {
                if d.id == id {
                    return true;
                }
            },
        }
        let mut k: usize = 0;
        while k < self.agents.len()
            invariant
                k <= self.agents@.len(),
                forall|j: int| 0 <= j < k ==> (#[trigger] self@.agents[j]).id != id,
                self@.agents.len() == self.agents@.len(),
                forall|j: int|
                    0 <= j < self.agents@.len() ==> #[trigger] self@.agents[j] == self.agents@[j]@,
            decreases self.agents@.len() - k,
        {
            if self.agents[k].id == id {
                proof {
                    assert(self@.agents[k as int].id == id);
                    assert(agent_mem(self@, id));
                }
                return true;
            }
            k += 1;
        }
        false
    }

    /// Tries to add a player in the given role; contention for the
    /// dispatcher slot keeps the current occupant.
    pub fn try_add_player(&mut self, player_id: u64, name: String, player_type: PlayerType)
        ensures
            final(self)@ == spec_team_add(old(self)@, player_id, name@, player_type),
    {
        match player_type {
            PlayerType::Dispatcher => {
                if self.dispatcher.is_none() {
                    self.dispatcher = Some(Player::new(player_id, name, player_type));
                }
            },
            PlayerType::Agent => {
                let p = Player::new(player_id, name, player_type);
                let ghost prev = self.agents@.map_values(|q: Player| q@);
                self.agents.push(p);
                proof {
                    assert(self.agents@.map_values(|q: Player| q@) =~= prev.push(p@));
                }
            },
        }
    }

    /// Removes the given identity from the team; a no-op when it is absent.
    pub fn remove_player(&mut self, id: u64)
        ensures
            final(self)@ == spec_team_remove(old(self)@, id),
    {
        match &self.dispatcher {
            None => {},
            Some(d) => {
                if d.id == id {
                    self.dispatcher = None;
                    return;
                }
            },
        }
        let ghost all = self.agents@.map_values(|q: Player| q@);
        let ghost pred = |p: PlayerV| p.id != id;
        let mut kept: Vec<Player> = Vec::new();
        let mut k: usize = 0;
        proof {
            assert(all.take(0).filter(pred) =~= Seq::<PlayerV>::empty());
            assert(kept@.map_values(|q: Player| q@) =~= Seq::<PlayerV>::empty());
        }
        while k < self.agents.len()
            invariant
                k <= self.agents@.len(),
                all == self.agents@.map_values(|q: Player| q@),
                pred == (|p: PlayerV| p.id != id),
                kept@.map_values(|q: Player| q@) == all.take(k as int).filter(pred),
            decreases self.agents@.len() - k,
        {
            let ghost prev_kept = kept@.map_values(|q: Player| q@);
            if self.agents[k].id != id {
                let p = self.agents[k].clone();
                proof {
                    assert(p@ == all[k as int]);
                }
                kept.push(p);
                proof {
                    assert(kept@.map_values(|q: Player| q@) =~= prev_kept.push(all[k as int]));
                }
            }
            proof {
                reveal_with_fuel(Seq::filter, 2);
                let t1 = all.take(k + 1);
                assert(t1.drop_last() =~= all.take(k as int));
                assert(t1.last() == all[k as int]);
                if pred(all[k as int]) {
                    assert(t1.filter(pred) == t1.drop_last().filter(pred).push(t1.last()));
                } else {
                    assert(t1.filter(pred) == t1.drop_last().filter(pred));
                }
            }
            k += 1;
        }
        proof {
            assert(all.take(self.agents@.len() as int) =~= all);
        }
        self.agents = kept;
    }
}

} // verus!
