//! The wire messages: what clients send and what the server sends back,
//! with an exact, deterministic binary form for each.
//!
//! Every payload is a tagged variant: the first byte names the message kind,
//! the fields follow in a fixed order (little-endian integers, two's
//! complement for signed values, length-prefixed UTF-8 for strings). A
//! decoder accepts a payload exactly when every field parses and nothing
//! trails behind it.

use vstd::prelude::*;
use vstd::utf8::encode_utf8;
use crate::constants::{INPUT_AXIS_LIMIT, INPUT_ROT_LIMIT};
use crate::fx::{fx_clamp, spec_clamp, FxVec2};
use crate::gamestate::{state_wf, GameState, GameStateV};
use crate::player::{team_wf, Player, PlayerType, PlayerV, Team, TeamV};
use crate::wire::{
    enc_i64, enc_str, enc_u64, i64_as_nat, lemma_le_bytes_len, lemma_parse_i64_prefix,
    lemma_parse_u64_prefix, lemma_sub_sub, parse_i64, parse_str, parse_u64, push_i64, push_str,
    push_u64, push_u8, read_i64, read_str, read_u64, read_u8,
};

verus! {

/// The most recent movement input of one client: two movement axes and an
/// accumulated turn delta for the tick, all fixed-point.
#[derive(Clone, Copy, Debug, PartialEq, Eq, Structural)]
pub struct ClientInput {
    pub x_input: i64,
    pub y_input: i64,
    pub rotation: i64,
}

/// An input whose fields are within the limits the physics accepts.
pub open spec fn input_wf(i: ClientInput) -> bool {
    &&& -INPUT_AXIS_LIMIT <= i.x_input <= INPUT_AXIS_LIMIT
    &&& -INPUT_AXIS_LIMIT <= i.y_input <= INPUT_AXIS_LIMIT
    &&& -INPUT_ROT_LIMIT <= i.rotation <= INPUT_ROT_LIMIT
}

/// The clamped form of an arbitrary input.
pub open spec fn spec_input_clamped(i: ClientInput) -> ClientInput {
    ClientInput {
        x_input: spec_clamp(i.x_input as int, INPUT_AXIS_LIMIT as int) as i64,
        y_input: spec_clamp(i.y_input as int, INPUT_AXIS_LIMIT as int) as i64,
        rotation: spec_clamp(i.rotation as int, INPUT_ROT_LIMIT as int) as i64,
    }
}

impl ClientInput {
    /// A neutral input: no movement, no turn.
    pub fn new() -> (r: ClientInput)
        ensures
            r == (ClientInput { x_input: 0, y_input: 0, rotation: 0 }),
    {
        ClientInput { x_input: 0, y_input: 0, rotation: 0 }
    }

    /// The same input with every field forced into the limits the physics
    /// accepts; an input already within them is unchanged.
    pub fn clamped(self) -> (r: ClientInput)
        ensures
            r == spec_input_clamped(self),
            input_wf(r),
            input_wf(self) ==> r == self,
    {
        ClientInput {
            x_input: fx_clamp(self.x_input, INPUT_AXIS_LIMIT),
            y_input: fx_clamp(self.y_input, INPUT_AXIS_LIMIT),
            rotation: fx_clamp(self.rotation, INPUT_ROT_LIMIT),
        }
    }
}

/// A gameplay audio cue, broadcast with a world position.
#[derive(Clone, Copy, Debug, PartialEq, Eq, Structural)]
pub enum SoundEffect {
    Explosion,
    Powerup,
    Gun,
}

/// What a client sends to the server.
pub enum ClientMessage {
    Input(ClientInput),
    JoinTeam { team_id: u64, player_type: PlayerType, name: String },
    SetName { name: String },
}

/// The mathematical value of a client message.
pub ghost enum ClientMsgV {
    Input(ClientInput),
    JoinTeam { team_id: u64, player_type: PlayerType, name: Seq<char> },
    SetName { name: Seq<char> },
}

impl View for ClientMessage {
    type V = ClientMsgV;

    open spec fn view(&self) -> ClientMsgV {
        match *self {
            ClientMessage::Input(i) => ClientMsgV::Input(i),
            ClientMessage::JoinTeam { team_id, player_type, ref name } => ClientMsgV::JoinTeam {
                team_id,
                player_type,
                name: name@,
            },
            ClientMessage::SetName { ref name } => ClientMsgV::SetName { name: name@ },
        }
    }
}

/// What the server sends to a client.
pub enum ServerMessage {
    AssignId(u64),
    GameState(GameState),
    PlaySound(SoundEffect, FxVec2),
}

/// The mathematical value of a server message.
pub ghost enum ServerMsgV {
    AssignId(u64),
    GameState(GameStateV),
    PlaySound(SoundEffect, FxVec2),
}

impl View for ServerMessage {
    type V = ServerMsgV;

    open spec fn view(&self) -> ServerMsgV {
        match *self {
            ServerMessage::AssignId(id) => ServerMsgV::AssignId(id),
            ServerMessage::GameState(ref g) => ServerMsgV::GameState(g@),
            ServerMessage::PlaySound(e, p) => ServerMsgV::PlaySound(e, p),
        }
    }
}

// ------------------------------------------------------------------
// byte forms

/// The one-byte form of a role.
pub open spec fn enc_player_type(t: PlayerType) -> Seq<u8> {
    match t {
        PlayerType::Dispatcher => seq![0u8],
        PlayerType::Agent => seq![1u8],
    }
}

/// The one-byte form of a sound effect.
pub open spec fn enc_sound(e: SoundEffect) -> Seq<u8> {
    match e {
        SoundEffect::Explosion => seq![0u8],
        SoundEffect::Powerup => seq![1u8],
        SoundEffect::Gun => seq![2u8],
    }
}

/// The byte form of an input: the three fields in order.
pub open spec fn enc_input(i: ClientInput) -> Seq<u8> {
    enc_i64(i.x_input as int) + enc_i64(i.y_input as int) + enc_i64(i.rotation as int)
}

/// The byte form of a player.
pub open spec fn enc_player(p: PlayerV) -> Seq<u8> {
    enc_u64(p.id) + enc_str(p.name) + enc_i64(p.pos_x) + enc_i64(p.pos_y) + enc_i64(p.rotation)
        + enc_player_type(p.player_type)
}

/// The byte form of a list of players, in order.
pub open spec fn enc_players(s: Seq<PlayerV>) -> Seq<u8>
    decreases s.len(),
{
    if s.len() == 0 {
        Seq::empty()
    } else {
        enc_player(s[0]) + enc_players(s.drop_first())
    }
}

/// The byte form of a team: identity, name, color, the dispatcher slot
/// (presence byte, then the player), then the counted agents.
pub open spec fn enc_team(t: TeamV) -> Seq<u8> {
    enc_u64(t.id) + enc_str(t.name) + seq![t.color.0, t.color.1, t.color.2] + (match t.dispatcher {
        None => seq![0u8],
        Some(p) => seq![1u8] + enc_player(p),
    }) + enc_u64(t.agents.len() as u64) + enc_players(t.agents)
}

/// The byte form of a list of teams, in order.
pub open spec fn enc_teams(s: Seq<TeamV>) -> Seq<u8>
    decreases s.len(),
{
    if s.len() == 0 {
        Seq::empty()
    } else {
        enc_team(s[0]) + enc_teams(s.drop_first())
    }
}

/// The byte form of the whole world model.
pub open spec fn enc_state(g: GameStateV) -> Seq<u8> {
    seq![if g.game_started { 1u8 } else { 0u8 }] + enc_u64(g.teams.len() as u64) + enc_teams(
        g.teams,
    )
}

/// The byte form of a client message.
pub open spec fn enc_client_msg(m: ClientMsgV) -> Seq<u8> {
    match m {
        ClientMsgV::Input(i) => seq![0u8] + enc_input(i),
        ClientMsgV::JoinTeam { team_id, player_type, name } => seq![1u8] + enc_u64(team_id)
            + enc_player_type(player_type) + enc_str(name),
        ClientMsgV::SetName { name } => seq![2u8] + enc_str(name),
    }
}

/// The byte form of a server message.
pub open spec fn enc_server_msg(m: ServerMsgV) -> Seq<u8> {
    match m {
        ServerMsgV::AssignId(id) => seq![0u8] + enc_u64(id),
        ServerMsgV::GameState(g) => seq![1u8] + enc_state(g),
        ServerMsgV::PlaySound(e, p) => seq![2u8] + enc_sound(e) + enc_i64(p.x as int) + enc_i64(
            p.y as int,
        ),
    }
}

/// Whether a client message can be put on the wire: its name, if any, fits
/// the two-byte length prefix.
pub open spec fn client_msg_encodable(m: ClientMsgV) -> bool {
    match m {
        ClientMsgV::Input(_) => true,
        ClientMsgV::JoinTeam { name, .. } => encode_utf8(name).len() <= 65535,
        ClientMsgV::SetName { name } => encode_utf8(name).len() <= 65535,
    }
}

/// Whether a server message can be put on the wire: a carried world model is
/// well-formed, which bounds every name in it.
pub open spec fn server_msg_wf(m: ServerMsgV) -> bool {
    match m {
        ServerMsgV::AssignId(_) => true,
        ServerMsgV::GameState(g) => state_wf(g),
        ServerMsgV::PlaySound(_, _) => true,
    }
}

// ------------------------------------------------------------------
// encoders

/// Appending one more player to an encoded list appends its bytes.
proof fn lemma_enc_players_snoc(s: Seq<PlayerV>, p: PlayerV)
    ensures
        enc_players(s.push(p)) == enc_players(s) + enc_player(p),
    decreases s.len(),
{
    reveal_with_fuel(enc_players, 3);
    if s.len() == 0 {
        assert(s.push(p).drop_first() =~= Seq::<PlayerV>::empty());
        assert(enc_players(s.push(p)) =~= enc_players(s) + enc_player(p));
    } else {
        assert(s.push(p).drop_first() =~= s.drop_first().push(p));
        lemma_enc_players_snoc(s.drop_first(), p);
        assert(enc_players(s.push(p)) =~= enc_players(s) + enc_player(p));
    }
}

/// Appending one more team to an encoded list appends its bytes.
proof fn lemma_enc_teams_snoc(s: Seq<TeamV>, t: TeamV)
    ensures
        enc_teams(s.push(t)) == enc_teams(s) + enc_team(t),
    decreases s.len(),
{
    reveal_with_fuel(enc_teams, 3);
    if s.len() == 0 {
        assert(s.push(t).drop_first() =~= Seq::<TeamV>::empty());
        assert(enc_teams(s.push(t)) =~= enc_teams(s) + enc_team(t));
    } else {
        assert(s.push(t).drop_first() =~= s.drop_first().push(t));
        lemma_enc_teams_snoc(s.drop_first(), t);
        assert(enc_teams(s.push(t)) =~= enc_teams(s) + enc_team(t));
    }
}

/// Appends the byte form of an input.
fn push_input(out: &mut Vec<u8>, i: &ClientInput)
    ensures
        final(out)@ == old(out)@ + enc_input(*i),
{
    push_i64(out, i.x_input);
    push_i64(out, i.y_input);
    push_i64(out, i.rotation);
    proof {
        assert(final(out)@ =~= old(out)@ + enc_input(*i));
    }
}

/// Appends the role byte.
fn push_player_type(out: &mut Vec<u8>, t: PlayerType)
    ensures
        final(out)@ == old(out)@ + enc_player_type(t),
{
    match t {
        PlayerType::Dispatcher => push_u8(out, 0),
        PlayerType::Agent => push_u8(out, 1),
    }
    proof {
        assert(final(out)@ =~= old(out)@ + enc_player_type(t));
    }
}

/// Appends the sound-effect byte.
fn push_sound(out: &mut Vec<u8>, e: SoundEffect)
    ensures
        final(out)@ == old(out)@ + enc_sound(e),
{
    match e {
        SoundEffect::Explosion => push_u8(out, 0),
        SoundEffect::Powerup => push_u8(out, 1),
        SoundEffect::Gun => push_u8(out, 2),
    }
    proof {
        assert(final(out)@ =~= old(out)@ + enc_sound(e));
    }
}

/// Appends the byte form of a player.
fn push_player(out: &mut Vec<u8>, p: &Player)
    requires
        encode_utf8(p@.name).len() <= 65535,
    ensures
        final(out)@ == old(out)@ + enc_player(p@),
{
    push_u64(out, p.id);
    push_str(out, p.name.as_str());
    push_i64(out, p.position.x);
    push_i64(out, p.position.y);
    push_i64(out, p.rotation);
    push_player_type(out, p.player_type);
    proof {
        assert(final(out)@ =~= old(out)@ + enc_player(p@));
    }
}

/// Appends the byte form of a team.
fn push_team(out: &mut Vec<u8>, t: &Team)
    requires
        team_wf(t@),
    ensures
        final(out)@ == old(out)@ + enc_team(t@),
{
    let ghost base = out@;
    push_u64(out, t.id);
    push_str(out, t.name.as_str());
    push_u8(out, t.color.0);
    push_u8(out, t.color.1);
    push_u8(out, t.color.2);
    match &t.dispatcher {
        None => push_u8(out, 0),
        Some(d) => {
            push_u8(out, 1);
            push_player(out, d);
        },
    }
    let ghost head = base + enc_u64(t.id) + enc_str(t@.name) + seq![
        t.color.0,
        t.color.1,
        t.color.2,
    ] + (match t@.dispatcher {
        None => seq![0u8],
        Some(p) => seq![1u8] + enc_player(p),
    });
    proof {
        assert(out@ =~= head);
    }
    let n = t.agents.len();
    push_u64(out, n as u64);
    let ghost head2 = head + enc_u64(n as u64);
    let mut k: usize = 0;
    proof {
        assert(enc_players(t@.agents.take(0)) =~= Seq::<u8>::empty());
        assert(out@ =~= head2 + enc_players(t@.agents.take(0)));
    }
    while k < n
        invariant
            n == t.agents@.len(),
            k <= n,
            team_wf(t@),
            t@.agents.len() == n,
            out@ == head2 + enc_players(t@.agents.take(k as int)),
        decreases n - k,
    {
        push_player(out, &t.agents[k]);
        proof {
            assert(t@.agents[k as int] == t.agents@[k as int]@);
            lemma_enc_players_snoc(t@.agents.take(k as int), t@.agents[k as int]);
            assert(t@.agents.take(k + 1) =~= t@.agents.take(k as int).push(
                t@.agents[k as int],
            ));
        }
        k += 1;
    }
    proof {
        assert(t@.agents.take(n as int) =~= t@.agents);
        assert(out@ =~= base + enc_team(t@));
    }
}

/// Appends the byte form of the whole world model.
fn push_state(out: &mut Vec<u8>, g: &GameState)
    requires
        state_wf(g@),
    ensures
        final(out)@ == old(out)@ + enc_state(g@),
{
    let ghost base = out@;
    if g.game_started {
        push_u8(out, 1);
    } else {
        push_u8(out, 0);
    }
    let n = g.teams.len();
    push_u64(out, n as u64);
    let ghost head = base + seq![if g@.game_started { 1u8 } else { 0u8 }] + enc_u64(n as u64);
    let mut k: usize = 0;
    proof {
        assert(enc_teams(g@.teams.take(0)) =~= Seq::<u8>::empty());
        assert(out@ =~= head + enc_teams(g@.teams.take(0)));
    }
    while k < n
        invariant
            n == g.teams@.len(),
            k <= n,
            state_wf(g@),
            g@.teams.len() == n,
            out@ == head + enc_teams(g@.teams.take(k as int)),
        decreases n - k,
    {
        push_team(out, &g.teams[k]);
        proof {
            assert(g@.teams[k as int] == g.teams@[k as int]@);
            lemma_enc_teams_snoc(g@.teams.take(k as int), g@.teams[k as int]);
            assert(g@.teams.take(k + 1) =~= g@.teams.take(k as int).push(g@.teams[k as int]));
        }
        k += 1;
    }
    proof {
        assert(g@.teams.take(n as int) =~= g@.teams);
        assert(out@ =~= base + enc_state(g@));
    }
}

impl ServerMessage {
    /// The exact byte form of this message. A carried world model must be
    /// well-formed, which bounds every name it stores.
    pub fn encode(&self) -> (r: Vec<u8>)
        requires
            server_msg_wf(self@),
        ensures
            r@ == enc_server_msg(self@),
    {
        let mut out: Vec<u8> = Vec::new();
        match self {
            ServerMessage::AssignId(id) => {
                push_u8(&mut out, 0);
                push_u64(&mut out, *id);
            },
            ServerMessage::GameState(g) => {
                push_u8(&mut out, 1);
                push_state(&mut out, g);
            },
            ServerMessage::PlaySound(e, p) => {
                push_u8(&mut out, 2);
                push_sound(&mut out, *e);
                push_i64(&mut out, p.x);
                push_i64(&mut out, p.y);
            },
        }
        proof {
            assert(out@ =~= enc_server_msg(self@));
        }
        out
    }
}

/// The exact byte form of a world-snapshot message, from a borrowed world.
pub fn encode_game_state_message(g: &GameState) -> (r: Vec<u8>)
    requires
        state_wf(g@),
    ensures
        r@ == enc_server_msg(ServerMsgV::GameState(g@)),
{
    let mut out: Vec<u8> = Vec::new();
    push_u8(&mut out, 1);
    push_state(&mut out, g);
    proof {
        assert(out@ =~= enc_server_msg(ServerMsgV::GameState(g@)));
    }
    out
}

impl ClientMessage {
    /// The exact byte form of this message; fails exactly when a carried
    /// name is too long for its two-byte length prefix.
    pub fn encode(&self) -> (r: Option<Vec<u8>>)
        ensures
            match r {
                Some(bytes) => client_msg_encodable(self@) && bytes@ == enc_client_msg(self@),
                None => !client_msg_encodable(self@),
            },
    {
        let mut out: Vec<u8> = Vec::new();
        match self {
            ClientMessage::Input(i) => {
                push_u8(&mut out, 0);
                push_input(&mut out, i);
            },
            ClientMessage::JoinTeam { team_id, player_type, name } => {
                if name.as_str().as_bytes().len() > 65535 {
                    return None;
                }
                push_u8(&mut out, 1);
                push_u64(&mut out, *team_id);
                push_player_type(&mut out, *player_type);
                push_str(&mut out, name.as_str());
            },
            ClientMessage::SetName { name } => {
                if name.as_str().as_bytes().len() > 65535 {
                    return None;
                }
                push_u8(&mut out, 2);
                push_str(&mut out, name.as_str());
            },
        }
        proof {
            assert(out@ =~= enc_client_msg(self@));
        }
        Some(out)
    }
}

// ------------------------------------------------------------------
// parsers

/// Reads a role byte.
pub open spec fn parse_player_type(b: Seq<u8>, pos: int) -> Option<(PlayerType, int)> {
    if 0 <= pos && pos + 1 <= b.len() {
        if b[pos] == 0 {
            Some((PlayerType::Dispatcher, pos + 1))
        } else if b[pos] == 1 {
            Some((PlayerType::Agent, pos + 1))
        } else {
            None
        }
    } else {
        None
    }
}

/// Reads a sound-effect byte.
pub open spec fn parse_sound(b: Seq<u8>, pos: int) -> Option<(SoundEffect, int)> {
    if 0 <= pos && pos + 1 <= b.len() {
        if b[pos] == 0 {
            Some((SoundEffect::Explosion, pos + 1))
        } else if b[pos] == 1 {
            Some((SoundEffect::Powerup, pos + 1))
        } else if b[pos] == 2 {
            Some((SoundEffect::Gun, pos + 1))
        } else {
            None
        }
    } else {
        None
    }
}

/// Reads a strict boolean byte: 0 or 1, nothing else.
pub open spec fn parse_bool(b: Seq<u8>, pos: int) -> Option<(bool, int)> {
    if 0 <= pos && pos + 1 <= b.len() {
        if b[pos] == 0 {
            Some((false, pos + 1))
        } else if b[pos] == 1 {
            Some((true, pos + 1))
        } else {
            None
        }
    } else {
        None
    }
}

/// Reads an input: three signed fixed-point fields.
pub open spec fn parse_input(b: Seq<u8>, pos: int) -> Option<(ClientInput, int)> {
    match parse_i64(b, pos) {
        Some((x, p1)) => match parse_i64(b, p1) {
            Some((y, p2)) => match parse_i64(b, p2) {
                Some((r, p3)) => Some(
                    (ClientInput { x_input: x as i64, y_input: y as i64, rotation: r as i64 }, p3),
                ),
                None => None,
            },
            None => None,
        },
        None => None,
    }
}

/// Reads one player.
pub open spec fn parse_player(b: Seq<u8>, pos: int) -> Option<(PlayerV, int)> {
    match parse_u64(b, pos) {
        Some((id, p1)) => match parse_str(b, p1) {
            Some((name, p2)) => match parse_i64(b, p2) {
                Some((px, p3)) => match parse_i64(b, p3) {
                    Some((py, p4)) => match parse_i64(b, p4) {
                        Some((rot, p5)) => match parse_player_type(b, p5) {
                            Some((pt, p6)) => Some(
                                (
                                    PlayerV {
                                        id,
                                        name,
                                        pos_x: px,
                                        pos_y: py,
                                        rotation: rot,
                                        player_type: pt,
                                    },
                                    p6,
                                ),
                            ),
                            None => None,
                        },
                        None => None,
                    },
                    None => None,
                },
                None => None,
            },
            None => None,
        },
        None => None,
    }
}

/// Reads `count` players, one after the other.
pub open spec fn parse_players(b: Seq<u8>, pos: int, count: nat) -> Option<(Seq<PlayerV>, int)>
    decreases count,
{
    if count == 0 {
        Some((Seq::empty(), pos))
    } else {
        match parse_player(b, pos) {
            Some((p, p1)) => match parse_players(b, p1, (count - 1) as nat) {
                Some((s, p2)) => Some((seq![p] + s, p2)),
                None => None,
            },
            None => None,
        }
    }
}

/// Reads one team.
pub open spec fn parse_team(b: Seq<u8>, pos: int) -> Option<(TeamV, int)> {
    match parse_u64(b, pos) {
        Some((id, p1)) => match parse_str(b, p1) {
            Some((name, p2)) => if p2 + 3 <= b.len() {
                let color = (b[p2], b[p2 + 1], b[p2 + 2]);
                let p3 = p2 + 3;
                match parse_bool(b, p3) {
                    Some((has_dispatcher, p4)) => {
                        let after_dispatcher: Option<(Option<PlayerV>, int)> = if has_dispatcher {
                            match parse_player(b, p4) {
                                Some((d, p5)) => Some((Some(d), p5)),
                                None => None,
                            }
                        } else {
                            Some((None, p4))
                        };
                        match after_dispatcher {
                            Some((dispatcher, p5)) => match parse_u64(b, p5) {
                                Some((count, p6)) => match parse_players(b, p6, count as nat) {
                                    Some((agents, p7)) => Some(
                                        (TeamV { id, name, color, dispatcher, agents }, p7),
                                    ),
                                    None => None,
                                },
                                None => None,
                            },
                            None => None,
                        }
                    },
                    None => None,
                }
            } else {
                None
            },
            None => None,
        },
        None => None,
    }
}

/// Reads `count` teams, one after the other.
pub open spec fn parse_teams(b: Seq<u8>, pos: int, count: nat) -> Option<(Seq<TeamV>, int)>
    decreases count,
{
    if count == 0 {
        Some((Seq::empty(), pos))
    } else {
        match parse_team(b, pos) {
            Some((t, p1)) => match parse_teams(b, p1, (count - 1) as nat) {
                Some((s, p2)) => Some((seq![t] + s, p2)),
                None => None,
            },
            None => None,
        }
    }
}

/// Reads the whole world model.
pub open spec fn parse_state(b: Seq<u8>, pos: int) -> Option<(GameStateV, int)> {
    match parse_bool(b, pos) {
        Some((game_started, p1)) => match parse_u64(b, p1) {
            Some((count, p2)) => match parse_teams(b, p2, count as nat) {
                Some((teams, p3)) => Some((GameStateV { teams, game_started }, p3)),
                None => None,
            },
            None => None,
        },
        None => None,
    }
}

/// Reads a whole client-message payload; every byte must belong to it.
pub open spec fn parse_client_msg(b: Seq<u8>) -> Option<ClientMsgV> {
    if b.len() < 1 {
        None
    } else if b[0] == 0 {
        match parse_input(b, 1) {
            Some((i, p)) => if p == b.len() {
                Some(ClientMsgV::Input(i))
            } else {
                None
            },
            None => None,
        }
    } else if b[0] == 1 {
        match parse_u64(b, 1) {
            Some((team_id, p1)) => match parse_player_type(b, p1) {
                Some((player_type, p2)) => match parse_str(b, p2) {
                    Some((name, p3)) => if p3 == b.len() {
                        Some(ClientMsgV::JoinTeam { team_id, player_type, name })
                    } else {
                        None
                    },
                    None => None,
                },
                None => None,
            },
            None => None,
        }
    } else if b[0] == 2 {
        match parse_str(b, 1) {
            Some((name, p)) => if p == b.len() {
                Some(ClientMsgV::SetName { name })
            } else {
                None
            },
            None => None,
        }
    } else {
        None
    }
}

/// Reads a whole server-message payload; every byte must belong to it.
pub open spec fn parse_server_msg(b: Seq<u8>) -> Option<ServerMsgV> {
    if b.len() < 1 {
        None
    } else if b[0] == 0 {
        match parse_u64(b, 1) {
            Some((id, p)) => if p == b.len() {
                Some(ServerMsgV::AssignId(id))
            } else {
                None
            },
            None => None,
        }
    } else if b[0] == 1 {
        match parse_state(b, 1) {
            Some((g, p)) => if p == b.len() {
                Some(ServerMsgV::GameState(g))
            } else {
                None
            },
            None => None,
        }
    } else if b[0] == 2 {
        match parse_sound(b, 1) {
            Some((e, p1)) => match parse_i64(b, p1) {
                Some((x, p2)) => match parse_i64(b, p2) {
                    Some((y, p3)) => if p3 == b.len() {
                        Some(ServerMsgV::PlaySound(e, FxVec2 { x: x as i64, y: y as i64 }))
                    } else {
                        None
                    },
                    None => None,
                },
                None => None,
            },
            None => None,
        }
    } else {
        None
    }
}

// ------------------------------------------------------------------
// round trips

/// A player whose fields fit their wire form: the name fits the length
/// prefix and the coordinates fit a signed 64-bit value.
pub open spec fn player_enc_ok(p: PlayerV) -> bool {
    &&& encode_utf8(p.name).len() <= 65535
    &&& -0x8000_0000_0000_0000 <= p.pos_x < 0x8000_0000_0000_0000
    &&& -0x8000_0000_0000_0000 <= p.pos_y < 0x8000_0000_0000_0000
    &&& -0x8000_0000_0000_0000 <= p.rotation < 0x8000_0000_0000_0000
}

/// A world whose list lengths fit their wire counters.
pub open spec fn state_enc_ok(g: GameStateV) -> bool {
    &&& g.teams.len() < 0x1_0000_0000_0000_0000
    &&& forall|i: int|
        0 <= i < g.teams.len() ==> (#[trigger] g.teams[i]).agents.len()
            < 0x1_0000_0000_0000_0000
}

/// A well-formed player fits its wire form.
proof fn lemma_wf_player_enc_ok(p: PlayerV)
    requires
        crate::player::player_wf(p),
    ensures
        player_enc_ok(p),
{
}

/// A buffer that holds a role byte parses back to the role.
proof fn lemma_parse_pt_prefix(b: Seq<u8>, pos: int, t: PlayerType)
    requires
        0 <= pos,
        pos + 1 <= b.len(),
        b.subrange(pos, pos + 1) == enc_player_type(t),
    ensures
        parse_player_type(b, pos) == Some((t, pos + 1)),
{
    assert(b[pos] == b.subrange(pos, pos + 1)[0]);
}

/// A buffer that holds a sound byte parses back to the sound.
proof fn lemma_parse_sound_prefix(b: Seq<u8>, pos: int, e: SoundEffect)
    requires
        0 <= pos,
        pos + 1 <= b.len(),
        b.subrange(pos, pos + 1) == enc_sound(e),
    ensures
        parse_sound(b, pos) == Some((e, pos + 1)),
{
    assert(b[pos] == b.subrange(pos, pos + 1)[0]);
}

/// A buffer that holds an input parses back to it.
proof fn lemma_parse_input_prefix(b: Seq<u8>, pos: int, i: ClientInput)
    requires
        0 <= pos,
        pos + 24 <= b.len(),
        b.subrange(pos, pos + 24) == enc_input(i),
    ensures
        parse_input(b, pos) == Some((i, pos + 24)),
{
    let e1 = enc_i64(i.x_input as int);
    let e2 = enc_i64(i.y_input as int);
    let e3 = enc_i64(i.rotation as int);
    lemma_le_bytes_len(i64_as_nat(i.x_input as int), 8);
    lemma_le_bytes_len(i64_as_nat(i.y_input as int), 8);
    lemma_le_bytes_len(i64_as_nat(i.rotation as int), 8);
    let w = enc_input(i);
    assert(w.subrange(0, 8) =~= e1);
    assert(w.subrange(8, 16) =~= e2);
    assert(w.subrange(16, 24) =~= e3);
    lemma_sub_sub(b, pos, w, 0, e1);
    lemma_sub_sub(b, pos, w, 8, e2);
    lemma_sub_sub(b, pos, w, 16, e3);
    lemma_parse_i64_prefix(b, pos, i.x_input as int);
    lemma_parse_i64_prefix(b, pos + 8, i.y_input as int);
    lemma_parse_i64_prefix(b, pos + 16, i.rotation as int);
}

/// A buffer that holds a player parses back to it.
proof fn lemma_parse_player_prefix(b: Seq<u8>, pos: int, p: PlayerV)
    requires
        0 <= pos,
        player_enc_ok(p),
        pos + enc_player(p).len() <= b.len(),
        b.subrange(pos, pos + enc_player(p).len()) == enc_player(p),
    ensures
        parse_player(b, pos) == Some((p, pos + enc_player(p).len())),
        enc_player(p).len() == 35 + encode_utf8(p.name).len(),
{
    let e1 = enc_u64(p.id);
    let e2 = enc_str(p.name);
    let e3 = enc_i64(p.pos_x);
    let e4 = enc_i64(p.pos_y);
    let e5 = enc_i64(p.rotation);
    let e6 = enc_player_type(p.player_type);
    let n = encode_utf8(p.name).len() as int;
    lemma_le_bytes_len(p.id as nat, 8);
    lemma_le_bytes_len(encode_utf8(p.name).len(), 2);
    lemma_le_bytes_len(i64_as_nat(p.pos_x), 8);
    lemma_le_bytes_len(i64_as_nat(p.pos_y), 8);
    lemma_le_bytes_len(i64_as_nat(p.rotation), 8);
    let w = enc_player(p);
    assert(w.len() == 35 + n);
    assert(w.subrange(0, 8) =~= e1);
    assert(w.subrange(8, 10 + n) =~= e2);
    assert(w.subrange(10 + n, 18 + n) =~= e3);
    assert(w.subrange(18 + n, 26 + n) =~= e4);
    assert(w.subrange(26 + n, 34 + n) =~= e5);
    assert(w.subrange(34 + n, 35 + n) =~= e6);
    lemma_sub_sub(b, pos, w, 0, e1);
    lemma_sub_sub(b, pos, w, 8, e2);
    lemma_sub_sub(b, pos, w, 10 + n, e3);
    lemma_sub_sub(b, pos, w, 18 + n, e4);
    lemma_sub_sub(b, pos, w, 26 + n, e5);
    lemma_sub_sub(b, pos, w, 34 + n, e6);
    lemma_parse_u64_prefix(b, pos, p.id);
    crate::wire::lemma_parse_str_prefix(b, pos + 8, p.name);
    lemma_parse_i64_prefix(b, pos + 10 + n, p.pos_x);
    lemma_parse_i64_prefix(b, pos + 18 + n, p.pos_y);
    lemma_parse_i64_prefix(b, pos + 26 + n, p.rotation);
    lemma_parse_pt_prefix(b, pos + 34 + n, p.player_type);
}

/// A buffer that holds a list of players parses back to it.
proof fn lemma_parse_players_prefix(b: Seq<u8>, pos: int, s: Seq<PlayerV>)
    requires
        0 <= pos,
        forall|k: int| 0 <= k < s.len() ==> player_enc_ok(#[trigger] s[k]),
        pos + enc_players(s).len() <= b.len(),
        b.subrange(pos, pos + enc_players(s).len()) == enc_players(s),
    ensures
        parse_players(b, pos, s.len()) == Some((s, pos + enc_players(s).len())),
    decreases s.len(),
{
    if s.len() == 0 {
        assert(parse_players(b, pos, 0) == Some((Seq::<PlayerV>::empty(), pos)));
        assert(s =~= Seq::<PlayerV>::empty());
    } else {
        let head = enc_player(s[0]);
        let tail = enc_players(s.drop_first());
        let w = enc_players(s);
        assert(w == head + tail);
        assert(w.subrange(0, head.len() as int) =~= head);
        assert(w.subrange(head.len() as int, w.len() as int) =~= tail);
        lemma_sub_sub(b, pos, w, 0, head);
        lemma_sub_sub(b, pos, w, head.len() as int, tail);
        lemma_parse_player_prefix(b, pos, s[0]);
        assert(forall|k: int|
            0 <= k < s.drop_first().len() ==> player_enc_ok(#[trigger] s.drop_first()[k]));
        lemma_parse_players_prefix(b, pos + head.len(), s.drop_first());
        assert(seq![s[0]] + s.drop_first() =~= s);
    }
}

/// A buffer that holds a team parses back to it.
#[verifier::rlimit(80)]
#[verifier::spinoff_prover]
proof fn lemma_parse_team_prefix(b: Seq<u8>, pos: int, t: TeamV)
    requires
        0 <= pos,
        team_wf(t),
        t.agents.len() < 0x1_0000_0000_0000_0000,
        pos + enc_team(t).len() <= b.len(),
        b.subrange(pos, pos + enc_team(t).len()) == enc_team(t),
    ensures
        parse_team(b, pos) == Some((t, pos + enc_team(t).len())),
{
    let e1 = enc_u64(t.id);
    let e2 = enc_str(t.name);
    let ec = seq![t.color.0, t.color.1, t.color.2];
    let ed: Seq<u8> = match t.dispatcher {
        None => seq![0u8],
        Some(p) => seq![1u8] + enc_player(p),
    };
    let en = enc_u64(t.agents.len() as u64);
    let ea = enc_players(t.agents);
    let n = encode_utf8(t.name).len() as int;
    lemma_le_bytes_len(t.id as nat, 8);
    lemma_le_bytes_len(encode_utf8(t.name).len(), 2);
    lemma_le_bytes_len(t.agents.len(), 8);
    let w = enc_team(t);
    let o2 = 8;
    let oc = 10 + n;
    let od = oc + 3;
    let on = od + ed.len() as int;
    let oa = on + 8;
    assert(w.len() == oa + ea.len());
    assert(w.subrange(0, 8) =~= e1);
    assert(w.subrange(o2, oc) =~= e2);
    assert(w.subrange(oc, od) =~= ec);
    assert(w.subrange(od, on) =~= ed);
    assert(w.subrange(on, oa) =~= en);
    assert(w.subrange(oa, w.len() as int) =~= ea);
    lemma_sub_sub(b, pos, w, 0, e1);
    lemma_sub_sub(b, pos, w, o2, e2);
    lemma_sub_sub(b, pos, w, oc, ec);
    lemma_sub_sub(b, pos, w, od, ed);
    lemma_sub_sub(b, pos, w, on, en);
    lemma_sub_sub(b, pos, w, oa, ea);
    lemma_parse_u64_prefix(b, pos, t.id);
    crate::wire::lemma_parse_str_prefix(b, pos + 8, t.name);
    // the three color bytes are read directly
    assert(b[pos + oc] == t.color.0) by {
        assert(b.subrange(pos + oc, pos + od)[0] == b[pos + oc]);
    }
    assert(b[pos + oc + 1] == t.color.1) by {
        assert(b.subrange(pos + oc, pos + od)[1] == b[pos + oc + 1]);
    }
    assert(b[pos + oc + 2] == t.color.2) by {
        assert(b.subrange(pos + oc, pos + od)[2] == b[pos + oc + 2]);
    }
    // the dispatcher slot: a presence byte, then the player when present
    match t.dispatcher {
        None => {
            assert(b[pos + od] == 0) by {
                assert(b.subrange(pos + od, pos + on)[0] == b[pos + od]);
            }
            assert(parse_bool(b, pos + od) == Some((false, pos + od + 1)));
        },
        Some(p) => {
            assert(b[pos + od] == 1) by {
                assert(b.subrange(pos + od, pos + on)[0] == b[pos + od]);
            }
            assert(parse_bool(b, pos + od) == Some((true, pos + od + 1)));
            let ep = enc_player(p);
            assert(ed.subrange(1, ed.len() as int) =~= ep);
            lemma_sub_sub(b, pos + od, ed, 1, ep);
            lemma_wf_player_enc_ok(p);
            lemma_parse_player_prefix(b, pos + od + 1, p);
        },
    }
    lemma_parse_u64_prefix(b, pos + on, t.agents.len() as u64);
    assert forall|k: int|
        0 <= k < t.agents.len() implies player_enc_ok(#[trigger] t.agents[k]) by {
        lemma_wf_player_enc_ok(t.agents[k]);
    }
    lemma_parse_players_prefix(b, pos + oa, t.agents);
    assert((t.agents.len() as u64) as nat == t.agents.len());
}

/// A buffer that holds a list of teams parses back to it.
proof fn lemma_parse_teams_prefix(b: Seq<u8>, pos: int, s: Seq<TeamV>)
    requires
        0 <= pos,
        forall|k: int|
            0 <= k < s.len() ==> team_wf(#[trigger] s[k]) && s[k].agents.len()
                < 0x1_0000_0000_0000_0000,
        pos + enc_teams(s).len() <= b.len(),
        b.subrange(pos, pos + enc_teams(s).len()) == enc_teams(s),
    ensures
        parse_teams(b, pos, s.len()) == Some((s, pos + enc_teams(s).len())),
    decreases s.len(),
{
    if s.len() == 0 {
        assert(parse_teams(b, pos, 0) == Some((Seq::<TeamV>::empty(), pos)));
        assert(s =~= Seq::<TeamV>::empty());
    } else {
        let head = enc_team(s[0]);
        let tail = enc_teams(s.drop_first());
        let w = enc_teams(s);
        assert(w == head + tail);
        assert(w.subrange(0, head.len() as int) =~= head);
        assert(w.subrange(head.len() as int, w.len() as int) =~= tail);
        lemma_sub_sub(b, pos, w, 0, head);
        lemma_sub_sub(b, pos, w, head.len() as int, tail);
        lemma_parse_team_prefix(b, pos, s[0]);
        assert(forall|k: int|
            0 <= k < s.drop_first().len() ==> team_wf(#[trigger] s.drop_first()[k])
                && s.drop_first()[k].agents.len() < 0x1_0000_0000_0000_0000);
        lemma_parse_teams_prefix(b, pos + head.len(), s.drop_first());
        assert(seq![s[0]] + s.drop_first() =~= s);
    }
}

/// A buffer that holds the whole world parses back to it.
proof fn lemma_parse_state_prefix(b: Seq<u8>, pos: int, g: GameStateV)
    requires
        0 <= pos,
        state_wf(g),
        state_enc_ok(g),
        pos + enc_state(g).len() <= b.len(),
        b.subrange(pos, pos + enc_state(g).len()) == enc_state(g),
    ensures
        parse_state(b, pos) == Some((g, pos + enc_state(g).len())),
{
    let eb = seq![if g.game_started { 1u8 } else { 0u8 }];
    let en = enc_u64(g.teams.len() as u64);
    let et = enc_teams(g.teams);
    lemma_le_bytes_len(g.teams.len(), 8);
    let w = enc_state(g);
    assert(w.subrange(0, 1) =~= eb);
    assert(w.subrange(1, 9) =~= en);
    assert(w.subrange(9, w.len() as int) =~= et);
    lemma_sub_sub(b, pos, w, 0, eb);
    lemma_sub_sub(b, pos, w, 1, en);
    lemma_sub_sub(b, pos, w, 9, et);
    assert(b[pos] == (if g.game_started { 1u8 } else { 0u8 })) by {
        assert(b.subrange(pos, pos + 1)[0] == b[pos]);
    }
    assert(parse_bool(b, pos) == Some((g.game_started, pos + 1)));
    lemma_parse_u64_prefix(b, pos + 1, g.teams.len() as u64);
    lemma_parse_teams_prefix(b, pos + 9, g.teams);
    assert((g.teams.len() as u64) as nat == g.teams.len());
}

/// A client message round-trips: parsing its encoding yields it back.
pub proof fn lemma_client_msg_round_trip(m: ClientMsgV)
    requires
        client_msg_encodable(m),
    ensures
        parse_client_msg(enc_client_msg(m)) == Some(m),
{
    let b = enc_client_msg(m);
    assert(b.subrange(0, b.len() as int) =~= b);
    match m {
        ClientMsgV::Input(i) => {
            lemma_le_bytes_len(i64_as_nat(i.x_input as int), 8);
            lemma_le_bytes_len(i64_as_nat(i.y_input as int), 8);
            lemma_le_bytes_len(i64_as_nat(i.rotation as int), 8);
            let w = enc_input(i);
            assert(b.subrange(1, 25) =~= w);
            assert(b[0] == 0);
            lemma_parse_input_prefix(b, 1, i);
        },
        ClientMsgV::JoinTeam { team_id, player_type, name } => {
            lemma_le_bytes_len(team_id as nat, 8);
            lemma_le_bytes_len(encode_utf8(name).len(), 2);
            assert(b[0] == 1);
            assert(b.subrange(1, 9) =~= enc_u64(team_id));
            assert(b.subrange(9, 10) =~= enc_player_type(player_type));
            assert(b.subrange(10, b.len() as int) =~= enc_str(name));
            lemma_parse_u64_prefix(b, 1, team_id);
            lemma_parse_pt_prefix(b, 9, player_type);
            crate::wire::lemma_parse_str_prefix(b, 10, name);
        },
        ClientMsgV::SetName { name } => {
            lemma_le_bytes_len(encode_utf8(name).len(), 2);
            assert(b[0] == 2);
            assert(b.subrange(1, b.len() as int) =~= enc_str(name));
            crate::wire::lemma_parse_str_prefix(b, 1, name);
        },
    }
}

/// A server message round-trips: parsing its encoding yields it back. A
/// carried world must be well-formed and its list lengths must fit their
/// wire counters.
pub proof fn lemma_server_msg_round_trip(m: ServerMsgV)
    requires
        server_msg_wf(m),
        m matches ServerMsgV::GameState(g) ==> state_enc_ok(g),
    ensures
        parse_server_msg(enc_server_msg(m)) == Some(m),
{
    let b = enc_server_msg(m);
    assert(b.subrange(0, b.len() as int) =~= b);
    match m {
        ServerMsgV::AssignId(id) => {
            lemma_le_bytes_len(id as nat, 8);
            assert(b[0] == 0);
            assert(b.subrange(1, 9) =~= enc_u64(id));
            lemma_parse_u64_prefix(b, 1, id);
        },
        ServerMsgV::GameState(g) => {
            assert(b[0] == 1);
            assert(b.subrange(1, b.len() as int) =~= enc_state(g));
            lemma_parse_state_prefix(b, 1, g);
        },
        ServerMsgV::PlaySound(e, p) => {
            lemma_le_bytes_len(i64_as_nat(p.x as int), 8);
            lemma_le_bytes_len(i64_as_nat(p.y as int), 8);
            assert(b[0] == 2);
            assert(b.subrange(1, 2) =~= enc_sound(e));
            assert(b.subrange(2, 10) =~= enc_i64(p.x as int));
            assert(b.subrange(10, 18) =~= enc_i64(p.y as int));
            lemma_parse_sound_prefix(b, 1, e);
            lemma_parse_i64_prefix(b, 2, p.x as int);
            lemma_parse_i64_prefix(b, 10, p.y as int);
        },
    }
}

// ------------------------------------------------------------------
// decoders

/// The values of a list of players.
pub open spec fn players_view(s: Seq<Player>) -> Seq<PlayerV> {
    s.map_values(|p: Player| p@)
}

/// The values of a list of teams.
pub open spec fn teams_view(s: Seq<Team>) -> Seq<TeamV> {
    s.map_values(|t: Team| t@)
}

/// Reads a role byte.
fn decode_player_type(b: &Vec<u8>, pos: usize) -> (r: Option<(PlayerType, usize)>)
    ensures
        match r {
            Some(v) => parse_player_type(b@, pos as int) == Some((v.0, v.1 as int)),
            None => parse_player_type(b@, pos as int) is None,
        },
{
    match read_u8(b, pos) {
        Some((tag, np)) => {
            if tag == 0 {
                Some((PlayerType::Dispatcher, np))
            } else if tag == 1 {
                Some((PlayerType::Agent, np))
            } else {
                None
            }
        },
        None => None,
    }
}

/// Reads a sound-effect byte.
fn decode_sound(b: &Vec<u8>, pos: usize) -> (r: Option<(SoundEffect, usize)>)
    ensures
        match r {
            Some(v) => parse_sound(b@, pos as int) == Some((v.0, v.1 as int)),
            None => parse_sound(b@, pos as int) is None,
        },
{
    match read_u8(b, pos) {
        Some((tag, np)) => {
            if tag == 0 {
                Some((SoundEffect::Explosion, np))
            } else if tag == 1 {
                Some((SoundEffect::Powerup, np))
            } else if tag == 2 {
                Some((SoundEffect::Gun, np))
            } else {
                None
            }
        },
        None => None,
    }
}

/// Reads a strict boolean byte.
fn decode_bool(b: &Vec<u8>, pos: usize) -> (r: Option<(bool, usize)>)
    ensures
        match r {
            Some(v) => parse_bool(b@, pos as int) == Some((v.0, v.1 as int)),
            None => parse_bool(b@, pos as int) is None,
        },
{
    match read_u8(b, pos) {
        Some((tag, np)) => {
            if tag == 0 {
                Some((false, np))
            } else if tag == 1 {
                Some((true, np))
            } else {
                None
            }
        },
        None => None,
    }
}

/// Reads an input.
fn decode_input(b: &Vec<u8>, pos: usize) -> (r: Option<(ClientInput, usize)>)
    ensures
        match r {
            Some(v) => parse_input(b@, pos as int) == Some((v.0, v.1 as int)),
            None => parse_input(b@, pos as int) is None,
        },
{
    match read_i64(b, pos) {
        Some((x, p1)) => match read_i64(b, p1) {
            Some((y, p2)) => match read_i64(b, p2) {
                Some((rot, p3)) => Some(
                    (ClientInput { x_input: x, y_input: y, rotation: rot }, p3),
                ),
                None => None,
            },
            None => None,
        },
        None => None,
    }
}

/// Reads one player.
fn decode_player(b: &Vec<u8>, pos: usize) -> (r: Option<(Player, usize)>)
    ensures
        match r {
            Some(v) => parse_player(b@, pos as int) == Some((v.0@, v.1 as int)),
            None => parse_player(b@, pos as int) is None,
        },
{
    match read_u64(b, pos) {
        Some((id, p1)) => match read_str(b, p1) {
            Some((name, p2)) => match read_i64(b, p2) {
                Some((px, p3)) => match read_i64(b, p3) {
                    Some((py, p4)) => match read_i64(b, p4) {
                        Some((rot, p5)) => match decode_player_type(b, p5) {
                            Some((pt, p6)) => Some(
                                (
                                    Player {
                                        id,
                                        name,
                                        position: FxVec2 { x: px, y: py },
                                        rotation: rot,
                                        player_type: pt,
                                    },
                                    p6,
                                ),
                            ),
                            None => None,
                        },
                        None => None,
                    },
                    None => None,
                },
                None => None,
            },
            None => None,
        },
        None => None,
    }
}

/// Reads `count` players.
fn decode_players(b: &Vec<u8>, pos: usize, count: u64) -> (r: Option<(Vec<Player>, usize)>)
    ensures
        match r {
            Some(v) => parse_players(b@, pos as int, count as nat) == Some(
                (players_view(v.0@), v.1 as int),
            ),
            None => parse_players(b@, pos as int, count as nat) is None,
        },
{
    let ghost pos0 = pos as int;
    let mut acc: Vec<Player> = Vec::new();
    let mut cur: usize = pos;
    let mut i: u64 = 0;
    proof {
        assert(players_view(acc@) =~= Seq::<PlayerV>::empty());
    }
    while i < count
        invariant
            i <= count,
            pos0 == pos as int,
            match parse_players(b@, pos0, count as nat) {
                Some(total) => parse_players(b@, cur as int, (count - i) as nat) matches Some(
                    rest,
                ) && total.0 == players_view(acc@) + rest.0 && total.1 == rest.1,
                None => parse_players(b@, cur as int, (count - i) as nat) is None,
            },
        decreases count - i,
    {
        let ghost rem = (count - i) as nat;
        let ghost old_cur = cur as int;
        match decode_player(b, cur) {
            Some((p, np)) => {
                let ghost prev_acc = players_view(acc@);
                acc.push(p);
                cur = np;
                proof {
                    assert(players_view(acc@) =~= prev_acc.push(p@));
                    let tail = parse_players(b@, np as int, (rem - 1) as nat);
                    if parse_players(b@, pos0, count as nat) is Some {
                        let rest = parse_players(b@, old_cur, rem)->0;
                        assert(tail is Some);
                        assert(rest.0 == seq![p@] + (tail->0).0);
                        assert(prev_acc + rest.0 =~= players_view(acc@) + (tail->0).0);
                    } else {
                        assert(parse_players(b@, old_cur, rem) is None);
                        assert(tail is None);
                    }
                }
            },
            None => {
                proof {
                    assert(parse_players(b@, old_cur, rem) is None);
                }
                return None;
            },
        }
        i += 1;
    }
    proof {
        if parse_players(b@, pos0, count as nat) is Some {
            assert(players_view(acc@) + Seq::<PlayerV>::empty() =~= players_view(acc@));
        }
    }
    Some((acc, cur))
}

/// Reads one team.
fn decode_team(b: &Vec<u8>, pos: usize) -> (r: Option<(Team, usize)>)
    ensures
        match r {
            Some(v) => parse_team(b@, pos as int) == Some((v.0@, v.1 as int)),
            None => parse_team(b@, pos as int) is None,
        },
{
    match read_u64(b, pos) {
        Some((id, p1)) => match read_str(b, p1) {
            Some((name, p2)) => match read_u8(b, p2) {
                Some((c0, q1)) => match read_u8(b, q1) {
                    Some((c1, q2)) => match read_u8(b, q2) {
                        Some((c2, p3)) => match decode_bool(b, p3) {
                            Some((has_dispatcher, p4)) => {
                                let dispatcher_parsed: Option<(Option<Player>, usize)> =
                                    if has_dispatcher {
                                    match decode_player(b, p4) {
                                        Some((d, p5)) => Some((Some(d), p5)),
                                        None => None,
                                    }
                                } else {
                                    Some((None, p4))
                                };
                                match dispatcher_parsed {
                                    Some((dispatcher, p5)) => match read_u64(b, p5) {
                                        Some((count, p6)) => match decode_players(b, p6, count) {
                                            Some((agents, p7)) => {
                                                let tm = Team {
                                                    id,
                                                    name,
                                                    color: (c0, c1, c2),
                                                    dispatcher,
                                                    agents,
                                                };
                                                proof {
                                                    assert(tm@.agents =~~= players_view(
                                                        tm.agents@,
                                                    ));
                                                }
                                                Some((tm, p7))
                                            },
                                            None => None,
                                        },
                                        None => None,
                                    },
                                    None => None,
                                }
                            },
                            None => None,
                        },
                        None => None,
                    },
                    None => None,
                },
                None => None,
            },
            None => None,
        },
        None => None,
    }
}

/// Reads `count` teams.
fn decode_teams(b: &Vec<u8>, pos: usize, count: u64) -> (r: Option<(Vec<Team>, usize)>)
    ensures
        match r {
            Some(v) => parse_teams(b@, pos as int, count as nat) == Some(
                (teams_view(v.0@), v.1 as int),
            ),
            None => parse_teams(b@, pos as int, count as nat) is None,
        },
{
    let ghost pos0 = pos as int;
    let mut acc: Vec<Team> = Vec::new();
    let mut cur: usize = pos;
    let mut i: u64 = 0;
    proof {
        assert(teams_view(acc@) =~= Seq::<TeamV>::empty());
    }
    while i < count
        invariant
            i <= count,
            pos0 == pos as int,
            match parse_teams(b@, pos0, count as nat) {
                Some(total) => parse_teams(b@, cur as int, (count - i) as nat) matches Some(
                    rest,
                ) && total.0 == teams_view(acc@) + rest.0 && total.1 == rest.1,
                None => parse_teams(b@, cur as int, (count - i) as nat) is None,
            },
        decreases count - i,
    {
        let ghost rem = (count - i) as nat;
        let ghost old_cur = cur as int;
        match decode_team(b, cur) {
            Some((t, np)) => {
                let ghost prev_acc = teams_view(acc@);
                acc.push(t);
                cur = np;
                proof {
                    assert(teams_view(acc@) =~= prev_acc.push(t@));
                    let tail = parse_teams(b@, np as int, (rem - 1) as nat);
                    if parse_teams(b@, pos0, count as nat) is Some {
                        let rest = parse_teams(b@, old_cur, rem)->0;
                        assert(tail is Some);
                        assert(rest.0 == seq![t@] + (tail->0).0);
                        assert(prev_acc + rest.0 =~= teams_view(acc@) + (tail->0).0);
                    } else {
                        assert(parse_teams(b@, old_cur, rem) is None);
                        assert(tail is None);
                    }
                }
            },
            None => {
                proof {
                    assert(parse_teams(b@, old_cur, rem) is None);
                }
                return None;
            },
        }
        i += 1;
    }
    proof {
        if parse_teams(b@, pos0, count as nat) is Some {
            assert(teams_view(acc@) + Seq::<TeamV>::empty() =~= teams_view(acc@));
        }
    }
    Some((acc, cur))
}

/// Reads the whole world model.
fn decode_state(b: &Vec<u8>, pos: usize) -> (r: Option<(GameState, usize)>)
    ensures
        match r {
            Some(v) => parse_state(b@, pos as int) == Some((v.0@, v.1 as int)),
            None => parse_state(b@, pos as int) is None,
        },
{
    match decode_bool(b, pos) {
        Some((game_started, p1)) => match read_u64(b, p1) {
            Some((count, p2)) => match decode_teams(b, p2, count) {
                Some((teams, p3)) => {
                    let st = GameState { teams, game_started };
                    proof {
                        assert(st@.teams =~~= teams_view(st.teams@));
                    }
                    Some((st, p3))
                },
                None => None,
            },
            None => None,
        },
        None => None,
    }
}

impl ServerMessage {
    /// Reads a whole server-message payload; fails unless exactly one
    /// message fills it.
    pub fn decode(b: &Vec<u8>) -> (r: Option<ServerMessage>)
        ensures
            match r {
                Some(m) => parse_server_msg(b@) == Some(m@),
                None => parse_server_msg(b@) is None,
            },
    {
        match read_u8(b, 0) {
            Some((tag, _)) => {
                if tag == 0 {
                    match read_u64(b, 1) {
                        Some((id, p)) => if p == b.len() {
                            Some(ServerMessage::AssignId(id))
                        } else {
                            None
                        },
                        None => None,
                    }
                } else if tag == 1 {
                    match decode_state(b, 1) {
                        Some((g, p)) => if p == b.len() {
                            Some(ServerMessage::GameState(g))
                        } else {
                            None
                        },
                        None => None,
                    }
                } else if tag == 2 {
                    match decode_sound(b, 1) {
                        Some((e, p1)) => match read_i64(b, p1) {
                            Some((x, p2)) => match read_i64(b, p2) {
                                Some((y, p3)) => if p3 == b.len() {
                                    Some(ServerMessage::PlaySound(e, FxVec2 { x, y }))
                                } else {
                                    None
                                },
                                None => None,
                            },
                            None => None,
                        },
                        None => None,
                    }
                } else {
                    None
                }
            },
            None => None,
        }
    }
}

impl ClientMessage {
    /// Reads a whole client-message payload; fails unless exactly one
    /// message fills it.
    pub fn decode(b: &Vec<u8>) -> (r: Option<ClientMessage>)
        ensures
            match r {
                Some(m) => parse_client_msg(b@) == Some(m@),
                None => parse_client_msg(b@) is None,
            },
    {
        match read_u8(b, 0) {
            Some((tag, _)) => {
                if tag == 0 {
                    match decode_input(b, 1) {
                        Some((i, p)) => if p == b.len() {
                            Some(ClientMessage::Input(i))
                        } else {
                            None
                        },
                        None => None,
                    }
                } else if tag == 1 {
                    match read_u64(b, 1) {
                        Some((team_id, p1)) => match decode_player_type(b, p1) {
                            Some((player_type, p2)) => match read_str(b, p2) {
                                Some((name, p3)) => if p3 == b.len() {
                                    Some(ClientMessage::JoinTeam { team_id, player_type, name })
                                } else {
                                    None
                                },
                                None => None,
                            },
                            None => None,
                        },
                        None => None,
                    }
                } else if tag == 2 {
                    match read_str(b, 1) {
                        Some((name, p)) => if p == b.len() {
                            Some(ClientMessage::SetName { name })
                        } else {
                            None
                        },
                        None => None,
                    }
                } else {
                    None
                }
            },
            None => None,
        }
    }
}

} // verus!
