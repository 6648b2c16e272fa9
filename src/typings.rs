//! Shapes of the game's messages and settings.
use crate::constants::TeamSize;
use vstd::prelude::*;

verus! {

/// A quarter turn.
#[derive(Copy, Clone, Debug, PartialEq, Eq, Structural)]
pub enum Orientation {
    Up,
    Right,
    Down,
    Left,
}

/// The position of an orientation in quarter turns: `Up` 0 to `Left` 3.
pub open spec fn quarter_turns(o: Orientation) -> nat {
    match o {
        Orientation::Up => 0,
        Orientation::Right => 1,
        Orientation::Down => 2,
        Orientation::Left => 3,
    }
}

impl Orientation {
    fn turns(self) -> (r: u8)
        ensures
            r == quarter_turns(self),
    {
        match self {
            Orientation::Up => 0,
            Orientation::Right => 1,
            Orientation::Down => 2,
            Orientation::Left => 3,
        }
    }
    /// The orientation whose quarter turns are the sum of both operands'; a sum
    /// past `Left` gives `Up`.
    pub fn add(self, rhs: Orientation) -> (r: Orientation)
        ensures
            quarter_turns(r) == if quarter_turns(self) + quarter_turns(rhs) <= 3 {
                quarter_turns(self) + quarter_turns(rhs)
            } else {
                0
            },
    {
        let added = self.turns() + rhs.turns() % 4;
        match added {
            0 => Orientation::Up,
            1 => Orientation::Right,
            2 => Orientation::Down,
            3 => Orientation::Left,
            _ => Orientation::Up,
        }
    }
}

/// A visual variation of an object.
#[derive(Copy, Clone, Debug, PartialEq, Eq, Structural)]
pub enum Variant {
    A,
    B,
    C,
    D,
    E,
    F,
    G,
    H,
}

#[derive(Copy, Clone, Debug, PartialEq, Eq, Structural)]
pub enum GameRejectType {
    Warn,
    Temp,
    Perma,
}

/// The answer to a request to join a game.
#[derive(Clone, Debug)]
pub enum GameResponse {
    Success { game_id: u32 },
    Failure { message: GameRejectType, reason: String, report_id: String },
}

/// A player of a custom team, as the team's messages describe it.
#[derive(Clone, Debug)]
pub struct CustomTeamPlayerInfo<'a> {
    id: u32,
    is_leader: Option<bool>,
    name: &'a str,
    skin: &'a str,
    badge: Option<&'a str>,
    name_color: Option<i32>,
}

/// A message about a custom team.
#[derive(Clone, Debug)]
pub enum CustomTeamMessage<'a> {
    Join {
        id: u32,
        team_id: String,
        is_leader: bool,
        auto_fill: bool,
        locked: bool,
        players: &'a [CustomTeamPlayerInfo<'a>],
    },
    PlayerJoin(CustomTeamPlayerInfo<'a>),
    PlayerLeave { id: u32, new_leader_id: Option<u32> },
    Settings { auto_fill: Option<bool>, locked: Option<bool> },
    Start,
    Started,
}

/// Timings and damage of airdrops.
#[derive(Copy, Clone, Debug, PartialEq, Eq, Structural)]
pub struct AirdropGameConstants {
    pub fall_time: u16,
    pub fly_time: u16,
    pub damage: u16,
}

#[derive(Copy, Clone, Debug, PartialEq, Eq, Structural)]
pub enum SpawnMode {
    Normal,
    Radius,
    Fixed,
    Center,
}

#[derive(Copy, Clone, Debug, PartialEq, Eq, Structural)]
pub enum GasMode {
    Normal,
    Debug,
    Disabled,
}

/// The largest team: fixed, or switching on a schedule.
#[derive(Clone, Debug)]
pub enum MaxTeamSize<'a> {
    Constant(TeamSize),
    Switch { switch_schedule: &'a str, rotation: &'a [TeamSize] },
}

#[derive(Clone, Debug)]
pub struct SSLOptions<'a> {
    pub key_file: &'a str,
    pub cert_file: &'a str,
}

#[derive(Copy, Clone, Debug)]
pub struct GasSettings {
    pub mode: GasMode,
    pub override_position: Option<bool>,
    pub override_duration: Option<u8>,
}

#[derive(Copy, Clone, Debug, PartialEq, Eq, Structural)]
pub struct MaxJoinAttempts {
    pub count: u8,
    pub duration: u16,
}

#[derive(Clone, Debug)]
pub struct Punishments<'a> {
    pub password: &'a str,
    pub url: Option<&'a str>,
}

#[derive(Clone, Debug)]
pub struct Protection<'a> {
    pub max_simultaneous_connections: Option<u8>,
    pub max_join_attempts: Option<MaxJoinAttempts>,
    pub punishments: Option<Punishments<'a>>,
    pub refresh_duration: Option<u16>,
    pub ip_blocklist_url: Option<&'a str>,
}

#[derive(Clone, Debug)]
pub struct AuthServer<'a> {
    pub address: &'a str,
}

#[derive(Clone, Debug)]
pub struct Role<'a> {
    pub password: &'a str,
    pub is_dev: bool,
}

} // verus!
