//! Enumerations shared by the game's messages.
use vstd::prelude::*;

verus! {

/// How many players form a team.
#[derive(Copy, Clone, Debug, PartialEq, Eq, Structural)]
pub enum TeamSize {
    Solo,
    Duo,
    Trio,
    Squad,
}

impl TeamSize {
    /// The number of players.
    pub fn size(&self) -> (r: u8)
        ensures
            r == match self {
                TeamSize::Solo => 1u8,
                TeamSize::Duo => 2u8,
                TeamSize::Trio => 3u8,
                TeamSize::Squad => 4u8,
            },
    {
        match self {
            TeamSize::Solo => 1,
            TeamSize::Duo => 2,
            TeamSize::Trio => 3,
            TeamSize::Squad => 4,
        }
    }
}

/// The kinds of game objects.
#[derive(Copy, Clone, Debug, PartialEq, Eq, Hash, Structural)]
pub enum ObjectCategory {
    Player,
    Obstacle,
    DeathMarker,
    Loot,
    Building,
    Decal,
    Parachute,
    ThrowableProjectile,
    SyncedParticle,
}

/// How many object categories there are.
pub const OBJECT_CATEGORY_COUNT: usize = 9;

/// The position of a category in declaration order.
pub open spec fn category_index_spec(c: ObjectCategory) -> nat {
    match c {
        ObjectCategory::Player => 0,
        ObjectCategory::Obstacle => 1,
        ObjectCategory::DeathMarker => 2,
        ObjectCategory::Loot => 3,
        ObjectCategory::Building => 4,
        ObjectCategory::Decal => 5,
        ObjectCategory::Parachute => 6,
        ObjectCategory::ThrowableProjectile => 7,
        ObjectCategory::SyncedParticle => 8,
    }
}

impl ObjectCategory {
    /// The position of this category in declaration order.
    pub fn index(&self) -> (r: usize)
        ensures
            r == category_index_spec(*self),
            r < OBJECT_CATEGORY_COUNT,
    {
        match self {
            ObjectCategory::Player => 0,
            ObjectCategory::Obstacle => 1,
            ObjectCategory::DeathMarker => 2,
            ObjectCategory::Loot => 3,
            ObjectCategory::Building => 4,
            ObjectCategory::Decal => 5,
            ObjectCategory::Parachute => 6,
            ObjectCategory::ThrowableProjectile => 7,
            ObjectCategory::SyncedParticle => 8,
        }
    }
}

#[derive(Copy, Clone, Debug, PartialEq, Eq, Structural)]
pub enum AnimationType {
    NoAnimation,
    Melee,
    Downed,
    ThrowableCook,
    ThrowableThrow,
    GunFire,
    GunFireAlt,
    GunClick,
    LastShot,
    Revive,
}

#[derive(Copy, Clone, Debug, PartialEq, Eq, Structural)]
pub enum KillfeedMessageType {
    DeathOrDown,
    KillLeaderAssigned,
    KillLeaderDeadOrDisconnected,
    KillLeaderUpdated,
}

#[derive(Copy, Clone, Debug, PartialEq, Eq, Structural)]
pub enum GasState {
    Inactive,
    Waiting,
    Advancing,
}

#[derive(Copy, Clone, Debug, PartialEq, Eq, Structural)]
pub enum FireMode {
    Single,
    Burst,
    Auto,
}

#[derive(Copy, Clone, Debug, PartialEq, Eq, Structural)]
pub enum InputActions {
    EquipItem,
    EquipLastItem,
    DropWeapon,
    DropItem,
    SwapGunSlots,
    LockSlot,
    UnlockSlot,
    ToggleSlotLock,
    Interact,
    Reload,
    Cancel,
    UseItem,
    Emote,
    MapPing,
    Loot,
}

#[derive(Copy, Clone, Debug, PartialEq, Eq, Structural)]
pub enum SpectateActions {
    BeginSpectating,
    SpectatePrevious,
    SpectateNext,
    SpectateSpecific,
    SpectateKillLeader,
    Report,
}

#[derive(Copy, Clone, Debug, PartialEq, Eq, Structural)]
pub enum PlayerActions {
    NoAction,
    Reload,
    UseItem,
    Revive,
}

#[derive(Copy, Clone, Debug, PartialEq, Eq, Structural)]
pub enum KillfeedEventType {
    Suicide,
    NormalTwoParty,
    FinishedOff,
    FinallyKilled,
    Gas,
    BleedOut,
    Airdrop,
}

#[derive(Copy, Clone, Debug, PartialEq, Eq, Structural)]
pub enum KillfeedEventSeverity {
    Kill,
    Down,
}

/// Drawing layers, from the ground up.
#[derive(Copy, Clone, Debug, PartialEq, Eq, Structural)]
pub enum ZIndexes {
    Ground,
    UnderWaterDeathMarkers,
    UnderWaterDeadObstacles,
    UnderWaterObstacles,
    UnderWaterLoot,
    UnderwaterGroundedThrowables,
    UnderwaterDownedPlayers,
    UnderwaterPlayers,
    BuildingsFloor,
    Decals,
    DeadObstacles,
    DeathMarkers,
    /// The default layer for obstacles.
    ObstaclesLayer1,
    Loot,
    GroundedThrowables,
    ObstaclesLayer2,
    Bullets,
    DownedPlayers,
    Players,
    /// Bushes, tables and the like.
    ObstaclesLayer3,
    AirborneThrowables,
    /// Trees.
    ObstaclesLayer4,
    BuildingsCeiling,
    /// Obstacles that show above ceilings.
    ObstaclesLayer5,
    Emotes,
    Gas,
}

} // verus!
