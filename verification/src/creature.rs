//! Creature-level rules: power and depth levels, depth layers, control and game states.

use vstd::prelude::*;

use crate::assets::MaterialId;
use crate::parts::{CreatureKindId, CreaturePartKindId};

verus! {

/// Creature power required per increased depth level.
pub const DEPTH_LEVEL_POWER: u32 = 32;

/// Returns the maximum depth level that a creature with a power value of `power` can exist at.
pub fn max_depth_from_power(power: u32) -> (d: u16)
    ensures
        d == (power / DEPTH_LEVEL_POWER) as u16,
{
    (power / DEPTH_LEVEL_POWER) as u16
}

/// The total power of a creature made of parts of the kinds `kinds`.
pub open spec fn total_power(kinds: Seq<CreaturePartKindId>) -> nat
    decreases kinds.len(),
{
    if kinds.len() == 0 {
        0
    } else {
        total_power(kinds.drop_last()) + kinds.last().power()
    }
}

/// No part has more power than [`DEPTH_LEVEL_POWER`], so a creature has at most that much per part.
pub proof fn lemma_total_power_bounded(kinds: Seq<CreaturePartKindId>)
    ensures
        total_power(kinds) <= DEPTH_LEVEL_POWER * kinds.len(),
    decreases kinds.len(),
{
    if kinds.len() > 0 {
        lemma_total_power_bounded(kinds.drop_last());
    }
}

/// Returns the total power of the parts of the kinds `kinds`.
pub fn power_of_parts(kinds: &Vec<CreaturePartKindId>) -> (p: u32)
    requires
        kinds.len() <= u32::MAX / DEPTH_LEVEL_POWER,
    ensures
        p == total_power(kinds@),
{
    let mut p: u32 = 0;
    let mut i: usize = 0;
    while i < kinds.len()
        invariant
            i <= kinds.len(),
            kinds.len() <= u32::MAX / DEPTH_LEVEL_POWER,
            p == total_power(kinds@.take(i as int)),
        decreases kinds.len() - i,
    {
        proof {
            assert(kinds@.take(i + 1).drop_last() =~= kinds@.take(i as int));
            lemma_total_power_bounded(kinds@.take(i + 1));
        }
        p = p + kinds[i].metadata().power as u32;
        i += 1;
    }
    assert(kinds@.take(kinds.len() as int) =~= kinds@);
    p
}

/// Returns the maximum depth level of the player creature made of parts of the kinds `kinds`.
pub fn max_depth_of_parts(kinds: &Vec<CreaturePartKindId>) -> (d: u16)
    requires
        kinds.len() <= u32::MAX / DEPTH_LEVEL_POWER,
    ensures
        d == (total_power(kinds@) / DEPTH_LEVEL_POWER as nat) as u16,
{
    max_depth_from_power(power_of_parts(kinds))
}

/// The depth layer that a creature is in relative to the current depth of the player.
#[derive(Clone, Copy, Debug, PartialEq, Eq, Hash, Structural)]
pub enum RelativeDepthLayer {
    /// The same depth as the player: fully interactive.
    Active,
    /// One level below the player: visible in the background.
    Background,
    /// Any other depth: neither visible nor simulated.
    Inactive,
}

impl RelativeDepthLayer {
    /// The layer of a creature at `depth` when the player is at `player_depth`.
    pub open spec fn spec_from_cmp(depth: u16, player_depth: u16) -> RelativeDepthLayer {
        if depth == player_depth {
            RelativeDepthLayer::Active
        } else if depth == player_depth + 1 {
            RelativeDepthLayer::Background
        } else {
            RelativeDepthLayer::Inactive
        }
    }

    /// Returns the layer of a creature at `depth` when the player is at `player_depth`.
    pub fn from_cmp(depth: u16, player_depth: u16) -> (l: RelativeDepthLayer)
        requires
            player_depth < u16::MAX,
        ensures
            l == Self::spec_from_cmp(depth, player_depth),
    {
        if depth == player_depth {
            RelativeDepthLayer::Active
        } else if depth == player_depth + 1 {
            RelativeDepthLayer::Background
        } else {
            RelativeDepthLayer::Inactive
        }
    }
}

/// Returns the depth of the player after one frame of input, given its current `depth`,
/// its `max_depth` and whether the up and down keys were just pressed.
///
/// Pressing both keys, or neither, keeps the depth.
pub fn next_player_depth(depth: u16, max_depth: u16, up_pressed: bool, down_pressed: bool) -> (d: u16)
    ensures
        depth <= max_depth ==> d <= max_depth,
        d == if up_pressed && !down_pressed {
            if depth == 0 {
                0
            } else {
                (depth - 1) as u16
            }
        } else if down_pressed && !up_pressed {
            if depth == u16::MAX {
                max_depth
            } else if depth + 1 <= max_depth {
                (depth + 1) as u16
            } else {
                max_depth
            }
        } else {
            depth
        },
{
    if up_pressed && !down_pressed {
        depth.saturating_sub(1)
    } else if down_pressed && !up_pressed {
        let next = depth.saturating_add(1);
        if next < max_depth {
            next
        } else {
            max_depth
        }
    } else {
        depth
    }
}

/// The attacking intent of a creature.
#[derive(Clone, Copy, Debug, PartialEq, Eq, Hash, Structural)]
pub enum AttackMode {
    /// No attack.
    NoAttack,
    /// Attack with no target.
    WithoutTarget,
    /// Attack aimed at a target position.
    WithTarget,
}

/// Returns the attacking intent of the player from the aimed and not aimed attack buttons.
///
/// The aimed button wins when both are held.
pub fn attack_mode(aimed_pressed: bool, not_aimed_pressed: bool) -> (m: AttackMode)
    ensures
        m == if aimed_pressed {
            AttackMode::WithTarget
        } else if not_aimed_pressed {
            AttackMode::WithoutTarget
        } else {
            AttackMode::NoAttack
        },
{
    if aimed_pressed {
        AttackMode::WithTarget
    } else if not_aimed_pressed {
        AttackMode::WithoutTarget
    } else {
        AttackMode::NoAttack
    }
}

/// Creatures of these kinds have sockets that the player can pick and drag.
pub open spec fn spec_is_pickable(kind: CreatureKindId) -> bool {
    kind == CreatureKindId::Player || kind == CreatureKindId::PlayerFriendly || kind
        == CreatureKindId::HeartOnly
}

/// Returns whether the sockets of a creature of `kind` can be picked by the player.
pub fn is_pickable(kind: CreatureKindId) -> (r: bool)
    ensures
        r == spec_is_pickable(kind),
{
    match kind {
        CreatureKindId::Player | CreatureKindId::PlayerFriendly | CreatureKindId::HeartOnly => true,
        _ => false,
    }
}

/// The shared material of a part of a creature of `kind`, depending on whether it is the head.
pub open spec fn spec_part_material(is_head: bool, kind: CreatureKindId) -> MaterialId {
    if is_head {
        match kind {
            CreatureKindId::Player => MaterialId::PartHeadPlayer,
            CreatureKindId::PlayerFriendly => MaterialId::PartHeadPlayerFriendly,
            CreatureKindId::Wandering => MaterialId::PartHeadWandering,
            CreatureKindId::Hostile => MaterialId::PartHeadHostile,
            CreatureKindId::HeartOnly => MaterialId::PartHeadHeartOnly,
        }
    } else {
        match kind {
            CreatureKindId::Player => MaterialId::PartPlayer,
            CreatureKindId::PlayerFriendly => MaterialId::PartPlayerFriendly,
            CreatureKindId::Wandering => MaterialId::PartWandering,
            _ => MaterialId::PartHostile,
        }
    }
}

/// The material of a part tells its creature's kind and whether it is the head: parts of
/// creatures of different kinds look different (a heart-only creature has only its head), and a
/// head never looks like a part that is not one. The player's own parts keep the player's
/// materials, and those of friendly creatures the friendly ones.
pub proof fn lemma_part_materials_tell_apart(h1: bool, k1: CreatureKindId, h2: bool, k2: CreatureKindId)
    requires
        h1 || k1 != CreatureKindId::HeartOnly,
        h2 || k2 != CreatureKindId::HeartOnly,
    ensures
        spec_part_material(h1, k1) == spec_part_material(h2, k2) ==> h1 == h2 && k1 == k2,
        spec_part_material(true, CreatureKindId::Player) == MaterialId::PartHeadPlayer,
        spec_part_material(false, CreatureKindId::Player) == MaterialId::PartPlayer,
        spec_part_material(true, CreatureKindId::PlayerFriendly) == MaterialId::PartHeadPlayerFriendly,
        spec_part_material(false, CreatureKindId::PlayerFriendly) == MaterialId::PartPlayerFriendly,
{
}

/// Returns the shared material of a part of a creature of `kind`.
///
/// A heart-only creature has no part besides its head.
pub fn part_material(is_head: bool, kind: CreatureKindId) -> (m: MaterialId)
    requires
        is_head || kind != CreatureKindId::HeartOnly,
    ensures
        m == spec_part_material(is_head, kind),
{
    if is_head {
        match kind {
            CreatureKindId::Player => MaterialId::PartHeadPlayer,
            CreatureKindId::PlayerFriendly => MaterialId::PartHeadPlayerFriendly,
            CreatureKindId::Wandering => MaterialId::PartHeadWandering,
            CreatureKindId::Hostile => MaterialId::PartHeadHostile,
            CreatureKindId::HeartOnly => MaterialId::PartHeadHeartOnly,
        }
    } else {
        match kind {
            CreatureKindId::Player => MaterialId::PartPlayer,
            CreatureKindId::PlayerFriendly => MaterialId::PartPlayerFriendly,
            CreatureKindId::Wandering => MaterialId::PartWandering,
            _ => MaterialId::PartHostile,
        }
    }
}

/// The current state of the game.
#[derive(Clone, Copy, Debug, PartialEq, Eq, Hash, Structural)]
pub enum GameState {
    Playing,
    Paused,
}

impl GameState {
    /// Returns the state after the pause key toggles it.
    pub fn toggled(self) -> (s: GameState)
        ensures
            s == if self == GameState::Playing {
                GameState::Paused
            } else {
                GameState::Playing
            },
    {
        match self {
            GameState::Playing => GameState::Paused,
            GameState::Paused => GameState::Playing,
        }
    }
}

/// Whether the player is playing, building, or dragging a socket while building.
#[derive(Clone, Copy, Debug, PartialEq, Eq, Hash, Structural)]
pub enum BuildingState {
    Playing,
    Building,
    Dragging,
}

impl BuildingState {
    /// Returns the state after the build key toggles it, and whether picking is enabled
    /// after the toggle.
    ///
    /// Playing turns into building with picking enabled; building or dragging turns into playing
    /// with picking disabled.
    pub fn toggled(self) -> (r: (BuildingState, bool))
        ensures
            r == if self == BuildingState::Playing {
                (BuildingState::Building, true)
            } else {
                (BuildingState::Playing, false)
            },
    {
        match self {
            BuildingState::Playing => (BuildingState::Building, true),
            _ => (BuildingState::Playing, false),
        }
    }
}

/// A creature has no power exactly when all its parts are hearts.
pub proof fn lemma_powerless_iff_hearts(kinds: Seq<CreaturePartKindId>)
    ensures
        (total_power(kinds) == 0) == (forall|i: int| 0 <= i < kinds.len() ==> #[trigger] kinds[i] == CreaturePartKindId::Heart),
    decreases kinds.len(),
{
    if kinds.len() > 0 {
        lemma_powerless_iff_hearts(kinds.drop_last());
        crate::parts::lemma_only_hearts_are_powerless(kinds.last());
        if total_power(kinds) == 0 {
            assert forall|i: int| 0 <= i < kinds.len() implies #[trigger] kinds[i] == CreaturePartKindId::Heart by {
                if i < kinds.len() - 1 {
                    assert(kinds.drop_last()[i] == kinds[i]);
                }
            }
        }
        if forall|i: int| 0 <= i < kinds.len() ==> #[trigger] kinds[i] == CreaturePartKindId::Heart {
            assert forall|i: int| 0 <= i < kinds.drop_last().len() implies #[trigger] kinds.drop_last()[i]
                == CreaturePartKindId::Heart by {
                assert(kinds.drop_last()[i] == kinds[i]);
            }
            assert(kinds[kinds.len() - 1] == CreaturePartKindId::Heart);
        }
    }
}

} // verus!
