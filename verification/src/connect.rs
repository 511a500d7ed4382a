//! Connecting and disconnecting sockets: the checks, the joint bookkeeping and how a creature
//! splits in two when a joint is removed.

use vstd::prelude::*;

use crate::parts::{CreatureKindId, SocketKindId};

verus! {

/// What a connection needs to know about one socket entity.
#[derive(Clone, Copy, Debug, PartialEq, Eq, Hash, Structural)]
pub struct SocketFacts {
    /// The socket kind, if the entity is a socket.
    pub kind: Option<SocketKindId>,
    /// Whether the socket is already connected.
    pub connected: bool,
    /// The part that the socket belongs to, if any.
    pub part: Option<u64>,
}

/// How two sockets get connected.
#[derive(Clone, Copy, Debug, PartialEq, Eq, Hash, Structural)]
pub struct ConnectPlan {
    /// The kind of both sockets, deciding the joint.
    pub socket_kind: SocketKindId,
    /// The part of the socket that stays in its creature.
    pub attached_part: u64,
    /// The part of the socket that joins the other creature.
    pub free_part: u64,
    /// The creature that the free part joins.
    pub creature: u64,
    /// The creature of the free part, if it has one: all of its parts and joints move over,
    /// and it is removed. Without one, the free part moves over. Either way the new joint
    /// becomes a joint of `creature`, which is the parent of all its parts and joints.
    pub free_creature: Option<u64>,
}

/// Command connecting an attached socket with a free socket.
#[derive(Clone, Copy, Debug, PartialEq, Eq, Hash, Structural)]
pub struct ConnectSockets {
    pub attached_socket: u64,
    pub free_socket: u64,
}

impl ConnectSockets {
    /// The plan that connecting two sockets follows, if they can be connected.
    pub open spec fn spec_plan(
        attached: SocketFacts,
        free: SocketFacts,
        attached_creature: Option<u64>,
        free_creature: Option<u64>,
    ) -> Option<ConnectPlan> {
        if attached.kind is Some && free.kind is Some && attached.kind == free.kind && !attached.connected
            && !free.connected && free.part is Some && attached.part is Some && attached_creature is Some
            && free_creature != attached_creature {
            Some(
                ConnectPlan {
                    socket_kind: attached.kind->0,
                    attached_part: attached.part->0,
                    free_part: free.part->0,
                    creature: attached_creature->0,
                    free_creature,
                },
            )
        } else {
            None
        }
    }

    /// What connecting two sockets needs: it never happens when either socket is already
    /// connected, when either is not a socket or their kinds differ, when either has no part,
    /// when the attached part has no creature, or when both parts are in the same creature;
    /// otherwise it happens, joining the free part to the attached part's creature with a joint
    /// of the sockets' kind.
    pub proof fn lemma_plan_rules(
        attached: SocketFacts,
        free: SocketFacts,
        attached_creature: Option<u64>,
        free_creature: Option<u64>,
    )
        ensures
            attached.connected ==> Self::spec_plan(attached, free, attached_creature, free_creature) is None,
            free.connected ==> Self::spec_plan(attached, free, attached_creature, free_creature) is None,
            attached.kind != free.kind ==> Self::spec_plan(attached, free, attached_creature, free_creature) is None,
            attached.kind is None ==> Self::spec_plan(attached, free, attached_creature, free_creature) is None,
            attached.part is None || free.part is None ==> Self::spec_plan(
                attached,
                free,
                attached_creature,
                free_creature,
            ) is None,
            attached_creature == free_creature ==> Self::spec_plan(attached, free, attached_creature, free_creature) is None,
            attached.kind is Some && attached.kind == free.kind && !attached.connected && !free.connected
                && attached.part is Some && free.part is Some && attached_creature is Some && attached_creature
                != free_creature ==> Self::spec_plan(attached, free, attached_creature, free_creature) == Some(
                ConnectPlan {
                    socket_kind: attached.kind->0,
                    attached_part: attached.part->0,
                    free_part: free.part->0,
                    creature: attached_creature->0,
                    free_creature,
                },
            ),
    {
    }

    /// Checks whether the attached socket (facts `attached`, its part in `attached_creature`)
    /// and the free socket (facts `free`, its part in `free_creature`) can be connected, and
    /// returns how.
    ///
    /// They cannot be connected when either is not a socket, their kinds differ, either is
    /// already connected, either has no part, the attached part has no creature, or both parts
    /// are in the same creature.
    pub fn plan(
        attached: &SocketFacts,
        free: &SocketFacts,
        attached_creature: Option<u64>,
        free_creature: Option<u64>,
    ) -> (r: Option<ConnectPlan>)
        ensures
            r == Self::spec_plan(*attached, *free, attached_creature, free_creature),
            attached.connected ==> r is None,
            free.connected ==> r is None,
            attached.kind != free.kind ==> r is None,
            attached_creature == free_creature ==> r is None,
            r matches Some(p) ==> {
                &&& attached.kind == Some(p.socket_kind)
                &&& free.kind == Some(p.socket_kind)
                &&& attached.part == Some(p.attached_part)
                &&& free.part == Some(p.free_part)
                &&& attached_creature == Some(p.creature)
                &&& p.free_creature == free_creature
            },
    {
        proof {
            Self::lemma_plan_rules(*attached, *free, attached_creature, free_creature);
        }
        let attached_kind = match attached.kind {
            Some(k) => k,
            None => return None,
        };
        let free_kind = match free.kind {
            Some(k) => k,
            None => return None,
        };
        if attached_kind != free_kind {
            return None;
        }
        if attached.connected || free.connected {
            return None;
        }
        let free_part = match free.part {
            Some(p) => p,
            None => return None,
        };
        let attached_part = match attached.part {
            Some(p) => p,
            None => return None,
        };
        let creature = match attached_creature {
            Some(c) => c,
            None => return None,
        };
        match free_creature {
            Some(fc) => {
                if fc == creature {
                    return None;
                }
            },
            None => {},
        }
        Some(
            ConnectPlan {
                socket_kind: attached_kind,
                attached_part,
                free_part,
                creature,
                free_creature,
            },
        )
    }
}

/// The first position of `socket` in `ids`, if it occurs.
pub open spec fn first_position(ids: Seq<u64>, socket: u64) -> Option<int> {
    if exists|i: int| 0 <= i < ids.len() && ids[i] == socket && forall|j: int| 0 <= j < i ==> ids[j] != socket {
        Some(choose|i: int| 0 <= i < ids.len() && ids[i] == socket && forall|j: int| 0 <= j < i ==> ids[j] != socket)
    } else {
        None
    }
}

/// Returns the index of the socket entity `socket` among the socket entities `ids` of its part.
pub fn socket_index(ids: &Vec<u64>, socket: u64) -> (r: Option<u8>)
    ensures
        match first_position(ids@, socket) {
            Some(i) => r == Some(i as u8),
            None => r is None && !ids@.contains(socket),
        },
{
    let mut i: usize = 0;
    while i < ids.len()
        invariant
            i <= ids.len(),
            forall|j: int| 0 <= j < i ==> ids@[j] != socket,
        decreases ids.len() - i,
    {
        if ids[i] == socket {
            proof {
                let c = choose|c: int|
                    0 <= c < ids.len() && ids@[c] == socket && forall|j: int| 0 <= j < c ==> ids@[j] != socket;
                assert(0 <= i < ids.len() && ids@[i as int] == socket);
                if c < i {
                } else if c > i {
                    assert(ids@[i as int] != socket);
                }
            }
            return Some(i as u8);
        }
        i += 1;
    }
    None
}

/// Joint bookkeeping: socket `socket_a` of part `part_a` is connected to socket `socket_b` of
/// part `part_b`.
#[derive(Clone, Copy, Debug, PartialEq, Eq, Hash, Structural)]
pub struct CreatureJoint {
    pub part_a: u64,
    pub socket_a: u8,
    pub part_b: u64,
    pub socket_b: u8,
}

/// A line drawn between two entities.
#[derive(Clone, Copy, Debug, PartialEq, Eq, Hash, Structural)]
pub struct LineSegment {
    /// The line entity itself.
    pub line: u64,
    pub start: u64,
    pub end: u64,
}

/// Returns the first line that starts or ends at `socket`, which goes away when the socket is
/// disconnected.
pub fn first_line_touching(lines: &Vec<LineSegment>, socket: u64) -> (r: Option<u64>)
    ensures
        match r {
            Some(l) => exists|i: int|
                0 <= i < lines.len() && (lines@[i].start == socket || lines@[i].end == socket) && lines@[i].line
                    == l && forall|j: int| 0 <= j < i ==> !(lines@[j].start == socket || lines@[j].end == socket),
            None => forall|i: int| 0 <= i < lines.len() ==> !(lines@[i].start == socket || lines@[i].end == socket),
        },
{
    let mut i: usize = 0;
    while i < lines.len()
        invariant
            i <= lines.len(),
            forall|j: int| 0 <= j < i ==> !(lines@[j].start == socket || lines@[j].end == socket),
        decreases lines.len() - i,
    {
        if lines[i].start == socket || lines[i].end == socket {
            return Some(lines[i].line);
        }
        i += 1;
    }
    None
}

/// How a creature splits in two when a joint between part `part1` and part `part2` goes away.
#[derive(Clone, Debug, PartialEq, Eq)]
pub struct SplitPlan {
    /// The part of the half that stays in the creature.
    pub larger_head: u64,
    /// The part of the half that becomes a new creature.
    pub smaller_head: u64,
    /// All parts of the half that becomes a new creature.
    pub smaller_parts: Vec<u64>,
    /// Total power of that half.
    pub smaller_power: u32,
    /// Kind of the new creature.
    pub smaller_kind: CreatureKindId,
    /// The creature's head moved away with the smaller half, so `larger_head` becomes its head.
    pub reassign_larger_head: bool,
    /// `smaller_head` becomes the head of the new creature.
    pub assign_smaller_head: bool,
}

/// Command disconnecting a socket from the socket it is connected to.
#[derive(Clone, Copy, Debug, PartialEq, Eq, Hash, Structural)]
pub struct DisconnectSocket {
    pub connected_socket: u64,
}

impl DisconnectSocket {
    /// Decides how a creature splits after the joint between `part1` (the part of the
    /// disconnected socket) and `part2` goes away, given the parts `connected1` and `connected2`
    /// still connected to each of them, with total powers `power1` and `power2`, and the current
    /// head of the creature, if it has one.
    ///
    /// The half with more power stays; on a tie the half of `part1` stays. A new creature made
    /// of only a heart (no power) is heart-only, any other is player-friendly.
    pub fn plan(
        part1: u64,
        part2: u64,
        connected1: Vec<u64>,
        power1: u32,
        connected2: Vec<u64>,
        power2: u32,
        current_head: Option<u64>,
    ) -> (r: SplitPlan)
        ensures
            power1 < power2 ==> r.larger_head == part2 && r.smaller_head == part1 && r.smaller_parts@
                == connected1@ && r.smaller_power == power1,
            power1 >= power2 ==> r.larger_head == part1 && r.smaller_head == part2 && r.smaller_parts@
                == connected2@ && r.smaller_power == power2,
            r.smaller_kind == if r.smaller_power == 0 {
                CreatureKindId::HeartOnly
            } else {
                CreatureKindId::PlayerFriendly
            },
            r.assign_smaller_head == current_head is Some,
            r.reassign_larger_head == (current_head is Some && r.smaller_parts@.contains(current_head->0)),
    {
        let (larger_head, smaller_head, smaller_parts, smaller_power) = if power1 < power2 {
            (part2, part1, connected1, power1)
        } else {
            (part1, part2, connected2, power2)
        };
        let smaller_kind = if smaller_power == 0 {
            CreatureKindId::HeartOnly
        } else {
            CreatureKindId::PlayerFriendly
        };
        let (reassign_larger_head, assign_smaller_head) = match current_head {
            Some(head) => {
                let mut found = false;
                let mut i: usize = 0;
                while i < smaller_parts.len()
                    invariant
                        i <= smaller_parts.len(),
                        found == exists|j: int| 0 <= j < i && smaller_parts@[j] == head,
                    decreases smaller_parts.len() - i,
                {
                    if smaller_parts[i] == head {
                        found = true;
                    }
                    i += 1;
                }
                (found, true)
            },
            None => (false, false),
        };
        SplitPlan {
            larger_head,
            smaller_head,
            smaller_parts,
            smaller_power,
            smaller_kind,
            reassign_larger_head,
            assign_smaller_head,
        }
    }
}

} // verus!
