//! Creature blueprints: parts listed by kind, and joints between their sockets by index.

use vstd::prelude::*;

use crate::parts::{CreaturePartKindId, SocketKindId};

verus! {

/// A joint between socket `socket_a` of part `part_a` and socket `socket_b` of part `part_b`,
/// both parts given by their index in the creature's part list.
#[derive(Clone, Copy, Debug, PartialEq, Eq, Hash, Structural)]
pub struct JointSave {
    pub part_a: u16,
    pub socket_a: u8,
    pub part_b: u16,
    pub socket_b: u8,
}

/// The kind of socket `socket` of part `part` in a creature made of parts of the kinds `kinds`,
/// if that socket exists.
pub open spec fn socket_of(kinds: Seq<CreaturePartKindId>, part: u16, socket: u8) -> Option<SocketKindId> {
    if part < kinds.len() && socket < kinds[part as int].sockets().len() {
        Some(kinds[part as int].sockets()[socket as int])
    } else {
        None
    }
}

/// Both ends of every joint, in joint order: the `a` end, then the `b` end.
pub open spec fn joint_ends(joints: Seq<JointSave>) -> Seq<(u16, u8)> {
    Seq::new(
        2 * joints.len(),
        |k: int|
            if k % 2 == 0 {
                (joints[k / 2].part_a, joints[k / 2].socket_a)
            } else {
                (joints[k / 2].part_b, joints[k / 2].socket_b)
            },
    )
}

/// Every joint connects two existing sockets of the same kind, and no socket has two joints.
pub open spec fn joints_wf(kinds: Seq<CreaturePartKindId>, joints: Seq<JointSave>) -> bool {
    &&& forall|i: int|
        0 <= i < joints.len() ==> {
            &&& (#[trigger] socket_of(kinds, joints[i].part_a, joints[i].socket_a)) is Some
            &&& socket_of(kinds, joints[i].part_a, joints[i].socket_a) == socket_of(
                kinds,
                joints[i].part_b,
                joints[i].socket_b,
            )
        }
    &&& joint_ends(joints).no_duplicates()
}

/// Command connecting two sockets with a joint, without any check.
#[derive(Clone, Copy, Debug, PartialEq, Eq, Hash, Structural)]
pub struct ConnectSocketsUnchecked {
    pub first_socket: u64,
    pub second_socket: u64,
}

/// Every joint names an existing socket entity at both ends, given the socket entities of
/// every part.
pub open spec fn joints_resolvable(sockets: Seq<Seq<u64>>, joints: Seq<JointSave>) -> bool {
    forall|i: int|
        0 <= i < joints.len() ==> {
            &&& (#[trigger] joints[i]).part_a < sockets.len()
            &&& joints[i].socket_a < sockets[joints[i].part_a as int].len()
            &&& joints[i].part_b < sockets.len()
            &&& joints[i].socket_b < sockets[joints[i].part_b as int].len()
        }
}

/// Returns, for every joint of a spawned creature, the command connecting the two socket
/// entities it names, given the socket entities of every spawned part.
pub fn resolve_joints(sockets: &Vec<Vec<u64>>, joints: &Vec<JointSave>) -> (cmds: Vec<ConnectSocketsUnchecked>)
    requires
        joints_resolvable(Seq::new(sockets.len() as nat, |p: int| sockets[p]@), joints@),
    ensures
        cmds.len() == joints.len(),
        forall|i: int|
            0 <= i < joints.len() ==> #[trigger] cmds[i] == (ConnectSocketsUnchecked {
                first_socket: sockets[joints[i].part_a as int][joints[i].socket_a as int],
                second_socket: sockets[joints[i].part_b as int][joints[i].socket_b as int],
            }),
{
    let ghost socks = Seq::new(sockets.len() as nat, |p: int| sockets[p]@);
    let mut cmds: Vec<ConnectSocketsUnchecked> = Vec::new();
    let mut i: usize = 0;
    while i < joints.len()
        invariant
            socks == Seq::new(sockets.len() as nat, |p: int| sockets[p]@),
            joints_resolvable(socks, joints@),
            i <= joints.len(),
            cmds.len() == i,
            forall|t: int|
                0 <= t < i ==> #[trigger] cmds[t] == (ConnectSocketsUnchecked {
                    first_socket: sockets[joints[t].part_a as int][joints[t].socket_a as int],
                    second_socket: sockets[joints[t].part_b as int][joints[t].socket_b as int],
                }),
        decreases joints.len() - i,
    {
        let j = joints[i];
        assert(joints[i as int] == j);
        let first_socket = sockets[j.part_a as usize][j.socket_a as usize];
        let second_socket = sockets[j.part_b as usize][j.socket_b as usize];
        cmds.push(ConnectSocketsUnchecked { first_socket, second_socket });
        i += 1;
    }
    cmds
}

/// Spawning a creature from a well-formed blueprint always resolves its joints: when every
/// spawned part has one socket entity per socket of its kind, every joint names existing
/// socket entities.
pub proof fn lemma_wf_joints_resolvable(
    kinds: Seq<CreaturePartKindId>,
    joints: Seq<JointSave>,
    sockets: Seq<Seq<u64>>,
)
    requires
        joints_wf(kinds, joints),
        sockets.len() == kinds.len(),
        forall|p: int| 0 <= p < kinds.len() ==> #[trigger] sockets[p].len() == kinds[p].sockets().len(),
    ensures
        joints_resolvable(sockets, joints),
{
    assert forall|i: int| 0 <= i < joints.len() implies {
        &&& (#[trigger] joints[i]).part_a < sockets.len()
        &&& joints[i].socket_a < sockets[joints[i].part_a as int].len()
        &&& joints[i].part_b < sockets.len()
        &&& joints[i].socket_b < sockets[joints[i].part_b as int].len()
    } by {
        assert(socket_of(kinds, joints[i].part_a, joints[i].socket_a) is Some);
        assert(socket_of(kinds, joints[i].part_b, joints[i].socket_b) is Some);
        assert(sockets[joints[i].part_a as int].len() == kinds[joints[i].part_a as int].sockets().len());
        assert(sockets[joints[i].part_b as int].len() == kinds[joints[i].part_b as int].sockets().len());
    }
}

} // verus!
