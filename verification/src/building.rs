//! Building mode: picking sockets, dragging them onto other sockets and settling joints.

use vstd::prelude::*;

use crate::connect::{ConnectSockets, LineSegment};

verus! {

/// Decides which socket stays attached when the socket `dropped` is dropped on the socket
/// `target`, given the creatures that their parts belong to (if both are known).
///
/// The socket on the player creature is the attached one, the target's first; when neither is on
/// the player creature, nothing connects.
pub fn drop_roles(
    target: u64,
    dropped: u64,
    target_creature: Option<u64>,
    dropped_creature: Option<u64>,
    player: u64,
) -> (r: Option<ConnectSockets>)
    ensures
        r == if target_creature is None || dropped_creature is None {
            None
        } else if target_creature == Some(player) {
            Some(ConnectSockets { attached_socket: target, free_socket: dropped })
        } else if dropped_creature == Some(player) {
            Some(ConnectSockets { attached_socket: dropped, free_socket: target })
        } else {
            None
        },
{
    match (target_creature, dropped_creature) {
        (Some(tc), Some(dc)) => {
            if tc == player {
                Some(ConnectSockets { attached_socket: target, free_socket: dropped })
            } else if dc == player {
                Some(ConnectSockets { attached_socket: dropped, free_socket: target })
            } else {
                None
            }
        },
        _ => None,
    }
}

/// Returns whether pressing a socket whose part belongs to `socket_creature` disconnects it:
/// only sockets of the player creature can be pulled off.
pub fn press_disconnects(socket_creature: Option<u64>, player: u64) -> (r: bool)
    ensures
        r == (socket_creature == Some(player)),
{
    match socket_creature {
        Some(c) => c == player,
        None => false,
    }
}

/// The line entities, in order, of the lines starting at `s1` or `s2`.
pub open spec fn lines_starting_at(lines: Seq<LineSegment>, s1: u64, s2: u64) -> Seq<u64>
    decreases lines.len(),
{
    if lines.len() == 0 {
        seq![]
    } else {
        let prev = lines_starting_at(lines.drop_last(), s1, s2);
        if lines.last().start == s1 || lines.last().start == s2 {
            prev.push(lines.last().line)
        } else {
            prev
        }
    }
}

/// When two sockets collide: if `socket1` is connected to `socket2` (its connection partner is
/// `partner`), the joint settles and the lines starting at either socket are returned, to be
/// removed. Otherwise nothing happens.
pub fn settle_collision(partner: Option<u64>, socket1: u64, socket2: u64, lines: &Vec<LineSegment>) -> (r: Option<
    Vec<u64>,
>)
    ensures
        match r {
            Some(v) => partner == Some(socket2) && v@ == lines_starting_at(lines@, socket1, socket2),
            None => partner != Some(socket2),
        },
{
    match partner {
        Some(p) => {
            if p != socket2 {
                return None;
            }
        },
        None => return None,
    }
    let mut out: Vec<u64> = Vec::new();
    let mut i: usize = 0;
    while i < lines.len()
        invariant
            i <= lines.len(),
            out@ == lines_starting_at(lines@.take(i as int), socket1, socket2),
        decreases lines.len() - i,
    {
        proof {
            assert(lines@.take(i + 1).drop_last() =~= lines@.take(i as int));
        }
        if lines[i].start == socket1 || lines[i].start == socket2 {
            out.push(lines[i].line);
        }
        i += 1;
    }
    assert(lines@.take(lines.len() as int) =~= lines@);
    Some(out)
}

} // verus!
