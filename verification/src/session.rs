//! Session saves: what a saved creature holds, how it is assembled from the live creature,
//! the default session, storage keys, and the text form used by browser storage.

use vstd::prelude::*;

use std::collections::HashMap;

use base64::engine::general_purpose::STANDARD;
use base64::{DecodeError, Engine};

use crate::blueprint::JointSave;
use crate::connect::CreatureJoint;
use crate::parts::{CreatureKindId, CreaturePartKindId};

verus! {

broadcast use vstd::std_specs::hash::group_hash_axioms;

/// Autosave period in seconds.
pub const AUTOSAVE_DELAY_SECS: u8 = 30;

/// Description of a spawnable creature part. Position and rotation are IEEE-754 single precision
/// bit patterns, carried through unchanged.
#[derive(Clone, Copy, Debug, PartialEq, Eq, Hash, Structural)]
pub struct CreaturePartData {
    pub kind: CreaturePartKindId,
    /// Bits of the world space X coordinate.
    pub pos_x: u32,
    /// Bits of the world space Y coordinate.
    pub pos_y: u32,
    /// Bits of the rotation in radians.
    pub rot: u32,
}

/// A saved creature.
#[derive(Clone, Debug, PartialEq, Eq)]
pub struct CreatureSave {
    /// The creature's depth level.
    pub depth: u16,
    /// The kind of the creature.
    pub kind: CreatureKindId,
    /// Index of the head part in `parts`.
    pub head: u16,
    /// The parts of the creature.
    pub parts: Vec<CreaturePartData>,
    /// The joints of the creature, by indices into `parts`.
    pub joints: Vec<JointSave>,
}

/// A saved session: every creature.
#[derive(Clone, Debug, PartialEq, Eq)]
pub struct WorldSave(pub Vec<CreatureSave>);

/// Identifier of the current session, which is also its save slot.
#[derive(Clone, Copy, Debug, PartialEq, Eq, Hash, Structural)]
pub struct SessionId(pub u8);

/// A live part of a creature being saved.
#[derive(Clone, Copy, Debug, PartialEq, Eq, Hash, Structural)]
pub struct PartRecord {
    /// The part entity.
    pub entity: u64,
    pub data: CreaturePartData,
    /// Whether the part is the creature's head.
    pub is_head: bool,
}

/// The last position of `e` in `ents`, if it occurs.
pub open spec fn last_index(ents: Seq<u64>, e: u64) -> Option<int>
    decreases ents.len(),
{
    if ents.len() == 0 {
        None
    } else if ents.last() == e {
        Some(ents.len() - 1)
    } else {
        last_index(ents.drop_last(), e)
    }
}

/// The joints among `joints` whose two parts are both in `ents`, with the parts replaced by
/// their (last) indices in `ents`, truncated to `u16`.
pub open spec fn saved_joints(ents: Seq<u64>, joints: Seq<CreatureJoint>) -> Seq<JointSave>
    decreases joints.len(),
{
    if joints.len() == 0 {
        seq![]
    } else {
        let prev = saved_joints(ents, joints.drop_last());
        let j = joints.last();
        match (last_index(ents, j.part_a), last_index(ents, j.part_b)) {
            (Some(a), Some(b)) => prev.push(
                JointSave { part_a: a as u16, socket_a: j.socket_a, part_b: b as u16, socket_b: j.socket_b },
            ),
            _ => prev,
        }
    }
}

/// The last position of a head part among `parts`, if there is one.
pub open spec fn last_head(parts: Seq<PartRecord>) -> Option<int>
    decreases parts.len(),
{
    if parts.len() == 0 {
        None
    } else if parts.last().is_head {
        Some(parts.len() - 1)
    } else {
        last_head(parts.drop_last())
    }
}

/// The entities of the parts.
pub open spec fn part_entities(parts: Seq<PartRecord>) -> Seq<u64> {
    parts.map_values(|p: PartRecord| p.entity)
}

proof fn lemma_last_index_take(ents: Seq<u64>, i: int, e: u64)
    requires
        0 <= i < ents.len(),
    ensures
        last_index(ents.take(i + 1), e) == if ents[i] == e {
            Some(i)
        } else {
            last_index(ents.take(i), e)
        },
{
    assert(ents.take(i + 1).drop_last() =~= ents.take(i));
}

/// Assembles the save of a creature at `depth` of kind `kind`, made of the parts `parts`,
/// keeping the joints among `joints` (all joints in the world) whose two parts are both parts of
/// this creature. The head is the last part marked as head.
pub fn build_creature_save(
    depth: u16,
    kind: CreatureKindId,
    parts: &Vec<PartRecord>,
    joints: &Vec<CreatureJoint>,
) -> (s: CreatureSave)
    requires
        last_head(parts@) is Some,
    ensures
        s.depth == depth,
        s.kind == kind,
        s.head == last_head(parts@)->0 as u16,
        s.parts@ == parts@.map_values(|p: PartRecord| p.data),
        s.joints@ == saved_joints(part_entities(parts@), joints@),
        parts.len() <= u16::MAX + 1 ==> forall|k: int|
            0 <= k < joints.len() && part_entities(parts@).contains(#[trigger] joints@[k].part_a)
                && part_entities(parts@).contains(joints@[k].part_b) ==> exists|t: int|
                0 <= t < s.joints.len() && saves_joint(part_entities(parts@), #[trigger] s.joints@[t], joints@[k]),
{
    let ghost ents = part_entities(parts@);
    let mut index: HashMap<u64, u16> = HashMap::new();
    let mut head: u16 = 0;
    let mut datas: Vec<CreaturePartData> = Vec::new();
    let mut i: usize = 0;
    while i < parts.len()
        invariant
            ents == part_entities(parts@),
            i <= parts.len(),
            datas@ == parts@.take(i as int).map_values(|p: PartRecord| p.data),
            forall|e: u64|
                #![trigger index@.contains_key(e)]
                index@.contains_key(e) == last_index(ents.take(i as int), e) is Some,
            forall|e: u64|
                index@.contains_key(e) ==> #[trigger] index@[e] == last_index(ents.take(i as int), e)->0 as u16,
            last_head(parts@.take(i as int)) is Some ==> head == last_head(parts@.take(i as int))->0 as u16,
        decreases parts.len() - i,
    {
        let part = parts[i];
        index.insert(part.entity, i as u16);
        if part.is_head {
            head = i as u16;
        }
        datas.push(part.data);
        proof {
            assert(ents[i as int] == part.entity);
            assert forall|e: u64| #![trigger index@.contains_key(e)] index@.contains_key(e) == last_index(
                ents.take(i + 1),
                e,
            ) is Some by {
                lemma_last_index_take(ents, i as int, e);
            }
            assert forall|e: u64| index@.contains_key(e) implies #[trigger] index@[e] == last_index(
                ents.take(i + 1),
                e,
            )->0 as u16 by {
                lemma_last_index_take(ents, i as int, e);
            }
            assert(parts@.take(i + 1).drop_last() =~= parts@.take(i as int));
            assert(datas@ =~= parts@.take(i + 1).map_values(|p: PartRecord| p.data));
        }
        i += 1;
    }
    proof {
        assert(parts@.take(parts.len() as int) =~= parts@);
        assert(ents.take(parts.len() as int) =~= ents);
    }
    let mut saved: Vec<JointSave> = Vec::new();
    let mut k: usize = 0;
    while k < joints.len()
        invariant
            ents == part_entities(parts@),
            k <= joints.len(),
            saved@ == saved_joints(ents, joints@.take(k as int)),
            forall|e: u64| #![trigger index@.contains_key(e)] index@.contains_key(e) == last_index(ents, e) is Some,
            forall|e: u64| index@.contains_key(e) ==> #[trigger] index@[e] == last_index(ents, e)->0 as u16,
        decreases joints.len() - k,
    {
        let joint = joints[k];
        proof {
            assert(joints@.take(k + 1).drop_last() =~= joints@.take(k as int));
            assert(joints@.take(k + 1).last() == joint);
        }
        match (index.get(&joint.part_a), index.get(&joint.part_b)) {
            (Some(a), Some(b)) => {
                assert(index@.contains_key(joint.part_a) && index@.contains_key(joint.part_b));
                saved.push(
                    JointSave { part_a: *a, socket_a: joint.socket_a, part_b: *b, socket_b: joint.socket_b },
                );
            },
            _ => {
                assert(!index@.contains_key(joint.part_a) || !index@.contains_key(joint.part_b));
            },
        }
        k += 1;
    }
    proof {
        assert(joints@.take(joints.len() as int) =~= joints@);
    }
    proof {
        if parts.len() <= u16::MAX + 1 {
            assert forall|k: int|
                0 <= k < joints.len() && ents.contains(#[trigger] joints@[k].part_a) && ents.contains(
                    joints@[k].part_b,
                ) implies exists|t: int| 0 <= t < saved.len() && saves_joint(ents, #[trigger] saved@[t], joints@[k]) by {
                lemma_saved_joints_complete(ents, joints@, k);
            }
        }
    }
    CreatureSave { depth, kind, head, parts: datas, joints: saved }
}

/// The depth of the first player creature of a saved session, if there is one.
pub open spec fn spec_player_depth(creatures: Seq<CreatureSave>) -> Option<u16>
    decreases creatures.len(),
{
    if creatures.len() == 0 {
        None
    } else if creatures[0].kind == CreatureKindId::Player {
        Some(creatures[0].depth)
    } else {
        spec_player_depth(creatures.drop_first())
    }
}

/// The player depth of a session is the depth of its first player creature, and there is none
/// exactly when no creature of the session is a player.
pub proof fn lemma_player_depth_is_first_player(creatures: Seq<CreatureSave>)
    ensures
        forall|i: int|
            0 <= i < creatures.len() && creatures[i].kind == CreatureKindId::Player && (forall|j: int|
                0 <= j < i ==> creatures[j].kind != CreatureKindId::Player) ==> spec_player_depth(creatures)
                == Some(#[trigger] creatures[i].depth),
        spec_player_depth(creatures) is None <==> forall|i: int|
            0 <= i < creatures.len() ==> creatures[i].kind != CreatureKindId::Player,
    decreases creatures.len(),
{
    if creatures.len() > 0 {
        let rest = creatures.drop_first();
        lemma_player_depth_is_first_player(rest);
        assert forall|i: int|
            0 <= i < creatures.len() && creatures[i].kind == CreatureKindId::Player && (forall|j: int|
                0 <= j < i ==> creatures[j].kind != CreatureKindId::Player) implies spec_player_depth(creatures)
            == Some(#[trigger] creatures[i].depth) by {
            if i > 0 {
                assert(creatures[0].kind != CreatureKindId::Player);
                assert(rest[i - 1] == creatures[i]);
                assert forall|j: int| 0 <= j < i - 1 implies rest[j].kind != CreatureKindId::Player by {
                    assert(rest[j] == creatures[j + 1]);
                }
            }
        }
        if creatures[0].kind != CreatureKindId::Player {
            if spec_player_depth(rest) is None {
                assert forall|i: int| 0 <= i < creatures.len() implies creatures[i].kind != CreatureKindId::Player by {
                    if i > 0 {
                        assert(rest[i - 1] == creatures[i]);
                    }
                }
            } else {
                let i = choose|i: int| 0 <= i < rest.len() && rest[i].kind == CreatureKindId::Player;
                assert(creatures[i + 1] == rest[i]);
            }
        }
    }
}

impl WorldSave {
    /// Returns the depth of the first player creature of the session, if there is one.
    pub fn player_depth(&self) -> (d: Option<u16>)
        ensures
            d == spec_player_depth(self.0@),
            forall|i: int|
                0 <= i < self.0.len() && self.0@[i].kind == CreatureKindId::Player && (forall|j: int|
                    0 <= j < i ==> self.0@[j].kind != CreatureKindId::Player) ==> d == Some(
                    #[trigger] self.0@[i].depth,
                ),
            (forall|i: int| 0 <= i < self.0.len() ==> self.0@[i].kind != CreatureKindId::Player) ==> d is None,
    {
        proof {
            lemma_player_depth_is_first_player(self.0@);
        }
        let mut i: usize = 0;
        assert(self.0@.skip(0) =~= self.0@);
        while i < self.0.len()
            invariant
                i <= self.0.len(),
                spec_player_depth(self.0@) == spec_player_depth(self.0@.skip(i as int)),
            decreases self.0.len() - i,
        {
            assert(self.0@.skip(i as int)[0] == self.0@[i as int]);
            if self.0[i].kind == CreatureKindId::Player {
                proof {
                    lemma_player_depth_is_first_player(self.0@);
                }
                return Some(self.0[i].depth);
            }
            assert(self.0@.skip(i as int).drop_first() =~= self.0@.skip(i + 1));
            i += 1;
        }
        None
    }
}

/// Returns the session that starts when no save exists: a single player creature at depth 0,
/// made of a small oval, a tri-blob, a spear (its head), five legs and three hearts, all at the
/// origin.
pub fn default_player_save() -> (s: CreatureSave)
    ensures
        s.depth == 0,
        s.kind == CreatureKindId::Player,
        s.head == 2,
        s.parts@.map_values(|p: CreaturePartData| p.kind) == default_player_kinds(),
        forall|i: int|
            0 <= i < s.parts.len() ==> (#[trigger] s.parts@[i]).pos_x == 0 && s.parts@[i].pos_y == 0
                && s.parts@[i].rot == 0,
        s.joints@ == default_player_joints(),
{
    let at_origin = |kind: CreaturePartKindId| -> (d: CreaturePartData)
        ensures
            d == (CreaturePartData { kind, pos_x: 0, pos_y: 0, rot: 0 }),
        { CreaturePartData { kind, pos_x: 0, pos_y: 0, rot: 0 } };
    let parts = vec![
        at_origin(CreaturePartKindId::SmallOval),
        at_origin(CreaturePartKindId::TriBlob),
        at_origin(CreaturePartKindId::Spear),
        at_origin(CreaturePartKindId::Leg),
        at_origin(CreaturePartKindId::Leg),
        at_origin(CreaturePartKindId::Leg),
        at_origin(CreaturePartKindId::Leg),
        at_origin(CreaturePartKindId::Leg),
        at_origin(CreaturePartKindId::Heart),
        at_origin(CreaturePartKindId::Heart),
        at_origin(CreaturePartKindId::Heart),
    ];
    let j = |part_a: u16, socket_a: u8, part_b: u16, socket_b: u8| -> (r: JointSave)
        ensures
            r == (JointSave { part_a, socket_a, part_b, socket_b }),
        { JointSave { part_a, socket_a, part_b, socket_b } };
    let joints = vec![
        j(0, 0, 1, 0),
        j(0, 1, 2, 0),
        j(0, 2, 3, 0),
        j(0, 3, 4, 0),
        j(1, 1, 5, 0),
        j(1, 3, 6, 0),
        j(1, 5, 7, 0),
        j(0, 4, 8, 0),
        j(0, 5, 9, 0),
        j(1, 6, 10, 0),
    ];
    proof {
        assert(parts@.map_values(|p: CreaturePartData| p.kind) =~= default_player_kinds());
        assert(joints@ =~= default_player_joints());
    }
    CreatureSave { depth: 0, kind: CreatureKindId::Player, head: 2, parts, joints }
}

/// The part kinds of the default player creature.
pub open spec fn default_player_kinds() -> Seq<CreaturePartKindId> {
    seq![
        CreaturePartKindId::SmallOval,
        CreaturePartKindId::TriBlob,
        CreaturePartKindId::Spear,
        CreaturePartKindId::Leg,
        CreaturePartKindId::Leg,
        CreaturePartKindId::Leg,
        CreaturePartKindId::Leg,
        CreaturePartKindId::Leg,
        CreaturePartKindId::Heart,
        CreaturePartKindId::Heart,
        CreaturePartKindId::Heart,
    ]
}

/// The joints of the default player creature.
pub open spec fn default_player_joints() -> Seq<JointSave> {
    seq![
        JointSave { part_a: 0, socket_a: 0, part_b: 1, socket_b: 0 },
        JointSave { part_a: 0, socket_a: 1, part_b: 2, socket_b: 0 },
        JointSave { part_a: 0, socket_a: 2, part_b: 3, socket_b: 0 },
        JointSave { part_a: 0, socket_a: 3, part_b: 4, socket_b: 0 },
        JointSave { part_a: 1, socket_a: 1, part_b: 5, socket_b: 0 },
        JointSave { part_a: 1, socket_a: 3, part_b: 6, socket_b: 0 },
        JointSave { part_a: 1, socket_a: 5, part_b: 7, socket_b: 0 },
        JointSave { part_a: 0, socket_a: 4, part_b: 8, socket_b: 0 },
        JointSave { part_a: 0, socket_a: 5, part_b: 9, socket_b: 0 },
        JointSave { part_a: 1, socket_a: 6, part_b: 10, socket_b: 0 },
    ]
}

/// The decimal digits of `n`, most significant first.
pub open spec fn decimal(n: nat) -> Seq<char>
    decreases n,
{
    if n < 10 {
        seq![(48 + n) as char]
    } else {
        decimal(n / 10).push((48 + n % 10) as char)
    }
}

/// The digit `d` as a one-character string.
fn digit(d: u8) -> (s: &'static str)
    requires
        d < 10,
    ensures
        s@ == seq![(48 + d) as char],
{
    match d {
        0 => {
            proof {
                reveal_strlit("0");
            }
            "0"
        },
        1 => {
            proof {
                reveal_strlit("1");
            }
            "1"
        },
        2 => {
            proof {
                reveal_strlit("2");
            }
            "2"
        },
        3 => {
            proof {
                reveal_strlit("3");
            }
            "3"
        },
        4 => {
            proof {
                reveal_strlit("4");
            }
            "4"
        },
        5 => {
            proof {
                reveal_strlit("5");
            }
            "5"
        },
        6 => {
            proof {
                reveal_strlit("6");
            }
            "6"
        },
        7 => {
            proof {
                reveal_strlit("7");
            }
            "7"
        },
        8 => {
            proof {
                reveal_strlit("8");
            }
            "8"
        },
        _ => {
            proof {
                reveal_strlit("9");
            }
            "9"
        },
    }
}

/// Appends the decimal digits of `id` to `s`.
fn push_decimal(s: &mut String, id: u8)
    ensures
        final(s)@ == old(s)@ + decimal(id as nat),
{
    if id >= 100 {
        s.append(digit(id / 100));
        s.append(digit((id / 10) % 10));
        s.append(digit(id % 10));
        proof {
            assert(decimal((id / 10) as nat) == decimal((id / 100) as nat).push((48 + (id / 10) % 10) as char));
            assert(decimal(id as nat) == decimal((id / 10) as nat).push((48 + id % 10) as char));
        }
    } else if id >= 10 {
        s.append(digit(id / 10));
        s.append(digit(id % 10));
        proof {
            assert(decimal(id as nat) == decimal((id / 10) as nat).push((48 + id % 10) as char));
        }
    } else {
        s.append(digit(id));
    }
}

/// Returns the name under which the session `id` is written, looked up and loaded: `zlsave-`
/// and its decimal number.
pub fn save_name(id: u8) -> (k: String)
    ensures
        k@ == "zlsave-"@ + decimal(id as nat),
{
    let mut k = String::from_str("zlsave-");
    push_decimal(&mut k, id);
    k
}

/// The standard (padded) base64 encoding of `bytes`.
pub uninterp spec fn base64_standard(bytes: Seq<u8>) -> Seq<char>;

/// The standard (padded) base64 decoding of `text`, if it is canonical base64.
pub uninterp spec fn base64_standard_decoded(text: Seq<char>) -> Option<Seq<u8>>;

/// Encodes `bytes` with the standard, padded base64 engine (`Engine::encode` of `STANDARD`).
#[verifier::external_body]
fn base64_encode(bytes: &[u8]) -> (s: String)
    requires
        bytes@.len() <= usize::MAX / 2,
    ensures
        s@ == base64_standard(bytes@),
{
    STANDARD.encode(bytes)
}

/// `base64::DecodeError`, the error of a failed decoding, used as an opaque type.
#[verifier::external_type_specification]
#[verifier::external_body]
pub struct ExDecodeError(DecodeError);

/// Decodes `text` with the standard, padded base64 engine (`Engine::decode` of `STANDARD`).
/// The text that encoding some bytes gives decodes to those bytes.
#[verifier::external_body]
fn base64_decode(text: &str) -> (r: Result<Vec<u8>, DecodeError>)
    ensures
        match r {
            Ok(v) => base64_standard_decoded(text@) == Some(v@) && forall|b: Seq<u8>|
                text@ == base64_standard(b) ==> v@ == b,
            Err(_) => base64_standard_decoded(text@) is None && forall|b: Seq<u8>|
                text@ != base64_standard(b),
        },
{
    STANDARD.decode(text)
}

/// A saved session could not be read back.
#[derive(Clone, Copy, Debug, PartialEq, Eq, Hash, Structural)]
pub enum SessionError {
    /// Stored text is not canonical standard base64.
    CorruptText,
}

/// Returns the text under which the save bytes `save` are kept in browser storage.
pub fn storage_text(save: &Vec<u8>) -> (t: String)
    requires
        save.len() <= usize::MAX / 2,
    ensures
        t@ == base64_standard(save@),
{
    base64_encode(save.as_slice())
}

/// Returns the save bytes kept in browser storage as `text`.
pub fn storage_bytes(text: &str) -> (r: Result<Vec<u8>, SessionError>)
    ensures
        match r {
            Ok(v) => base64_standard_decoded(text@) == Some(v@),
            Err(e) => e == SessionError::CorruptText && base64_standard_decoded(text@) is None,
        },
        forall|b: Seq<u8>| text@ == base64_standard(b) ==> (r matches Ok(v) && v@ == b),
{
    match base64_decode(text) {
        Ok(v) => Ok(v),
        Err(_) => Err(SessionError::CorruptText),
    }
}

/// The default player creature is well formed: every joint connects two existing sockets of
/// the same kind and no socket has two joints.
pub proof fn lemma_default_player_wf()
    ensures
        crate::blueprint::joints_wf(default_player_kinds(), default_player_joints()),
        crate::creature::total_power(default_player_kinds()) == 21,
{
    let kinds = default_player_kinds();
    let joints = default_player_joints();
    let ends = crate::blueprint::joint_ends(joints);
    assert(ends =~= seq![
        (0u16, 0u8), (1u16, 0u8), (0u16, 1u8), (2u16, 0u8), (0u16, 2u8), (3u16, 0u8), (0u16, 3u8), (4u16, 0u8),
        (1u16, 1u8), (5u16, 0u8), (1u16, 3u8), (6u16, 0u8), (1u16, 5u8), (7u16, 0u8), (0u16, 4u8), (8u16, 0u8),
        (0u16, 5u8), (9u16, 0u8), (1u16, 6u8), (10u16, 0u8),
    ]);
    reveal_with_fuel(crate::creature::total_power, 12);
}

/// Every saved joint names, by index, the two parts of a joint it was saved from, with the same sockets.
pub proof fn lemma_saved_joints_refer_back(ents: Seq<u64>, joints: Seq<CreatureJoint>, i: int)
    requires
        ents.len() <= u16::MAX + 1,
        0 <= i < saved_joints(ents, joints).len(),
    ensures
        ({
            let s = saved_joints(ents, joints)[i];
            &&& s.part_a < ents.len()
            &&& s.part_b < ents.len()
            &&& exists|k: int|
                0 <= k < joints.len() && #[trigger] joints[k].part_a == ents[s.part_a as int] && joints[k].part_b
                    == ents[s.part_b as int] && joints[k].socket_a == s.socket_a && joints[k].socket_b
                    == s.socket_b
        }),
    decreases joints.len(),
{
    let prev = saved_joints(ents, joints.drop_last());
    if i < prev.len() {
        lemma_saved_joints_refer_back(ents, joints.drop_last(), i);
        let s = prev[i];
        let k = choose|k: int|
            0 <= k < joints.drop_last().len() && #[trigger] joints.drop_last()[k].part_a == ents[s.part_a as int]
                && joints.drop_last()[k].part_b == ents[s.part_b as int] && joints.drop_last()[k].socket_a
                == s.socket_a && joints.drop_last()[k].socket_b == s.socket_b;
        assert(joints[k] == joints.drop_last()[k]);
    } else {
        let j = joints.last();
        lemma_last_index_facts(ents, j.part_a);
        lemma_last_index_facts(ents, j.part_b);
        assert(joints[joints.len() - 1] == j);
    }
}

/// A saved joint names the parts of joint `j` by their positions in `ents`, with its sockets.
pub open spec fn saves_joint(ents: Seq<u64>, s: JointSave, j: CreatureJoint) -> bool {
    &&& s.part_a < ents.len()
    &&& s.part_b < ents.len()
    &&& ents[s.part_a as int] == j.part_a
    &&& ents[s.part_b as int] == j.part_b
    &&& s.socket_a == j.socket_a
    &&& s.socket_b == j.socket_b
}

/// Every joint whose two parts both belong to the creature is saved, naming those parts by
/// their positions among the creature's parts, with the same sockets.
pub proof fn lemma_saved_joints_complete(ents: Seq<u64>, joints: Seq<CreatureJoint>, k: int)
    requires
        ents.len() <= u16::MAX + 1,
        0 <= k < joints.len(),
        ents.contains(joints[k].part_a),
        ents.contains(joints[k].part_b),
    ensures
        exists|s: int|
            0 <= s < saved_joints(ents, joints).len() && saves_joint(
                ents,
                #[trigger] saved_joints(ents, joints)[s],
                joints[k],
            ),
    decreases joints.len(),
{
    let prev = saved_joints(ents, joints.drop_last());
    let saved = saved_joints(ents, joints);
    if k < joints.len() - 1 {
        assert(joints.drop_last()[k] == joints[k]);
        lemma_saved_joints_complete(ents, joints.drop_last(), k);
        let s = choose|s: int| 0 <= s < prev.len() && saves_joint(ents, #[trigger] prev[s], joints[k]);
        assert(saved[s] == prev[s]);
    } else {
        let j = joints.last();
        assert(joints[k] == j);
        lemma_last_index_some(ents, j.part_a);
        lemma_last_index_some(ents, j.part_b);
        lemma_last_index_facts(ents, j.part_a);
        lemma_last_index_facts(ents, j.part_b);
        let a = last_index(ents, j.part_a)->0;
        let b = last_index(ents, j.part_b)->0;
        assert(saved == prev.push(
            JointSave { part_a: a as u16, socket_a: j.socket_a, part_b: b as u16, socket_b: j.socket_b },
        ));
        assert(saves_joint(ents, saved[prev.len() as int], j));
    }
}

/// A part of the creature has a last position.
proof fn lemma_last_index_some(ents: Seq<u64>, e: u64)
    requires
        ents.contains(e),
    ensures
        last_index(ents, e) is Some,
    decreases ents.len(),
{
    if ents.last() != e {
        let i = choose|i: int| 0 <= i < ents.len() && ents[i] == e;
        assert(ents.drop_last()[i] == e);
        lemma_last_index_some(ents.drop_last(), e);
    }
}

/// The last position of `e` in `ents` holds `e`.
proof fn lemma_last_index_facts(ents: Seq<u64>, e: u64)
    ensures
        last_index(ents, e) matches Some(i) ==> 0 <= i < ents.len() && ents[i] == e,
    decreases ents.len(),
{
    if ents.len() > 0 && ents.last() != e {
        lemma_last_index_facts(ents.drop_last(), e);
    }
}

} // verus!
