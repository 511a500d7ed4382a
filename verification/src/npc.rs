//! Random generation of non-player creatures.
//!
//! A creature grows from a random head part: every new random part is attached by the first
//! free, compatible socket pair found, until the creature is powerful enough for the player's
//! depth or a part cannot be attached. Finally a heart is attached to every heart socket.

use vstd::prelude::*;

use rand::rngs::SmallRng;
use rand::RngExt;
use tinyvec::ArrayVec;

use crate::blueprint::{joint_ends, joints_wf, socket_of, JointSave};
use crate::creature::{max_depth_from_power, total_power, DEPTH_LEVEL_POWER};
use crate::parts::{CreatureKindId, CreaturePartKindId, SocketKindId, MAX_SOCKETS};

verus! {

/// Offset in the allowed maximum depth of spawned creatures compared to the depth of the player.
pub const DIFFICULTY: u16 = 0;

/// Number of creatures in the active depth layer, excluding the player, at which spawning stops
/// entirely.
pub const MAX_CREATURES: usize = 32;

/// `tinyvec::ArrayVec`, an inline vector of fixed capacity, used as an opaque type.
#[verifier::external_type_specification]
#[verifier::external_body]
#[verifier::reject_recursive_types(A)]
pub struct ExArrayVec<A>(ArrayVec<A>);

/// `rand::rngs::SmallRng`, a small, fast random number generator, used as an opaque type.
#[verifier::external_type_specification]
#[verifier::external_body]
pub struct ExSmallRng(SmallRng);

/// The flags held by a socket flag list, in order.
pub uninterp spec fn socket_flags(v: ArrayVec<[bool; 13]>) -> Seq<bool>;

/// Collects `n` true flags into a fresh list (`ArrayVec`'s `FromIterator`),
/// which holds exactly those flags.
#[verifier::external_body]
fn all_free_flags(n: usize) -> (v: ArrayVec<[bool; 13]>)
    requires
        n <= MAX_SOCKETS,
    ensures
        socket_flags(v) == Seq::new(n as nat, |i: int| true),
{
    core::iter::repeat_n(true, n).collect()
}

/// Reads flag `i` (`ArrayVec`'s `Index`), which is element `i` of the list.
#[verifier::external_body]
fn flag_at(v: &ArrayVec<[bool; 13]>, i: usize) -> (b: bool)
    requires
        i < socket_flags(*v).len(),
    ensures
        b == socket_flags(*v)[i as int],
{
    v[i]
}

/// Returns the number of flags (`ArrayVec::len`).
#[verifier::external_body]
fn flag_count(v: &ArrayVec<[bool; 13]>) -> (n: usize)
    ensures
        n == socket_flags(*v).len(),
{
    v.len()
}

/// Sets flag `i` to false (`ArrayVec`'s `IndexMut`), leaving the other flags and the length
/// unchanged.
#[verifier::external_body]
fn clear_flag(v: &mut ArrayVec<[bool; 13]>, i: usize)
    requires
        i < socket_flags(*old(v)).len(),
    ensures
        socket_flags(*final(v)) == socket_flags(*old(v)).update(i as int, false),
{
    v[i] = false;
}

/// Seeds a small, fast random number generator from the thread-local one (`rand::make_rng`).
#[verifier::external_body]
fn make_small_rng() -> SmallRng {
    rand::make_rng::<SmallRng>()
}

/// Draws a uniformly random value in `lo..hi` (`RngExt::random_range`), which lies in that range.
#[verifier::external_body]
fn random_in(rng: &mut SmallRng, lo: usize, hi: usize) -> (r: usize)
    requires
        lo < hi,
    ensures
        lo <= r < hi,
{
    rng.random_range(lo..hi)
}

/// Draws a random boolean that is true with probability one half (`RngExt::random_ratio`).
#[verifier::external_body]
fn random_half(rng: &mut SmallRng) -> bool {
    rng.random_ratio(1, 2)
}

/// Free flags of every socket of a creature, given its part kinds and joints:
/// a socket is free when no joint ends at it.
pub open spec fn flags_from(kinds: Seq<CreaturePartKindId>, joints: Seq<JointSave>) -> Seq<Seq<bool>> {
    Seq::new(
        kinds.len(),
        |p: int|
            Seq::new(
                kinds[p].sockets().len(),
                |o: int| !joint_ends(joints).contains((p as u16, o as u8)),
            ),
    )
}

/// A new part of kind `kind` can attach its socket `s` to the free socket `o` of part `p`.
pub open spec fn valid_attach(
    kinds: Seq<CreaturePartKindId>,
    flags: Seq<Seq<bool>>,
    kind: CreaturePartKindId,
    t: (int, int, int),
) -> bool {
    let (p, o, s) = t;
    &&& 0 <= p < kinds.len()
    &&& 0 <= o < kinds[p].sockets().len()
    &&& flags[p][o]
    &&& 0 <= s < kind.sockets().len()
    &&& kind.sockets()[s] != SocketKindId::Heart
    &&& kind.sockets()[s] == kinds[p].sockets()[o]
}

/// Lexicographic order on (part, socket of part, socket of new part).
pub open spec fn lex_before(a: (int, int, int), b: (int, int, int)) -> bool {
    ||| a.0 < b.0
    ||| a.0 == b.0 && a.1 < b.1
    ||| a.0 == b.0 && a.1 == b.1 && a.2 < b.2
}

/// `t` is the first attachment of a new part of kind `kind` in lexicographic order.
pub open spec fn first_valid(
    kinds: Seq<CreaturePartKindId>,
    flags: Seq<Seq<bool>>,
    kind: CreaturePartKindId,
    t: (int, int, int),
) -> bool {
    &&& valid_attach(kinds, flags, kind, t)
    &&& forall|u: (int, int, int)| lex_before(u, t) ==> !valid_attach(kinds, flags, kind, u)
}

/// The first attachment of a new part of kind `kind`, if it can be attached at all.
pub open spec fn first_attachment(
    kinds: Seq<CreaturePartKindId>,
    flags: Seq<Seq<bool>>,
    kind: CreaturePartKindId,
) -> Option<(int, int, int)> {
    if exists|t: (int, int, int)| first_valid(kinds, flags, kind, t) {
        Some(choose|t: (int, int, int)| first_valid(kinds, flags, kind, t))
    } else {
        None
    }
}

/// Heart sockets of part `p` with kinds `socks` among its first `upto` sockets, in order.
pub open spec fn part_heart_sockets(p: nat, socks: Seq<SocketKindId>, upto: nat) -> Seq<(nat, nat)>
    decreases upto,
{
    if upto == 0 {
        seq![]
    } else {
        let prev = part_heart_sockets(p, socks, (upto - 1) as nat);
        if socks[upto - 1] == SocketKindId::Heart {
            prev.push((p, (upto - 1) as nat))
        } else {
            prev
        }
    }
}

/// Heart sockets of the first `upto` parts of kinds `kinds`, in part and socket order.
pub open spec fn heart_sockets(kinds: Seq<CreaturePartKindId>, upto: nat) -> Seq<(nat, nat)>
    decreases upto,
{
    if upto == 0 {
        seq![]
    } else {
        heart_sockets(kinds, (upto - 1) as nat) + part_heart_sockets(
            (upto - 1) as nat,
            kinds[upto - 1].sockets(),
            kinds[upto - 1].sockets().len(),
        )
    }
}

/// The joints attaching hearts, numbered from `first_heart`, to the heart sockets `hs`.
pub open spec fn heart_joints(hs: Seq<(nat, nat)>, first_heart: nat) -> Seq<JointSave> {
    Seq::new(
        hs.len(),
        |i: int|
            JointSave {
                part_a: hs[i].0 as u16,
                socket_a: hs[i].1 as u8,
                part_b: (first_heart + i) as u16,
                socket_b: 0,
            },
    )
}

/// A part of a creature under construction: its kind and which of its sockets are free.
pub struct PartSlot {
    pub kind: CreaturePartKindId,
    pub free: ArrayVec<[bool; 13]>,
}

/// A creature under construction, before hearts are attached.
pub struct CreatureBuilder {
    pub slots: Vec<PartSlot>,
    pub joints: Vec<JointSave>,
    /// Total power of all parts.
    pub power: u32,
}

impl CreatureBuilder {
    /// The kinds of the parts.
    pub open spec fn kinds(&self) -> Seq<CreaturePartKindId> {
        Seq::new(self.slots.len() as nat, |i: int| self.slots[i].kind)
    }

    /// The free flags of the sockets of every part.
    pub open spec fn flags(&self) -> Seq<Seq<bool>> {
        Seq::new(self.slots.len() as nat, |i: int| socket_flags(self.slots[i].free))
    }

    /// The builder's invariant: parts are not hearts, joints are well formed, and a socket is
    /// free exactly when no joint ends at it.
    pub open spec fn inv(&self) -> bool {
        &&& 1 <= self.slots.len() <= u16::MAX
        &&& forall|i: int| 0 <= i < self.slots.len() ==> #[trigger] self.kinds()[i] != CreaturePartKindId::Heart
        &&& joints_wf(self.kinds(), self.joints@)
        &&& self.flags() == flags_from(self.kinds(), self.joints@)
        &&& self.power == total_power(self.kinds())
        &&& self.joints.len() + 1 == self.slots.len()
        &&& forall|q: int, t: int|
            0 <= q < self.slots.len() && 0 <= t < self.kinds()[q].sockets().len()
                && #[trigger] self.kinds()[q].sockets()[t] == SocketKindId::Heart ==> self.flags()[q][t]
    }

    /// Starts a creature with the head part `head`.
    pub fn new(head: CreaturePartKindId) -> (b: CreatureBuilder)
        requires
            head != CreaturePartKindId::Heart,
        ensures
            b.inv(),
            b.kinds() == seq![head],
            b.joints@ == Seq::<JointSave>::empty(),
    {
        let free = all_free_flags(head.socket_count());
        let mut slots: Vec<PartSlot> = Vec::new();
        slots.push(PartSlot { kind: head, free });
        let b = CreatureBuilder { slots, joints: Vec::new(), power: head.metadata().power as u32 };
        proof {
            assert(b.kinds() =~= seq![head]);
            assert(b.kinds().drop_last() =~= Seq::<CreaturePartKindId>::empty());
            assert(joint_ends(b.joints@) =~= Seq::<(u16, u8)>::empty());
            assert(b.flags() =~= flags_from(b.kinds(), b.joints@)) by {
                assert(b.flags()[0] =~= flags_from(b.kinds(), b.joints@)[0]);
            }
            assert(total_power(b.kinds()) == total_power(b.kinds().drop_last()) + head.power());
            assert(b.power == total_power(b.kinds()));
            assert(joints_wf(b.kinds(), b.joints@));
            assert(forall|i: int| 0 <= i < b.slots.len() ==> #[trigger] b.kinds()[i] != CreaturePartKindId::Heart);
            assert(forall|t: int| 0 <= t < head.sockets().len() ==> b.flags()[0][t]);
        }
        b
    }

    /// Tries to attach a new part of kind `kind` at the first free, compatible socket pair:
    /// parts in order, then their sockets in order, then the sockets of the new part in order.
    /// Heart sockets are never used. Returns whether the part was attached.
    pub fn try_attach(&mut self, kind: CreaturePartKindId) -> (attached: bool)
        requires
            old(self).inv(),
            kind != CreaturePartKindId::Heart,
            old(self).slots.len() < u16::MAX,
            old(self).power <= u32::MAX - DEPTH_LEVEL_POWER,
        ensures
            final(self).inv(),
            match first_attachment(old(self).kinds(), old(self).flags(), kind) {
                Some(t) => {
                    &&& attached
                    &&& final(self).kinds() == old(self).kinds().push(kind)
                    &&& final(self).joints@ == old(self).joints@.push(
                        JointSave {
                            part_a: old(self).slots.len() as u16,
                            socket_a: t.2 as u8,
                            part_b: t.0 as u16,
                            socket_b: t.1 as u8,
                        },
                    )
                    &&& final(self).power == old(self).power + kind.power()
                },
                None => !attached && final(self).kinds() == old(self).kinds() && final(self).joints@
                    == old(self).joints@ && final(self).power == old(self).power,
            },
    {
        match self.find_attachment(kind) {
            Some((p, o, s)) => {
                self.attach(kind, p, o, s);
                true
            },
            None => false,
        }
    }

    /// Finds the first attachment of a new part of kind `kind`: parts in order, then their
    /// sockets in order, then the sockets of the new part in order.
    fn find_attachment(&self, kind: CreaturePartKindId) -> (r: Option<(usize, usize, usize)>)
        requires
            self.inv(),
            kind != CreaturePartKindId::Heart,
        ensures
            match first_attachment(self.kinds(), self.flags(), kind) {
                Some(t) => r == Some((t.0 as usize, t.1 as usize, t.2 as usize)) && valid_attach(
                    self.kinds(),
                    self.flags(),
                    kind,
                    t,
                ) && 0 <= t.0 && 0 <= t.1 && 0 <= t.2,
                None => r is None,
            },
    {
        let ghost kinds0 = self.kinds();
        let ghost flags0 = self.flags();
        let ghost joints0 = self.joints@;
        let ghost power0 = self.power;
        let ghost n0 = self.slots.len();
        let n = self.slots.len();
        let new_count = kind.socket_count();
        let mut p: usize = 0;
        while p < n
            invariant
                n == self.slots.len(),
                kinds0 == self.kinds(),
                flags0 == self.flags(),
                self.inv(),
                joints0 == self.joints@,
                n0 == n,
                power0 == self.power,
                new_count == kind.sockets().len(),
                p <= n,
                forall|u: (int, int, int)| u.0 < p ==> !valid_attach(kinds0, flags0, kind, u),
            decreases n - p,
        {
            let other_kind = self.slots[p].kind;
            let count = flag_count(&self.slots[p].free);
            proof {
                assert(other_kind == kinds0[p as int]);
                assert(flags0[p as int] == socket_flags(self.slots[p as int].free));
                assert(flags0[p as int].len() == kinds0[p as int].sockets().len());
            }
            let mut o: usize = 0;
            while o < count
                invariant
                    n == self.slots.len(),
                    kinds0 == self.kinds(),
                    flags0 == self.flags(),
                    self.inv(),
                    joints0 == self.joints@,
                    n0 == n,
                    power0 == self.power,
                    new_count == kind.sockets().len(),
                    p < n,
                    other_kind == kinds0[p as int],
                    count == kinds0[p as int].sockets().len(),
                    count == flags0[p as int].len(),
                    o <= count,
                    forall|u: (int, int, int)|
                        u.0 < p || (u.0 == p && u.1 < o) ==> !valid_attach(kinds0, flags0, kind, u),
                decreases count - o,
            {
                if flag_at(&self.slots[p].free, o) {
                    assert(flags0[p as int][o as int]);
                    let other_socket_kind = other_kind.socket_kind(o);
                    let mut s: usize = 0;
                    while s < new_count
                        invariant
                            n == self.slots.len(),
                            kinds0 == self.kinds(),
                            flags0 == self.flags(),
                            self.inv(),
                            joints0 == self.joints@,
                            n0 == n,
                            power0 == self.power,
                            new_count == kind.sockets().len(),
                            p < n,
                            o < count,
                            other_kind == kinds0[p as int],
                            count == kinds0[p as int].sockets().len(),
                            count == flags0[p as int].len(),
                            flags0[p as int][o as int],
                            other_socket_kind == kinds0[p as int].sockets()[o as int],
                            s <= new_count,
                            forall|u: (int, int, int)|
                                u.0 < p || (u.0 == p && u.1 < o) || (u.0 == p && u.1 == o && u.2 < s)
                                    ==> !valid_attach(kinds0, flags0, kind, u),
                        decreases new_count - s,
                    {
                        let socket_kind = kind.socket_kind(s);
                        if socket_kind != SocketKindId::Heart && socket_kind == other_socket_kind {
                            let ghost t = (p as int, o as int, s as int);
                            proof {
                                assert(valid_attach(kinds0, flags0, kind, t));
                                assert(first_valid(kinds0, flags0, kind, t));
                                lemma_first_valid_unique(kinds0, flags0, kind, t);
                            }
                            return Some((p, o, s));
                        }
                        s += 1;
                    }
                } else {
                    assert(!flags0[p as int][o as int]);
                }
                o += 1;
            }
            p += 1;
        }
        proof {
            if exists|t: (int, int, int)| first_valid(kinds0, flags0, kind, t) {
                let t = choose|t: (int, int, int)| first_valid(kinds0, flags0, kind, t);
                assert(valid_attach(kinds0, flags0, kind, t));
            }
        }
        None
    }

    /// Attaches socket `s` of a new part of kind `kind` to the free socket `o` of part `p`.
    fn attach(&mut self, kind: CreaturePartKindId, p: usize, o: usize, s: usize)
        requires
            old(self).inv(),
            old(self).slots.len() < u16::MAX,
            old(self).power <= u32::MAX - DEPTH_LEVEL_POWER,
            kind != CreaturePartKindId::Heart,
            valid_attach(old(self).kinds(), old(self).flags(), kind, (p as int, o as int, s as int)),
        ensures
            final(self).inv(),
            final(self).kinds() == old(self).kinds().push(kind),
            final(self).joints@ == old(self).joints@.push(
                JointSave {
                    part_a: old(self).slots.len() as u16,
                    socket_a: s as u8,
                    part_b: p as u16,
                    socket_b: o as u8,
                },
            ),
            final(self).power == old(self).power + kind.power(),
    {
        let ghost kinds0 = self.kinds();
        let ghost flags0 = self.flags();
        let ghost joints0 = self.joints@;
        let n = self.slots.len();
        let mut free = all_free_flags(kind.socket_count());
        clear_flag(&mut free, s);
        let mut slot = self.slots.remove(p);
        clear_flag(&mut slot.free, o);
        self.slots.insert(p, slot);
        self.slots.push(PartSlot { kind, free });
        let joint = JointSave { part_a: n as u16, socket_a: s as u8, part_b: p as u16, socket_b: o as u8 };
        self.joints.push(joint);
        proof {
            lemma_total_power_bounded_by(kinds0);
        }
        self.power = self.power + kind.metadata().power as u32;
        proof {
            let kinds1 = self.kinds();
            let joints1 = self.joints@;
            assert(kinds1 =~= kinds0.push(kind));
            assert(kinds1.drop_last() =~= kinds0);
            assert(joints1 == joints0.push(joint));
            lemma_joint_ends_push(joints0, joint);
            let ends0 = joint_ends(joints0);
            let ends1 = joint_ends(joints1);
            assert(ends1 =~= ends0 + seq![(n as u16, s as u8), (p as u16, o as u8)]);
            // The two new ends are fresh.
            assert(!ends0.contains((p as u16, o as u8))) by {
                assert(flags0 == flags_from(kinds0, joints0));
                assert(flags0[p as int][o as int]);
                assert(flags_from(kinds0, joints0)[p as int][o as int] == !ends0.contains(
                    (p as int as u16, o as int as u8),
                ));
            }
            assert(!ends0.contains((n as u16, s as u8))) by {
                if ends0.contains((n as u16, s as u8)) {
                    let k = choose|k: int| 0 <= k < ends0.len() && ends0[k] == (n as u16, s as u8);
                    lemma_end_socket(kinds0, joints0, k);
                }
            }
            assert(ends1.no_duplicates()) by {
                assert forall|a: int, b: int| 0 <= a < ends1.len() && 0 <= b < ends1.len() && a != b implies ends1[a]
                    != ends1[b] by {
                    if a < ends0.len() && b < ends0.len() {
                    } else if a < ends0.len() {
                        assert(ends0.contains(ends1[a]));
                    } else if b < ends0.len() {
                        assert(ends0.contains(ends1[b]));
                    } else {
                        assert(p < n);
                    }
                }
            }
            // Every joint is still well formed.
            assert forall|i: int| 0 <= i < joints1.len() implies {
                &&& (#[trigger] socket_of(kinds1, joints1[i].part_a, joints1[i].socket_a)) is Some
                &&& socket_of(kinds1, joints1[i].part_a, joints1[i].socket_a) == socket_of(
                    kinds1,
                    joints1[i].part_b,
                    joints1[i].socket_b,
                )
            } by {
                if i < joints0.len() {
                    assert(joints1[i] == joints0[i]);
                    assert(socket_of(kinds0, joints0[i].part_a, joints0[i].socket_a) is Some);
                    lemma_socket_of_push(kinds0, kind, joints0[i].part_a, joints0[i].socket_a);
                    lemma_socket_of_push(kinds0, kind, joints0[i].part_b, joints0[i].socket_b);
                } else {
                    assert(joints1[i] == joint);
                    assert(kinds1[n as int] == kind);
                    assert(kinds1[p as int] == kinds0[p as int]);
                }
            }
            // Flags match the joints.
            let flags1 = self.flags();
            assert forall|q: int| 0 <= q < kinds1.len() implies flags1[q] =~= flags_from(kinds1, joints1)[q] by {
                let f = flags_from(kinds1, joints1)[q];
                if q < n {
                    assert(kinds1[q] == kinds0[q]);
                    if q == p {
                        assert(flags1[q] == flags0[q].update(o as int, false));
                    } else {
                        assert(flags1[q] == flags0[q]);
                    }
                    assert(flags0[q] == flags_from(kinds0, joints0)[q]);
                    assert forall|t: int| 0 <= t < f.len() implies flags1[q][t] == f[t] by {
                        assert(f[t] == !ends1.contains((q as u16, t as u8)));
                        assert(flags_from(kinds0, joints0)[q][t] == !ends0.contains((q as u16, t as u8)));
                        if q == p && t == o {
                            assert(ends1[ends0.len() + 1int] == (p as u16, o as u8));
                        } else {
                            lemma_ends_append_other(ends0, (n as u16, s as u8), (p as u16, o as u8), (q as u16, t as u8));
                            assert((q as u16, t as u8) != (n as u16, s as u8));
                            assert((q as u16, t as u8) != (p as u16, o as u8)) by {
                                if q == p {
                                    assert(t as u8 != o as u8);
                                }
                            }
                        }
                    }
                } else {
                    assert(q == n);
                    assert(flags1[q] == Seq::new(kind.sockets().len(), |i: int| true).update(s as int, false));
                    assert forall|t: int| 0 <= t < f.len() implies flags1[q][t] == f[t] by {
                        assert(f[t] == !ends1.contains((q as u16, t as u8)));
                        if t == s {
                            assert(ends1[ends0.len() as int] == (n as u16, s as u8));
                        } else {
                            lemma_ends_append_other(ends0, (n as u16, s as u8), (p as u16, o as u8), (q as u16, t as u8));
                            if ends0.contains((q as u16, t as u8)) {
                                let k = choose|k: int| 0 <= k < ends0.len() && ends0[k] == (q as u16, t as u8);
                                lemma_end_socket(kinds0, joints0, k);
                            }
                        }
                    }
                }
            }
            assert(flags1 =~= flags_from(kinds1, joints1));
            assert forall|q: int, t: int|
                0 <= q < self.slots.len() && 0 <= t < self.kinds()[q].sockets().len()
                    && #[trigger] self.kinds()[q].sockets()[t] == SocketKindId::Heart implies self.flags()[q][t] by {
                if q < n {
                    assert(kinds1[q] == kinds0[q]);
                    if q == p {
                        assert(flags1[q] == flags0[q].update(o as int, false));
                        if t == o {
                            assert(kinds0[p as int].sockets()[o as int] == kind.sockets()[s as int]);
                        }
                    } else {
                        assert(flags1[q] == flags0[q]);
                    }
                } else {
                    assert(flags1[q] == Seq::new(kind.sockets().len(), |i: int| true).update(s as int, false));
                }
            }
        }
    }

    /// Attaches a heart to every heart socket of every part, in part and socket order, and
    /// returns the kinds of all parts (the hearts last) with all joints.
    pub fn finish(self) -> (r: (Vec<CreaturePartKindId>, Vec<JointSave>))
        requires
            self.inv(),
            self.slots.len() + heart_sockets(self.kinds(), self.slots.len() as nat).len() <= u16::MAX,
        ensures
            r.0@ == self.kinds() + Seq::new(
                heart_sockets(self.kinds(), self.slots.len() as nat).len(),
                |i: int| CreaturePartKindId::Heart,
            ),
            r.1@ == self.joints@ + heart_joints(
                heart_sockets(self.kinds(), self.slots.len() as nat),
                self.slots.len() as nat,
            ),
    {
        let ghost kinds = self.kinds();
        let n = self.slots.len();
        let ghost total = heart_sockets(kinds, n as nat);
        let CreatureBuilder { slots, joints, power: _ } = self;
        let mut joints = joints;
        let ghost joints0 = joints@;
        let mut hearts: u16 = 0;
        let mut p: usize = 0;
        while p < n
            invariant
                n == slots.len(),
                kinds == Seq::new(slots.len() as nat, |i: int| slots[i].kind),
                total == heart_sockets(kinds, n as nat),
                n + total.len() <= u16::MAX,
                p <= n,
                hearts == heart_sockets(kinds, p as nat).len(),
                joints@ == joints0 + heart_joints(heart_sockets(kinds, p as nat), n as nat),
            decreases n - p,
        {
            let kind = slots[p].kind;
            let count = kind.socket_count();
            proof {
                lemma_heart_sockets_prefix_len(kinds, (p + 1) as nat, n as nat);
            }
            let mut o: usize = 0;
            while o < count
                invariant
                    n == slots.len(),
                    kinds == Seq::new(slots.len() as nat, |i: int| slots[i].kind),
                    total == heart_sockets(kinds, n as nat),
                    n + total.len() <= u16::MAX,
                    p < n,
                    kind == kinds[p as int],
                    count == kind.sockets().len(),
                    o <= count,
                    heart_sockets(kinds, (p + 1) as nat).len() <= total.len(),
                    hearts == heart_sockets(kinds, p as nat).len() + part_heart_sockets(
                        p as nat,
                        kind.sockets(),
                        o as nat,
                    ).len(),
                    joints@ == joints0 + heart_joints(
                        heart_sockets(kinds, p as nat) + part_heart_sockets(p as nat, kind.sockets(), o as nat),
                        n as nat,
                    ),
                decreases count - o,
            {
                let ghost before = heart_sockets(kinds, p as nat) + part_heart_sockets(
                    p as nat,
                    kind.sockets(),
                    o as nat,
                );
                proof {
                    lemma_part_heart_sockets_len(p as nat, kind.sockets(), (o + 1) as nat, count as nat);
                    assert(heart_sockets(kinds, (p + 1) as nat) == heart_sockets(kinds, p as nat)
                        + part_heart_sockets(p as nat, kind.sockets(), count as nat));
                }
                if kind.socket_kind(o) == SocketKindId::Heart {
                    let joint = JointSave {
                        part_a: p as u16,
                        socket_a: o as u8,
                        part_b: n as u16 + hearts,
                        socket_b: 0,
                    };
                    joints.push(joint);
                    hearts = hearts + 1;
                    proof {
                        let after = heart_sockets(kinds, p as nat) + part_heart_sockets(
                            p as nat,
                            kind.sockets(),
                            (o + 1) as nat,
                        );
                        assert(after =~= before.push((p as nat, o as nat)));
                        assert(heart_joints(after, n as nat) =~= heart_joints(before, n as nat).push(joint));
                        assert(joints@ =~= joints0 + heart_joints(after, n as nat));
                    }
                } else {
                    proof {
                        let after = heart_sockets(kinds, p as nat) + part_heart_sockets(
                            p as nat,
                            kind.sockets(),
                            (o + 1) as nat,
                        );
                        assert(after =~= before);
                    }
                }
                o += 1;
            }
            proof {
                assert(heart_sockets(kinds, (p + 1) as nat) == heart_sockets(kinds, p as nat)
                    + part_heart_sockets(p as nat, kind.sockets(), count as nat));
            }
            p += 1;
        }
        let mut kinds_out: Vec<CreaturePartKindId> = Vec::new();
        let mut i: usize = 0;
        while i < n
            invariant
                n == slots.len(),
                kinds == Seq::new(slots.len() as nat, |i: int| slots[i].kind),
                i <= n,
                kinds_out@ == kinds.take(i as int),
            decreases n - i,
        {
            kinds_out.push(slots[i].kind);
            i += 1;
            assert(kinds_out@ =~= kinds.take(i as int));
        }
        let mut h: u16 = 0;
        while h < hearts
            invariant
                n == slots.len(),
                kinds_out@ == kinds + Seq::new(h as nat, |i: int| CreaturePartKindId::Heart),
                h <= hearts,
            decreases hearts - h,
        {
            kinds_out.push(CreaturePartKindId::Heart);
            h += 1;
            assert(kinds_out@ =~= kinds + Seq::new(h as nat, |i: int| CreaturePartKindId::Heart));
        }
        (kinds_out, joints)
    }
}

/// A randomly generated creature, ready to be spawned.
pub struct NpcBlueprint {
    /// Kinds of all parts; part 0 is the head, and the hearts come last.
    pub parts: Vec<CreaturePartKindId>,
    /// All joints, by part and socket indices.
    pub joints: Vec<JointSave>,
    /// The depth level the creature spawns at.
    pub depth: u16,
    /// The kind of the creature.
    pub kind: CreatureKindId,
    /// Whether the creature spawns in the background layer, one level below the player.
    pub in_background: bool,
}

/// Returns whether a new creature may spawn while `enabled_creatures` non-player creatures are
/// active.
pub fn spawn_allowed(enabled_creatures: usize) -> (r: bool)
    ensures
        r == (enabled_creatures < MAX_CREATURES),
{
    enabled_creatures < MAX_CREATURES
}

/// Draws a random part kind other than a heart.
fn random_part_kind(rng: &mut SmallRng) -> (k: CreaturePartKindId)
    ensures
        k != CreaturePartKindId::Heart,
{
    let i = random_in(rng, 1, CreaturePartKindId::COUNT);
    match CreaturePartKindId::from_repr(i) {
        Some(k) => k,
        None => {
            proof {
                assert(false);
            }
            CreaturePartKindId::TriBlob
        },
    }
}

/// Number of heart sockets of a part of kind `k`.
pub open spec fn heart_count(k: CreaturePartKindId) -> nat {
    part_heart_sockets(0, k.sockets(), k.sockets().len()).len()
}

/// A new part of kind `k` still fits: with it, and with a heart at every heart socket, all
/// parts can still be numbered by `u16`.
pub open spec fn fits_next(kinds: Seq<CreaturePartKindId>, k: CreaturePartKindId) -> bool {
    kinds.len() + 1 + heart_sockets(kinds.push(k), kinds.len() + 1).len() <= u16::MAX
}

/// The parts `kinds` are powerful enough for a creature at depth `target`.
pub open spec fn strong_enough(kinds: Seq<CreaturePartKindId>, target: u16) -> bool {
    (total_power(kinds) / DEPTH_LEVEL_POWER as nat) as u16 >= target
}

/// Growth has ended: a drawn part could not be attached or would not fit, or the creature is
/// powerful enough for depth `target`.
pub open spec fn growth_done(g: (Seq<CreaturePartKindId>, Seq<JointSave>, bool), target: u16) -> bool {
    g.2 || strong_enough(g.0, target)
}

/// One step of growth with the drawn kind `k`, from the parts, joints and stopped flag `g`.
///
/// Once growth has ended nothing changes. Otherwise a part that would not fit, or that has no
/// free compatible socket pair, stops growth; else it is attached, as part number
/// `g.0.len()`, at the first such pair.
pub open spec fn grow_step(
    g: (Seq<CreaturePartKindId>, Seq<JointSave>, bool),
    k: CreaturePartKindId,
    target: u16,
) -> (Seq<CreaturePartKindId>, Seq<JointSave>, bool) {
    if growth_done(g, target) {
        g
    } else if !fits_next(g.0, k) {
        (g.0, g.1, true)
    } else {
        match first_attachment(g.0, flags_from(g.0, g.1), k) {
            Some(t) => (
                g.0.push(k),
                g.1.push(
                    JointSave {
                        part_a: g.0.len() as u16,
                        socket_a: t.2 as u8,
                        part_b: t.0 as u16,
                        socket_b: t.1 as u8,
                    },
                ),
                false,
            ),
            None => (g.0, g.1, true),
        }
    }
}

/// The parts, joints and stopped flag of a creature grown from the head `head` with the drawn
/// kinds `draws`, in order, for depth `target`.
pub open spec fn grown(head: CreaturePartKindId, draws: Seq<CreaturePartKindId>, target: u16) -> (
    Seq<CreaturePartKindId>,
    Seq<JointSave>,
    bool,
)
    decreases draws.len(),
{
    if draws.len() == 0 {
        (seq![head], seq![], false)
    } else {
        grow_step(grown(head, draws.drop_last(), target), draws.last(), target)
    }
}

/// A generated creature `b`, for the player at `player_depth`: grown from the head `head` with
/// the drawn kinds `draws` (none of them hearts) until growth ended, then given a heart at every
/// heart socket.
pub open spec fn grown_from(
    b: NpcBlueprint,
    player_depth: u16,
    head: CreaturePartKindId,
    draws: Seq<CreaturePartKindId>,
) -> bool {
    let target = (player_depth + DIFFICULTY) as u16;
    let g = grown(head, draws, target);
    let hs = heart_sockets(g.0, g.0.len());
    &&& head != CreaturePartKindId::Heart
    &&& forall|i: int| 0 <= i < draws.len() ==> #[trigger] draws[i] != CreaturePartKindId::Heart
    &&& growth_done(g, target)
    &&& b.parts@ == g.0 + Seq::new(hs.len(), |i: int| CreaturePartKindId::Heart)
    &&& b.joints@ == g.1 + heart_joints(hs, g.0.len())
}

/// Returns the number of heart sockets of a part of kind `kind`.
fn heart_socket_count(kind: CreaturePartKindId) -> (c: usize)
    ensures
        c == heart_count(kind),
        c <= 5,
{
    let count = kind.socket_count();
    let mut c: usize = 0;
    let mut o: usize = 0;
    while o < count
        invariant
            count == kind.sockets().len(),
            o <= count,
            c == part_heart_sockets(0, kind.sockets(), o as nat).len(),
            c <= o,
        decreases count - o,
    {
        if kind.socket_kind(o) == SocketKindId::Heart {
            c += 1;
        }
        o += 1;
    }
    proof {
        lemma_at_most_five_hearts(kind);
    }
    c
}

impl CreatureBuilder {
    /// One step of growth with the drawn kind `kind` towards depth `target`, where `hearts` is
    /// the number of heart sockets of the parts: attaches a part as [`grow_step`] says, and
    /// returns whether growth stopped.
    fn grow(&mut self, hearts: &mut usize, kind: CreaturePartKindId, target: u16) -> (stopped: bool)
        requires
            old(self).inv(),
            kind != CreaturePartKindId::Heart,
            *old(hearts) == heart_sockets(old(self).kinds(), old(self).slots.len() as nat).len(),
            old(self).slots.len() + *old(hearts) <= u16::MAX,
            !strong_enough(old(self).kinds(), target),
        ensures
            final(self).inv(),
            *final(hearts) == heart_sockets(final(self).kinds(), final(self).slots.len() as nat).len(),
            final(self).slots.len() + *final(hearts) <= u16::MAX,
            final(self).kinds() == grow_step((old(self).kinds(), old(self).joints@, false), kind, target).0,
            final(self).joints@ == grow_step((old(self).kinds(), old(self).joints@, false), kind, target).1,
            stopped == grow_step((old(self).kinds(), old(self).joints@, false), kind, target).2,
            stopped ==> final(self).slots.len() == old(self).slots.len(),
            !stopped ==> final(self).slots.len() == old(self).slots.len() + 1,
    {
        let ghost kinds0 = self.kinds();
        let ghost joints0 = self.joints@;
        let h = heart_socket_count(kind);
        proof {
            lemma_heart_sockets_push(kinds0, kind);
        }
        if self.slots.len() + 1 + *hearts + h > 65535usize {
            return true;
        }
        proof {
            lemma_total_power_bounded_by(kinds0);
        }
        let attached = self.try_attach(kind);
        if attached {
            *hearts = *hearts + h;
        }
        !attached
    }
}

/// Grows a creature from the head `head` with the drawn kinds `draws`, in order, for depth
/// `target`: every drawn part is attached at the first free, compatible socket pair, until one
/// cannot be attached or would no longer fit, or the creature is powerful enough. Returns the
/// builder and whether growth stopped at a part.
pub fn grow_creature(head: CreaturePartKindId, draws: &Vec<CreaturePartKindId>, target: u16) -> (r: (
    CreatureBuilder,
    bool,
))
    requires
        head != CreaturePartKindId::Heart,
        forall|i: int| 0 <= i < draws.len() ==> #[trigger] draws@[i] != CreaturePartKindId::Heart,
    ensures
        r.0.inv(),
        r.0.kinds() == grown(head, draws@, target).0,
        r.0.joints@ == grown(head, draws@, target).1,
        r.1 == grown(head, draws@, target).2,
        r.0.slots.len() + heart_sockets(r.0.kinds(), r.0.slots.len() as nat).len() <= u16::MAX,
        !r.1 && r.0.slots.len() <= draws.len() ==> total_power(r.0.kinds()) / (DEPTH_LEVEL_POWER as nat)
            >= target,
        r.0.slots.len() >= 2 ==> total_power(r.0.kinds().drop_last()) / (DEPTH_LEVEL_POWER as nat) < target,
{
    let mut builder = CreatureBuilder::new(head);
    let mut hearts = heart_socket_count(head);
    proof {
        lemma_heart_sockets_single(head);
    }
    let mut stopped = false;
    let mut i: usize = 0;
    while i < draws.len()
        invariant
            i <= draws.len(),
            forall|j: int| 0 <= j < draws.len() ==> #[trigger] draws@[j] != CreaturePartKindId::Heart,
            builder.inv(),
            hearts == heart_sockets(builder.kinds(), builder.slots.len() as nat).len(),
            builder.slots.len() + hearts <= u16::MAX,
            grown(head, draws@.take(i as int), target).0 == builder.kinds(),
            grown(head, draws@.take(i as int), target).1 == builder.joints@,
            grown(head, draws@.take(i as int), target).2 == stopped,
        decreases draws.len() - i,
    {
        proof {
            assert(draws@.take(i + 1).drop_last() =~= draws@.take(i as int));
            assert(draws@.take(i + 1).last() == draws@[i as int]);
        }
        if !stopped && max_depth_from_power(builder.power) < target {
            stopped = builder.grow(&mut hearts, draws[i], target);
        }
        i += 1;
    }
    assert(draws@.take(draws.len() as int) =~= draws@);
    proof {
        lemma_grown_power(head, draws@, target);
    }
    (builder, stopped)
}

/// Generates a random creature for a player at depth `player_depth`.
///
/// The creature grows from a random head; each step draws a random part kind other than a
/// heart and attaches it at its first free, compatible socket pair, until the creature is
/// powerful enough for the player's depth (plus [`DIFFICULTY`]), the part cannot be attached,
/// or the part would no longer fit the `u16` part numbers (with the hearts still to come).
/// Then a heart is attached to every heart socket. It spawns at the player's depth or, half of
/// the time, one level below in the background, and is player-friendly, wandering or hostile.
pub fn generate_npc(player_depth: u16) -> (b: NpcBlueprint)
    requires
        player_depth < u16::MAX,
    ensures
        exists|head: CreaturePartKindId, draws: Seq<CreaturePartKindId>|
            grown_from(b, player_depth, head, draws),
        joints_wf(b.parts@, b.joints@),
        b.kind == CreatureKindId::PlayerFriendly || b.kind == CreatureKindId::Wandering || b.kind
            == CreatureKindId::Hostile,
        b.depth == player_depth + if b.in_background {
            1int
        } else {
            0int
        },
{
    let mut rng = make_small_rng();
    let in_background = random_half(&mut rng);
    let head = random_part_kind(&mut rng);
    let target = player_depth + DIFFICULTY;
    // Every attached part adds at least one power, so this many drawn parts always end growth;
    // the draws that growth does not reach are never used.
    let count: usize = DEPTH_LEVEL_POWER as usize * target as usize;
    let mut draws: Vec<CreaturePartKindId> = Vec::new();
    while draws.len() < count
        invariant
            draws.len() <= count,
            forall|j: int| 0 <= j < draws.len() ==> #[trigger] draws@[j] != CreaturePartKindId::Heart,
        decreases count - draws.len(),
    {
        let kind = random_part_kind(&mut rng);
        draws.push(kind);
        assert(draws@[draws.len() - 1] == kind);
    }
    let (builder, _) = grow_creature(head, &draws, target);
    proof {
        let g = grown(head, draws@, target);
        lemma_grown_long(head, draws@, target);
        lemma_grown_tree(head, draws@, target);
        if !growth_done(g, target) {
            lemma_power_at_least_parts(builder.kinds());
            crate::creature::lemma_total_power_bounded(builder.kinds());
            assert(total_power(g.0) >= DEPTH_LEVEL_POWER * target + 1);
            assert(total_power(g.0) <= DEPTH_LEVEL_POWER * u16::MAX);
            assert(strong_enough(g.0, target));
        }
    }
    let ghost drawn = draws@;
    proof {
        lemma_finish_wf(builder);
    }
    let (parts, joints_out) = builder.finish();
    let kind = match CreatureKindId::from_repr(random_in(&mut rng, 2, CreatureKindId::COUNT)) {
        Some(k) => k,
        None => {
            proof {
                assert(false);
            }
            CreatureKindId::Wandering
        },
    };
    let depth = if in_background {
        player_depth + 1
    } else {
        player_depth
    };
    let b = NpcBlueprint { parts, joints: joints_out, depth, kind, in_background };
    proof {
        assert(grown_from(b, player_depth, head, drawn));
    }
    b
}

/// A grown creature is a tree over its head, and it stops growing once it is strong enough:
/// joint `i` attaches part `i + 1` to an earlier part, and the parts before the last one were
/// not yet powerful enough for depth `target`.
pub proof fn lemma_grown_tree(head: CreaturePartKindId, draws: Seq<CreaturePartKindId>, target: u16)
    ensures
        ({
            let g = grown(head, draws, target);
            &&& g.1.len() + 1 == g.0.len()
            &&& g.0.len() <= u16::MAX
            &&& forall|i: int|
                0 <= i < g.1.len() ==> (#[trigger] g.1[i]).part_a == i + 1 && g.1[i].part_b <= i
            &&& g.0.len() == 1 || !strong_enough(g.0.drop_last(), target)
        }),
    decreases draws.len(),
{
    if draws.len() > 0 {
        let prev = grown(head, draws.drop_last(), target);
        let k = draws.last();
        lemma_grown_tree(head, draws.drop_last(), target);
        if !growth_done(prev, target) && fits_next(prev.0, k) {
            let flags = flags_from(prev.0, prev.1);
            if let Some(t) = first_attachment(prev.0, flags, k) {
                let t2 = choose|t: (int, int, int)| first_valid(prev.0, flags, k, t);
                assert(first_valid(prev.0, flags, k, t2));
                assert(t == t2);
                let g = grown(head, draws, target);
                assert(g.0.drop_last() =~= prev.0);
                assert forall|i: int| 0 <= i < g.1.len() implies (#[trigger] g.1[i]).part_a == i + 1 && g.1[i].part_b
                    <= i by {
                    if i < prev.1.len() {
                        assert(g.1[i] == prev.1[i]);
                    }
                }
            }
        }
    }
}

/// Growth and power: a creature that did not take every drawn part, and was not stopped by one,
/// is powerful enough for depth `target` (its power is at least [`DEPTH_LEVEL_POWER`] per
/// level); and before its last part was attached it was not yet that powerful.
pub proof fn lemma_grown_power(head: CreaturePartKindId, draws: Seq<CreaturePartKindId>, target: u16)
    ensures
        ({
            let g = grown(head, draws, target);
            &&& !g.2 && g.0.len() <= draws.len() ==> total_power(g.0) / (DEPTH_LEVEL_POWER as nat) >= target
            &&& g.0.len() >= 2 ==> total_power(g.0.drop_last()) / (DEPTH_LEVEL_POWER as nat) < target
        }),
{
    let g = grown(head, draws, target);
    lemma_grown_long(head, draws, target);
    lemma_grown_tree(head, draws, target);
    crate::creature::lemma_total_power_bounded(g.0);
    assert(total_power(g.0) / (DEPTH_LEVEL_POWER as nat) <= g.0.len());
    if g.0.len() >= 2 {
        crate::creature::lemma_total_power_bounded(g.0.drop_last());
        assert(total_power(g.0.drop_last()) / (DEPTH_LEVEL_POWER as nat) <= g.0.len());
    }
}

/// Until growth ends, every drawn part has been attached.
proof fn lemma_grown_long(head: CreaturePartKindId, draws: Seq<CreaturePartKindId>, target: u16)
    ensures
        !growth_done(grown(head, draws, target), target) ==> grown(head, draws, target).0.len() == draws.len()
            + 1,
    decreases draws.len(),
{
    if draws.len() > 0 {
        lemma_grown_long(head, draws.drop_last(), target);
    }
}

/// A creature of non-heart parts has at least one power per part.
proof fn lemma_power_at_least_parts(kinds: Seq<CreaturePartKindId>)
    requires
        forall|i: int| 0 <= i < kinds.len() ==> #[trigger] kinds[i] != CreaturePartKindId::Heart,
    ensures
        total_power(kinds) >= kinds.len(),
    decreases kinds.len(),
{
    if kinds.len() > 0 {
        assert forall|i: int| 0 <= i < kinds.drop_last().len() implies #[trigger] kinds.drop_last()[i]
            != CreaturePartKindId::Heart by {
            assert(kinds.drop_last()[i] == kinds[i]);
        }
        lemma_power_at_least_parts(kinds.drop_last());
        assert(kinds.last() == kinds[kinds.len() - 1]);
    }
}

/// The heart sockets of a creature grow by those of a new last part.
proof fn lemma_heart_sockets_push(kinds: Seq<CreaturePartKindId>, k: CreaturePartKindId)
    ensures
        heart_sockets(kinds.push(k), kinds.len() + 1).len() == heart_sockets(kinds, kinds.len()).len()
            + heart_count(k),
{
    let n = kinds.len();
    lemma_heart_sockets_extend(kinds, k, n);
    assert(kinds.push(k)[n as int] == k);
    lemma_part_heart_sockets_same_len(n, 0, k.sockets(), k.sockets().len());
}

/// Adding a part does not change the heart sockets of the earlier parts.
proof fn lemma_heart_sockets_extend(kinds: Seq<CreaturePartKindId>, k: CreaturePartKindId, upto: nat)
    requires
        upto <= kinds.len(),
    ensures
        heart_sockets(kinds.push(k), upto) == heart_sockets(kinds, upto),
    decreases upto,
{
    if upto > 0 {
        lemma_heart_sockets_extend(kinds, k, (upto - 1) as nat);
        assert(kinds.push(k)[upto - 1] == kinds[upto - 1]);
    }
}

/// The heart sockets of a lone head are its own.
proof fn lemma_heart_sockets_single(head: CreaturePartKindId)
    ensures
        heart_sockets(seq![head], 1).len() == heart_count(head),
{
    lemma_heart_sockets_push(seq![], head);
    assert(Seq::<CreaturePartKindId>::empty().push(head) =~= seq![head]);
}

/// The heart sockets of a part name its heart sockets, in increasing socket order.
proof fn lemma_part_heart_sockets_facts(p: nat, socks: Seq<SocketKindId>, upto: nat)
    requires
        upto <= socks.len(),
    ensures
        forall|i: int|
            0 <= i < part_heart_sockets(p, socks, upto).len() ==> {
                let e = #[trigger] part_heart_sockets(p, socks, upto)[i];
                &&& e.0 == p
                &&& e.1 < upto
                &&& socks[e.1 as int] == SocketKindId::Heart
            },
        forall|i: int, j: int|
            0 <= i < j < part_heart_sockets(p, socks, upto).len() ==> #[trigger] part_heart_sockets(
                p,
                socks,
                upto,
            )[i].1 < #[trigger] part_heart_sockets(p, socks, upto)[j].1,
    decreases upto,
{
    if upto > 0 {
        lemma_part_heart_sockets_facts(p, socks, (upto - 1) as nat);
    }
}

/// The heart sockets of the first `upto` parts name heart sockets of those parts, without
/// repetition.
proof fn lemma_heart_sockets_facts(kinds: Seq<CreaturePartKindId>, upto: nat)
    requires
        upto <= kinds.len(),
    ensures
        forall|i: int|
            0 <= i < heart_sockets(kinds, upto).len() ==> {
                let e = #[trigger] heart_sockets(kinds, upto)[i];
                &&& e.0 < upto
                &&& e.1 < kinds[e.0 as int].sockets().len()
                &&& kinds[e.0 as int].sockets()[e.1 as int] == SocketKindId::Heart
            },
        heart_sockets(kinds, upto).no_duplicates(),
    decreases upto,
{
    if upto > 0 {
        let q = (upto - 1) as nat;
        lemma_heart_sockets_facts(kinds, q);
        let prev = heart_sockets(kinds, q);
        let part = part_heart_sockets(q, kinds[q as int].sockets(), kinds[q as int].sockets().len());
        lemma_part_heart_sockets_facts(q, kinds[q as int].sockets(), kinds[q as int].sockets().len());
        let all = heart_sockets(kinds, upto);
        assert(all == prev + part);
        assert forall|i: int| 0 <= i < all.len() implies {
            let e = #[trigger] all[i];
            &&& e.0 < upto
            &&& e.1 < kinds[e.0 as int].sockets().len()
            &&& kinds[e.0 as int].sockets()[e.1 as int] == SocketKindId::Heart
        } by {
            if i < prev.len() {
                assert(all[i] == prev[i]);
            } else {
                assert(all[i] == part[i - prev.len()]);
            }
        }
        assert forall|i: int, j: int| 0 <= i < all.len() && 0 <= j < all.len() && i != j implies all[i]
            != all[j] by {
            if i < prev.len() && j < prev.len() {
                assert(all[i] == prev[i] && all[j] == prev[j]);
            } else if i < prev.len() {
                assert(all[i] == prev[i] && all[j] == part[j - prev.len()]);
            } else if j < prev.len() {
                assert(all[j] == prev[j] && all[i] == part[i - prev.len()]);
            } else {
                assert(all[i] == part[i - prev.len()] && all[j] == part[j - prev.len()]);
                if i < j {
                    assert(part[i - prev.len()].1 < part[j - prev.len()].1);
                } else {
                    assert(part[j - prev.len()].1 < part[i - prev.len()].1);
                }
            }
        }
    }
}

/// No part has more than five heart sockets.
proof fn lemma_at_most_five_hearts(k: CreaturePartKindId)
    ensures
        part_heart_sockets(0, k.sockets(), k.sockets().len()).len() <= 5,
{
    reveal_with_fuel(part_heart_sockets, 14);
}

/// The heart sockets of `upto` parts are at most five per part.
proof fn lemma_heart_sockets_bounded(kinds: Seq<CreaturePartKindId>, upto: nat)
    requires
        upto <= kinds.len(),
    ensures
        heart_sockets(kinds, upto).len() <= 5 * upto,
    decreases upto,
{
    if upto > 0 {
        let q = (upto - 1) as nat;
        lemma_heart_sockets_bounded(kinds, q);
        lemma_at_most_five_hearts(kinds[q as int]);
        lemma_part_heart_sockets_same_len(q, 0, kinds[q as int].sockets(), kinds[q as int].sockets().len());
    }
}

/// The number of heart sockets of a part does not depend on the part's index.
proof fn lemma_part_heart_sockets_same_len(p: nat, p2: nat, socks: Seq<SocketKindId>, upto: nat)
    ensures
        part_heart_sockets(p, socks, upto).len() == part_heart_sockets(p2, socks, upto).len(),
    decreases upto,
{
    if upto > 0 {
        lemma_part_heart_sockets_same_len(p, p2, socks, (upto - 1) as nat);
    }
}

/// Attaching a heart to every heart socket keeps the joints of a built creature well formed.
proof fn lemma_finish_wf(b: CreatureBuilder)
    requires
        b.inv(),
        b.slots.len() + heart_sockets(b.kinds(), b.slots.len() as nat).len() <= u16::MAX,
    ensures
        joints_wf(
            b.kinds() + Seq::new(
                heart_sockets(b.kinds(), b.slots.len() as nat).len(),
                |i: int| CreaturePartKindId::Heart,
            ),
            b.joints@ + heart_joints(heart_sockets(b.kinds(), b.slots.len() as nat), b.slots.len() as nat),
        ),
{
    let kinds = b.kinds();
    let n = b.slots.len() as nat;
    let hs = heart_sockets(kinds, n);
    let all_kinds = kinds + Seq::new(hs.len(), |i: int| CreaturePartKindId::Heart);
    let hj = heart_joints(hs, n);
    let joints0 = b.joints@;
    let all_joints = joints0 + hj;
    lemma_heart_sockets_facts(kinds, n);
    lemma_heart_sockets_bounded(kinds, n);
    assert forall|i: int| 0 <= i < all_joints.len() implies {
        &&& (#[trigger] socket_of(all_kinds, all_joints[i].part_a, all_joints[i].socket_a)) is Some
        &&& socket_of(all_kinds, all_joints[i].part_a, all_joints[i].socket_a) == socket_of(
            all_kinds,
            all_joints[i].part_b,
            all_joints[i].socket_b,
        )
    } by {
        if i < joints0.len() {
            assert(all_joints[i] == joints0[i]);
            assert(socket_of(kinds, joints0[i].part_a, joints0[i].socket_a) is Some);
            assert(all_kinds[joints0[i].part_a as int] == kinds[joints0[i].part_a as int]);
            assert(all_kinds[joints0[i].part_b as int] == kinds[joints0[i].part_b as int]);
        } else {
            let h = i - joints0.len();
            assert(all_joints[i] == hj[h]);
            let e = hs[h];
            assert(e.0 < n && e.1 < kinds[e.0 as int].sockets().len());
            assert(all_kinds[e.0 as int] == kinds[e.0 as int]);
            assert(all_kinds[n + h] == CreaturePartKindId::Heart);
            assert(e.1 < MAX_SOCKETS);
            assert(hj[h].part_a == e.0 as u16 && hj[h].part_a as int == e.0);
            assert(hj[h].socket_a as int == e.1);
            assert(hj[h].part_b as int == n + h);
            assert(socket_of(all_kinds, hj[h].part_a, hj[h].socket_a) == Some(SocketKindId::Heart));
        }
    }
    let ends0 = joint_ends(joints0);
    let ends = joint_ends(all_joints);
    assert forall|a: int, c: int| 0 <= a < ends.len() && 0 <= c < ends.len() && a != c implies ends[a]
        != ends[c] by {
        lemma_all_end(b, a);
        lemma_all_end(b, c);
        if a / 2 < joints0.len() && c / 2 < joints0.len() {
            assert(ends[a] == ends0[a] && ends[c] == ends0[c]);
        } else if a / 2 >= joints0.len() && c / 2 >= joints0.len() {
            let ha = a / 2 - joints0.len();
            let hc = c / 2 - joints0.len();
            if a % 2 == 0 && c % 2 == 0 {
                assert(ha != hc);
                assert(hs[ha] != hs[hc]);
                assert(hs[ha].0 < n && hs[hc].0 < n);
                assert(hs[ha].1 < MAX_SOCKETS && hs[hc].1 < MAX_SOCKETS);
            } else if a % 2 == 1 && c % 2 == 1 {
                assert(ha != hc);
            } else {
            }
        } else if a / 2 < joints0.len() {
            if c % 2 == 0 {
                let e = ends[a];
                assert(kinds[e.0 as int].sockets()[e.1 as int] != SocketKindId::Heart);
            }
        } else {
            if a % 2 == 0 {
                let e = ends[c];
                assert(kinds[e.0 as int].sockets()[e.1 as int] != SocketKindId::Heart);
            }
        }
    }
    assert(ends.no_duplicates());
}

/// What each end of the joints of a finished creature is: an end of a built joint, which is a
/// non-heart socket of a built part, or an end of a heart joint.
proof fn lemma_all_end(b: CreatureBuilder, k: int)
    requires
        b.inv(),
        b.slots.len() + heart_sockets(b.kinds(), b.slots.len() as nat).len() <= u16::MAX,
        0 <= k < 2 * (b.joints.len() + heart_sockets(b.kinds(), b.slots.len() as nat).len()),
    ensures
        ({
            let kinds = b.kinds();
            let n = b.slots.len() as nat;
            let hs = heart_sockets(kinds, n);
            let joints0 = b.joints@;
            let e = joint_ends(joints0 + heart_joints(hs, n))[k];
            if k / 2 < joints0.len() {
                &&& e == joint_ends(joints0)[k]
                &&& e.0 < n
                &&& kinds[e.0 as int].sockets()[e.1 as int] != SocketKindId::Heart
            } else if k % 2 == 0 {
                &&& e == (hs[k / 2 - joints0.len()].0 as u16, hs[k / 2 - joints0.len()].1 as u8)
                &&& e.0 < n
                &&& kinds[e.0 as int].sockets()[e.1 as int] == SocketKindId::Heart
            } else {
                &&& e == (((n + k / 2 - joints0.len()) as nat) as u16, 0u8)
            }
        }),
{
    let kinds = b.kinds();
    let n = b.slots.len() as nat;
    let hs = heart_sockets(kinds, n);
    let joints0 = b.joints@;
    let all_joints = joints0 + heart_joints(hs, n);
    lemma_heart_sockets_facts(kinds, n);
    let i = k / 2;
    if i < joints0.len() {
        assert(all_joints[i] == joints0[i]);
        let e0 = joint_ends(joints0)[k];
        lemma_end_socket(kinds, joints0, k);
        assert(e0.0 < n);
        assert(socket_of(kinds, e0.0, e0.1) is Some);
        let fl = flags_from(kinds, joints0);
        assert(joint_ends(joints0).contains(e0));
        assert(fl[e0.0 as int][e0.1 as int] == !joint_ends(joints0).contains((e0.0 as int as u16, e0.1 as int as u8)));
        assert(!b.flags()[e0.0 as int][e0.1 as int]);
    } else {
        let h = i - joints0.len();
        assert(all_joints[i] == heart_joints(hs, n)[h]);
    }
}

/// Two first attachments are the same attachment.
proof fn lemma_first_valid_unique(
    kinds: Seq<CreaturePartKindId>,
    flags: Seq<Seq<bool>>,
    kind: CreaturePartKindId,
    t: (int, int, int),
)
    requires
        first_valid(kinds, flags, kind, t),
    ensures
        first_attachment(kinds, flags, kind) == Some(t),
{
    let c = choose|c: (int, int, int)| first_valid(kinds, flags, kind, c);
    assert(first_valid(kinds, flags, kind, c));
    if c != t {
        if lex_before(c, t) {
            assert(!valid_attach(kinds, flags, kind, c));
        } else {
            assert(lex_before(t, c));
            assert(!valid_attach(kinds, flags, kind, t));
        }
    }
}

proof fn lemma_total_power_bounded_by(kinds: Seq<CreaturePartKindId>)
    ensures
        total_power(kinds) <= DEPTH_LEVEL_POWER * kinds.len(),
{
    crate::creature::lemma_total_power_bounded(kinds);
}

/// The ends of joints after pushing `j`: the old ends, then both ends of `j`.
proof fn lemma_joint_ends_push(joints: Seq<JointSave>, j: JointSave)
    ensures
        joint_ends(joints.push(j)) =~= joint_ends(joints) + seq![
            (j.part_a, j.socket_a),
            (j.part_b, j.socket_b),
        ],
{
    let e1 = joint_ends(joints.push(j));
    let e0 = joint_ends(joints);
    assert forall|k: int| 0 <= k < e1.len() implies e1[k] == (e0 + seq![
        (j.part_a, j.socket_a),
        (j.part_b, j.socket_b),
    ])[k] by {
        if k < e0.len() {
            assert(k / 2 < joints.len());
        } else if k == e0.len() {
            assert(k / 2 == joints.len());
            assert(k % 2 == 0);
        } else {
            assert(k / 2 == joints.len());
            assert(k % 2 == 1);
        }
    }
}

/// An end of a well-formed joint names an existing socket, which is not a heart socket when
/// the creature has no hearts.
proof fn lemma_end_socket(kinds: Seq<CreaturePartKindId>, joints: Seq<JointSave>, k: int)
    requires
        joints_wf(kinds, joints),
        0 <= k < joint_ends(joints).len(),
    ensures
        socket_of(kinds, joint_ends(joints)[k].0, joint_ends(joints)[k].1) is Some,
        joint_ends(joints)[k].0 < kinds.len(),
{
    let i = k / 2;
    assert(0 <= i < joints.len());
    assert(socket_of(kinds, joints[i].part_a, joints[i].socket_a) is Some);
}

/// Appending a part keeps the sockets of existing parts.
proof fn lemma_socket_of_push(kinds: Seq<CreaturePartKindId>, kind: CreaturePartKindId, part: u16, socket: u8)
    requires
        socket_of(kinds, part, socket) is Some,
    ensures
        socket_of(kinds.push(kind), part, socket) == socket_of(kinds, part, socket),
{
    assert(kinds.push(kind)[part as int] == kinds[part as int]);
}

/// Membership after appending two ends other than `x`.
proof fn lemma_ends_append_other(e0: Seq<(u16, u8)>, a: (u16, u8), b: (u16, u8), x: (u16, u8))
    requires
        x != a,
        x != b,
    ensures
        (e0 + seq![a, b]).contains(x) == e0.contains(x),
{
    let e1 = e0 + seq![a, b];
    if e1.contains(x) {
        let k = choose|k: int| 0 <= k < e1.len() && e1[k] == x;
        assert(k < e0.len());
        assert(e0[k] == x);
    }
    if e0.contains(x) {
        let k = choose|k: int| 0 <= k < e0.len() && e0[k] == x;
        assert(e1[k] == x);
    }
}

/// Heart sockets of a part's prefix are no more than its sockets considered.
proof fn lemma_part_heart_sockets_len(p: nat, socks: Seq<SocketKindId>, upto: nat, all: nat)
    requires
        upto <= all,
    ensures
        part_heart_sockets(p, socks, upto).len() <= part_heart_sockets(p, socks, all).len(),
        part_heart_sockets(p, socks, upto).len() <= upto,
    decreases all,
{
    if upto < all {
        lemma_part_heart_sockets_len(p, socks, upto, (all - 1) as nat);
    } else if upto > 0 {
        lemma_part_heart_sockets_len(p, socks, (upto - 1) as nat, (upto - 1) as nat);
    }
}

/// Heart sockets of fewer parts are no more than those of more parts.
proof fn lemma_heart_sockets_prefix_len(kinds: Seq<CreaturePartKindId>, upto: nat, all: nat)
    requires
        upto <= all,
    ensures
        heart_sockets(kinds, upto).len() <= heart_sockets(kinds, all).len(),
    decreases all,
{
    if upto < all {
        lemma_heart_sockets_prefix_len(kinds, upto, (all - 1) as nat);
    }
}

} // verus!
