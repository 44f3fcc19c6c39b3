//! Packets as the engine sees them: a payload that it never looks into, with
//! the time stamp and the few numbers that scheduling needs.

use crate::text::{cat2, decimal, decimal_of};
use crate::timestamp::Timestamp;
use vstd::prelude::*;

verus! {

/// The type of a payload that nothing is declared of.
pub const TYPE_NONE: u64 = 0;

/// A reference to a payload. To copy a packet is to share its payload.
#[derive(Debug, Clone, Copy, PartialEq, Eq, Structural)]
pub struct Packet {
    /// The number under which the payload is kept; `None` for a packet that
    /// only carries a time stamp.
    pub payload: Option<u64>,
    pub stamp: Timestamp,
    pub kind: u64,
    /// How many bytes the payload takes, where that is known.
    pub bytes: u64,
}

impl Packet {
    /// A packet without a payload.
    pub fn empty() -> (p: Packet)
        ensures
            p.is_hollow(),
            p.stamp.0 == i64::MIN,
            p.kind == TYPE_NONE,
            p.bytes == 0,
    {
        Packet { payload: None, stamp: Timestamp::unset(), kind: TYPE_NONE, bytes: 0 }
    }

    /// A packet with a payload of which nothing is declared, without a time
    /// stamp.
    pub fn new(payload: u64) -> (p: Packet)
        ensures
            p.payload == Some(payload),
            p.stamp.0 == i64::MIN,
            p.kind == TYPE_NONE,
            p.bytes == 0,
    {
        Packet { payload: Some(payload), stamp: Timestamp::unset(), kind: TYPE_NONE, bytes: 0 }
    }

    /// The packet with a time stamp.
    pub fn at(self, stamp: Timestamp) -> (p: Packet)
        ensures
            p == (Packet { stamp, ..self }),
    {
        Packet { payload: self.payload, stamp, kind: self.kind, bytes: self.bytes }
    }

    /// The packet with a payload of a declared type and size.
    pub fn of_type(self, kind: u64, bytes: u64) -> (p: Packet)
        ensures
            p == (Packet { kind, bytes, ..self }),
    {
        Packet { payload: self.payload, stamp: self.stamp, kind, bytes }
    }

    pub open spec fn is_hollow(self) -> bool {
        self.payload is None
    }

    /// Whether the packet has no payload.
    pub fn is_empty(&self) -> (r: bool)
        ensures
            r == self.is_hollow(),
    {
        self.payload.is_none()
    }

    pub fn timestamp(&self) -> (r: Timestamp)
        ensures
            r == self.stamp,
    {
        self.stamp
    }

    pub fn set_timestamp(&mut self, stamp: Timestamp)
        ensures
            *final(self) == (Packet { stamp, ..*old(self) }),
    {
        self.stamp = stamp;
    }

    pub fn type_id(&self) -> (r: u64)
        ensures
            r == self.kind,
    {
        self.kind
    }

    pub fn byte_size(&self) -> (r: u64)
        ensures
            r == self.bytes,
    {
        self.bytes
    }
}

// ------------------------------------------------------------ names of types

/// What the types of payloads are called in messages.
pub struct TypeNames {
    entries: Vec<(u64, String)>,
}

/// The names that some entries give. A later entry of a type replaces an
/// earlier one.
spec fn names_given(entries: Seq<(u64, String)>) -> Map<u64, Seq<char>>
    decreases entries.len(),
{
    if entries.len() == 0 {
        Map::empty()
    } else {
        names_given(entries.drop_last()).insert(entries.last().0, entries.last().1@)
    }
}

/// What a type is called: its name, or its number where it has none.
pub open spec fn name_of_type(names: Map<u64, Seq<char>>, id: u64) -> Seq<char> {
    if names.contains_key(id) {
        names[id]
    } else {
        "type#"@ + decimal(id as nat)
    }
}

impl View for TypeNames {
    type V = Map<u64, Seq<char>>;

    closed spec fn view(&self) -> Map<u64, Seq<char>> {
        names_given(self.entries@)
    }
}

impl TypeNames {
    /// No names.
    pub fn new() -> (r: TypeNames)
        ensures
            r@ == Map::<u64, Seq<char>>::empty(),
    {
        TypeNames { entries: Vec::new() }
    }

    /// Names a type.
    pub fn set(&mut self, id: u64, name: &str)
        ensures
            final(self)@ == old(self)@.insert(id, name@),
    {
        self.entries.push((id, name.to_owned()));
        assert(self.entries@.drop_last() =~= old(self).entries@);
    }

    /// What a type is called.
    pub fn name(&self, id: u64) -> (r: String)
        ensures
            r@ == name_of_type(self@, id),
    {
        let mut k: usize = self.entries.len();
        assert(self.entries@.take(k as int) =~= self.entries@);
        while k > 0
            invariant
                k <= self.entries@.len(),
                name_of_type(names_given(self.entries@.take(k as int)), id) == name_of_type(self@, id),
            decreases k,
        {
            k -= 1;
            assert(self.entries@.take(k + 1).drop_last() =~= self.entries@.take(k as int));
            if self.entries[k].0 == id {
                return self.entries[k].1.clone();
            }
        }
        assert(self.entries@.take(0) =~= Seq::empty());
        cat2("type#", decimal_of(id).as_str())
    }
}

/// The type of the first packet of a list that has a payload of another type
/// than `want`.
pub open spec fn first_misfit(packets: Seq<Packet>, want: u64) -> Option<u64>
    decreases packets.len(),
{
    if packets.len() == 0 {
        None
    } else if first_misfit(packets.drop_last(), want) is Some {
        first_misfit(packets.drop_last(), want)
    } else if !packets.last().is_hollow() && packets.last().kind != want {
        Some(packets.last().kind)
    } else {
        None
    }
}

proof fn lemma_misfit_prefix(packets: Seq<Packet>, want: u64, k: int)
    requires
        0 <= k <= packets.len(),
        first_misfit(packets.take(k), want) is Some,
    ensures
        first_misfit(packets, want) == first_misfit(packets.take(k), want),
    decreases packets.len() - k,
{
    if k < packets.len() {
        assert(packets.take(k + 1).drop_last() =~= packets.take(k));
        lemma_misfit_prefix(packets, want, k + 1);
    } else {
        assert(packets.take(k) =~= packets);
    }
}

/// The type of the first packet of a list that has a payload of another type
/// than `want`.
pub fn find_misfit(packets: &Vec<Packet>, want: u64) -> (r: Option<u64>)
    ensures
        r == first_misfit(packets@, want),
{
    assert(packets@.take(0) =~= Seq::empty());
    for i in 0..packets.len()
        invariant
            first_misfit(packets@.take(i as int), want) is None,
    {
        assert(packets@.take(i + 1).drop_last() =~= packets@.take(i as int));
        if !packets[i].is_empty() && packets[i].type_id() != want {
            proof {
                lemma_misfit_prefix(packets@, want, i + 1);
            }
            return Some(packets[i].type_id());
        }
    }
    assert(packets@.take(packets@.len() as int) =~= packets@);
    None
}

/// A list without a misfit holds nothing with a payload of another type.
pub proof fn fitting_packets_fit(packets: Seq<Packet>, want: u64)
    ensures
        first_misfit(packets, want) is None <==> (forall|i: int|
            0 <= i < packets.len() ==> (#[trigger] packets[i]).is_hollow() || packets[i].kind
                == want),
    decreases packets.len(),
{
    if packets.len() > 0 {
        let front = packets.drop_last();
        fitting_packets_fit(front, want);
        assert forall|i: int| 0 <= i < front.len() implies front[i] == #[trigger] packets[i] by {}
        if first_misfit(packets, want) is None {
            assert forall|i: int| 0 <= i < packets.len() implies (
            #[trigger] packets[i]).is_hollow() || packets[i].kind == want by {
                if i < front.len() {
                    assert(front[i] == packets[i]);
                }
            }
        } else if first_misfit(front, want) is Some {
            let i = choose|i: int|
                0 <= i < front.len() && !((#[trigger] front[i]).is_hollow() || front[i].kind
                    == want);
            assert(packets[i] == front[i]);
        } else {
            assert(packets[packets.len() - 1] == packets.last());
        }
    }
}

/// The contents of some lists of packets.
pub open spec fn packet_lists(lists: Seq<Vec<Packet>>) -> Seq<Seq<Packet>> {
    Seq::new(lists.len(), |i: int| lists[i]@)
}

/// As many empty lists.
pub open spec fn no_packets(n: nat) -> Seq<Seq<Packet>> {
    Seq::new(n, |i: int| Seq::<Packet>::empty())
}

/// As many empty slots.
pub open spec fn no_slots(n: nat) -> Seq<Option<Packet>> {
    Seq::new(n, |i: int| None::<Packet>)
}

} // verus!
