//! Decoding of raw neighbour-cache entries into records that carry the join
//! key (the hardware address) and the protocol address.

use vstd::prelude::*;
use crate::address::{HardwareAddress, IpAddress, IpVersion};

verus! {

/// One attribute of a raw neighbour-cache entry. Only the two kinds that
/// carry an address keep their payload.
#[derive(Clone, Debug)]
pub enum Attribute {
    LinkLocalAddress(Vec<u8>),
    Destination(Vec<u8>),
    Other,
}

/// A neighbour: its hardware address and the protocol address seen for it.
#[derive(Clone, Copy, Debug, PartialEq, Eq, Structural)]
pub struct Record {
    pub lla: HardwareAddress,
    pub address: IpAddress,
}

impl Record {
    /// The record that decoding starts from: no hardware address, and the
    /// unspecified protocol address.
    pub open spec fn initial() -> Record {
        Record { lla: HardwareAddress::spec_absent(), address: IpAddress::unspecified() }
    }
}

impl Default for Record {
    fn default() -> (r: Record)
        ensures
            r == Record::initial(),
    {
        Record { lla: HardwareAddress::absent(), address: IpAddress::V4(0) }
    }
}

impl Attribute {
    /// Whether the payload is long enough to be decoded for the given
    /// family: six bytes for a hardware address unless it is empty, four for
    /// an IPv4 destination, one to sixteen for an IPv6 destination.
    pub open spec fn well_shaped(self, version: IpVersion) -> bool {
        match self {
            Attribute::LinkLocalAddress(d) => d@.len() == 0 || d@.len() >= 6,
            Attribute::Destination(d) => match version {
                IpVersion::V4 => d@.len() >= 4,
                IpVersion::V6 => 1 <= d@.len() <= 16,
            },
            Attribute::Other => true,
        }
    }

    /// Whether the attribute carries a hardware address at all.
    pub open spec fn names_hardware_address(self) -> bool {
        match self {
            Attribute::LinkLocalAddress(d) => d@.len() > 0,
            _ => false,
        }
    }

    /// The record after this attribute has been taken into account.
    pub open spec fn applied(self, version: IpVersion, r: Record) -> Record {
        match self {
            Attribute::LinkLocalAddress(d) => if d@.len() > 0 {
                Record { lla: HardwareAddress::decoded(d@), address: r.address }
            } else {
                r
            },
            Attribute::Destination(d) => Record {
                lla: r.lla,
                address: IpAddress::decoded(version, d@),
            },
            Attribute::Other => r,
        }
    }

    /// Takes one attribute into account: a non-empty hardware address or a
    /// destination replaces what the record held, anything else is ignored.
    pub fn apply(&self, version: IpVersion, r: Record) -> (out: Record)
        requires
            self.well_shaped(version),
        ensures
            out == self.applied(version, r),
    {
        match self {
            Attribute::LinkLocalAddress(d) => {
                if d.len() > 0 {
                    Record { lla: HardwareAddress::decode(d.as_slice()), address: r.address }
                } else {
                    r
                }
            },
            Attribute::Destination(d) => Record {
                lla: r.lla,
                address: IpAddress::decode(version, d.as_slice()),
            },
            Attribute::Other => r,
        }
    }
}

/// Whether every attribute of an entry is well shaped.
pub open spec fn entry_well_shaped(attributes: Seq<Attribute>, version: IpVersion) -> bool {
    forall|i: int| 0 <= i < attributes.len() ==> (#[trigger] attributes[i]).well_shaped(version)
}

/// The record that an entry's attributes fold into, in their order.
pub open spec fn entry_record(attributes: Seq<Attribute>, version: IpVersion) -> Record
    decreases attributes.len(),
{
    if attributes.len() == 0 {
        Record::initial()
    } else {
        attributes.last().applied(version, entry_record(attributes.drop_last(), version))
    }
}

/// The records of the entries that name a hardware address, in the
/// entries' order.
pub open spec fn reachable(entries: Seq<Vec<Attribute>>, version: IpVersion) -> Seq<Record>
    decreases entries.len(),
{
    if entries.len() == 0 {
        Seq::empty()
    } else {
        let rest = reachable(entries.drop_last(), version);
        let r = entry_record(entries.last()@, version);
        if r.lla.spec_is_absent() {
            rest
        } else {
            rest.push(r)
        }
    }
}

/// Folds the attributes of one raw entry into a record.
pub fn decode_entry(attributes: &Vec<Attribute>, version: IpVersion) -> (r: Record)
    requires
        entry_well_shaped(attributes@, version),
    ensures
        r == entry_record(attributes@, version),
{
    let mut r = Record::default();
    let mut i: usize = 0;
    while i < attributes.len()
        invariant
            i <= attributes.len(),
            entry_well_shaped(attributes@, version),
            r == entry_record(attributes@.take(i as int), version),
        decreases attributes.len() - i,
    {
        proof {
            assert(attributes@.take(i + 1).drop_last() =~= attributes@.take(i as int));
        }
        r = attributes[i].apply(version, r);
        i += 1;
    }
    proof {
        assert(attributes@.take(attributes.len() as int) =~= attributes@);
    }
    r
}

/// Decodes the raw entries of one address family and keeps the records
/// whose hardware address is known.
pub fn fetch_reachable_neighbours(entries: &Vec<Vec<Attribute>>, version: IpVersion) -> (out: Vec<
    Record,
>)
    requires
        forall|i: int|
            0 <= i < entries.len() ==> entry_well_shaped((#[trigger] entries[i])@, version),
    ensures
        out@ == reachable(entries@, version),
        forall|k: int| 0 <= k < out.len() ==> !(#[trigger] out[k]).lla.spec_is_absent(),
{
    let mut out: Vec<Record> = Vec::new();
    let mut i: usize = 0;
    while i < entries.len()
        invariant
            i <= entries.len(),
            forall|j: int|
                0 <= j < entries.len() ==> entry_well_shaped((#[trigger] entries[j])@, version),
            out@ == reachable(entries@.take(i as int), version),
            forall|k: int| 0 <= k < out.len() ==> !(#[trigger] out[k]).lla.spec_is_absent(),
        decreases entries.len() - i,
    {
        proof {
            assert(entries@.take(i + 1).drop_last() =~= entries@.take(i as int));
        }
        let r = decode_entry(&entries[i], version);
        if !r.lla.is_absent() {
            out.push(r);
        }
        i += 1;
    }
    proof {
        assert(entries@.take(entries.len() as int) =~= entries@);
    }
    out
}

/// An entry none of whose attributes names a hardware address folds into a
/// record without one.
pub proof fn lemma_entry_without_hardware_address(attributes: Seq<Attribute>, version: IpVersion)
    requires
        forall|i: int| 0 <= i < attributes.len() ==> !(#[trigger] attributes[i]).names_hardware_address(),
    ensures
        entry_record(attributes, version).lla.spec_is_absent(),
    decreases attributes.len(),
{
    if attributes.len() > 0 {
        let front = attributes.drop_last();
        assert forall|i: int| 0 <= i < front.len() implies !(#[trigger] front[i]).names_hardware_address() by {
            assert(front[i] == attributes[i]);
        }
        lemma_entry_without_hardware_address(front, version);
        assert(!attributes[attributes.len() - 1].names_hardware_address());
    }
}

/// No record without a hardware address is among the decoded ones, and
/// every decoded record is the fold of one of the entries.
pub proof fn lemma_reachable_excludes_absent(entries: Seq<Vec<Attribute>>, version: IpVersion)
    ensures
        forall|k: int|
            0 <= k < reachable(entries, version).len() ==> {
                &&& !(#[trigger] reachable(entries, version)[k]).lla.spec_is_absent()
                &&& exists|i: int|
                    0 <= i < entries.len() && reachable(entries, version)[k] == entry_record(
                        (#[trigger] entries[i])@,
                        version,
                    )
            },
    decreases entries.len(),
{
    if entries.len() > 0 {
        let front = entries.drop_last();
        lemma_reachable_excludes_absent(front, version);
        let out = reachable(entries, version);
        let rest = reachable(front, version);
        assert forall|k: int| 0 <= k < out.len() implies {
            &&& !(#[trigger] out[k]).lla.spec_is_absent()
            &&& exists|i: int|
                0 <= i < entries.len() && out[k] == entry_record((#[trigger] entries[i])@, version)
        } by {
            if k < rest.len() {
                assert(out[k] == rest[k]);
                let i = choose|i: int|
                    0 <= i < front.len() && rest[k] == entry_record((#[trigger] front[i])@, version);
                assert(front[i] == entries[i]);
            } else {
                assert(out[k] == entry_record(entries[entries.len() - 1]@, version));
            }
        }
    }
}

/// The records of two runs of entries in a row are those of the first run
/// followed by those of the second.
pub proof fn lemma_reachable_concat(
    head: Seq<Vec<Attribute>>,
    tail: Seq<Vec<Attribute>>,
    version: IpVersion,
)
    ensures
        reachable(head + tail, version) == reachable(head, version) + reachable(tail, version),
    decreases tail.len(),
{
    if tail.len() == 0 {
        assert(head + tail =~= head);
        assert(reachable(head, version) + reachable(tail, version) =~= reachable(head, version));
    } else {
        lemma_reachable_concat(head, tail.drop_last(), version);
        assert((head + tail).drop_last() =~= head + tail.drop_last());
        assert((head + tail).last() == tail.last());
        assert(reachable(head + tail, version) =~= reachable(head, version) + reachable(
            tail,
            version,
        ));
    }
}

/// An entry whose record has no hardware address contributes nothing,
/// wherever it stands: the decoded records are those of the other entries.
pub proof fn lemma_absent_entry_contributes_nothing(
    entries: Seq<Vec<Attribute>>,
    i: int,
    version: IpVersion,
)
    requires
        0 <= i < entries.len(),
        entry_record(entries[i]@, version).lla.spec_is_absent(),
    ensures
        reachable(entries, version) == reachable(entries.remove(i), version),
{
    let head = entries.take(i);
    let one = seq![entries[i]];
    let tail = entries.skip(i + 1);
    assert(entries =~= (head + one) + tail);
    assert(entries.remove(i) =~= head + tail);
    lemma_reachable_concat(head + one, tail, version);
    lemma_reachable_concat(head, one, version);
    lemma_reachable_concat(head, tail, version);
    assert(one.drop_last() =~= Seq::<Vec<Attribute>>::empty());
    assert(reachable(one.drop_last(), version) =~= Seq::<Record>::empty());
    assert(reachable(one, version) =~= Seq::<Record>::empty());
    assert(reachable(head, version) + reachable(one, version) =~= reachable(head, version));
}

/// An entry none of whose attributes names a hardware address
/// contributes nothing, wherever it stands.
pub proof fn lemma_entry_without_hardware_address_is_dropped(
    entries: Seq<Vec<Attribute>>,
    i: int,
    version: IpVersion,
)
    requires
        0 <= i < entries.len(),
        forall|k: int|
            0 <= k < entries[i]@.len() ==> !(#[trigger] entries[i]@[k]).names_hardware_address(),
    ensures
        reachable(entries, version) == reachable(entries.remove(i), version),
{
    lemma_entry_without_hardware_address(entries[i]@, version);
    lemma_absent_entry_contributes_nothing(entries, i, version);
}

} // verus!
