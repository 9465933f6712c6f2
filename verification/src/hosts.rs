//! The host table in memory: its baseline, the correlation of IPv6
//! neighbours with IPv4 neighbours, and the text it is written back as.

use vstd::prelude::*;
use crate::address::{HardwareAddress, IpAddress};
use crate::neighbour::Record;
use crate::table::{lines_view, render, serialize, TableLine, TableLineView};

verus! {

/// Where the host table of the system is kept.
pub const HOST_FILE_PATH: &'static str = "/etc/hosts";

/// One mapping of the table: an address and the name it resolves to.
#[derive(Clone, Debug, PartialEq, Eq)]
pub struct HostRecord {
    pub address: IpAddress,
    pub hostname: String,
}

/// What a `HostRecord` holds.
pub struct HostEntry {
    pub address: IpAddress,
    pub hostname: Seq<char>,
}

impl View for HostRecord {
    type V = HostEntry;

    open spec fn view(&self) -> HostEntry {
        HostEntry { address: self.address, hostname: self.hostname@ }
    }
}

/// The views of a sequence of records.
pub open spec fn entries_of(records: Seq<HostRecord>) -> Seq<HostEntry> {
    Seq::new(records.len(), |i: int| records[i]@)
}

/// The index of the first line that failed to parse, or the number of
/// lines where none did.
pub open spec fn first_failure(lines: Seq<Result<HostRecord, String>>) -> int
    decreases lines.len(),
{
    if lines.len() == 0 || lines[0] is Err {
        0
    } else {
        1 + first_failure(lines.drop_first())
    }
}

/// The records of lines that all parsed.
pub open spec fn parsed_entries(lines: Seq<Result<HostRecord, String>>) -> Seq<HostEntry> {
    Seq::new(lines.len(), |i: int| lines[i]->Ok_0@)
}

/// The entries that belong to the baseline, in their order.
pub open spec fn baseline(entries: Seq<HostEntry>) -> Seq<HostEntry>
    decreases entries.len(),
{
    if entries.len() == 0 {
        Seq::empty()
    } else {
        let front = baseline(entries.drop_last());
        if entries.last().address.spec_is_baseline() {
            front.push(entries.last())
        } else {
            front
        }
    }
}

/// The index of the first neighbour with the given hardware address, or the
/// number of neighbours where none has it.
pub open spec fn first_neighbour(neighbours: Seq<Record>, lla: HardwareAddress) -> int
    decreases neighbours.len(),
{
    if neighbours.len() == 0 || neighbours[0].lla == lla {
        0
    } else {
        1 + first_neighbour(neighbours.drop_first(), lla)
    }
}

/// The index of the first entry with the given address, or the number of
/// entries where none has it.
pub open spec fn first_host(entries: Seq<HostEntry>, address: IpAddress) -> int
    decreases entries.len(),
{
    if entries.len() == 0 || entries[0].address == address {
        0
    } else {
        1 + first_host(entries.drop_first(), address)
    }
}

/// The entry that an IPv6 neighbour gives rise to: the name of the first
/// entry whose address is that of the first IPv4 neighbour with the same
/// hardware address, under the IPv6 neighbour's own address.
pub open spec fn resolved(entries: Seq<HostEntry>, ipv4: Seq<Record>, neighbour: Record) -> Option<
    HostEntry,
> {
    let i = first_neighbour(ipv4, neighbour.lla);
    if i >= ipv4.len() {
        None
    } else {
        let j = first_host(entries, ipv4[i].address);
        if j >= entries.len() {
            None
        } else {
            Some(HostEntry { address: neighbour.address, hostname: entries[j].hostname })
        }
    }
}

/// The entries that the IPv6 neighbours give rise to, in the neighbours'
/// order.
pub open spec fn derived(entries: Seq<HostEntry>, ipv6: Seq<Record>, ipv4: Seq<Record>) -> Seq<
    HostEntry,
>
    decreases ipv6.len(),
{
    if ipv6.len() == 0 {
        Seq::empty()
    } else {
        let front = derived(entries, ipv6.drop_last(), ipv4);
        match resolved(entries, ipv4, ipv6.last()) {
            Some(entry) => front.push(entry),
            None => front,
        }
    }
}

/// The lines that a table is written as, given the text of each entry's
/// address.
pub open spec fn table_lines(address_text: Seq<String>, entries: Seq<HostEntry>) -> Seq<
    TableLineView,
> {
    Seq::new(
        entries.len(),
        |i: int| TableLineView { address: address_text[i]@, hostname: entries[i].hostname },
    )
}

/// Looks for the first neighbour with the given hardware address.
pub fn find_neighbour(neighbours: &Vec<Record>, lla: HardwareAddress) -> (k: usize)
    ensures
        k == first_neighbour(neighbours@, lla),
        k <= neighbours.len(),
{
    let mut k: usize = 0;
    proof {
        assert(neighbours@.skip(0) =~= neighbours@);
    }
    while k < neighbours.len() && neighbours[k].lla != lla
        invariant
            k <= neighbours.len(),
            first_neighbour(neighbours@, lla) == k + first_neighbour(
                neighbours@.skip(k as int),
                lla,
            ),
        decreases neighbours.len() - k,
    {
        proof {
            assert(neighbours@.skip(k as int).drop_first() =~= neighbours@.skip(k + 1));
        }
        k += 1;
    }
    k
}

/// Looks for the first of the leading `limit` records with the given
/// address.
pub fn find_host(records: &Vec<HostRecord>, limit: usize, address: IpAddress) -> (k: usize)
    requires
        limit <= records.len(),
    ensures
        k == first_host(entries_of(records@.take(limit as int)), address),
        k <= limit,
{
    let ghost entries = entries_of(records@.take(limit as int));
    let mut k: usize = 0;
    proof {
        assert(entries.skip(0) =~= entries);
    }
    while k < limit && records[k].address != address
        invariant
            k <= limit <= records.len(),
            entries == entries_of(records@.take(limit as int)),
            first_host(entries, address) == k + first_host(entries.skip(k as int), address),
        decreases limit - k,
    {
        proof {
            assert(entries.skip(k as int).drop_first() =~= entries.skip(k + 1));
            assert(entries.skip(k as int)[0] == records@[k as int]@);
        }
        k += 1;
    }
    proof {
        if k < limit {
            assert(entries.skip(k as int)[0] == records@[k as int]@);
        }
    }
    k
}

/// A host table: where it is kept, and its records in file order.
pub struct HostsFile {
    host_file_path: String,
    records: Vec<HostRecord>,
}

impl HostsFile {
    /// The entries of the table, in order.
    pub closed spec fn entries(&self) -> Seq<HostEntry> {
        entries_of(self.records@)
    }

    /// The path of the file that the table is kept in.
    pub closed spec fn path(&self) -> Seq<char> {
        self.host_file_path@
    }

    /// Builds the table of the file at `path` from its data lines, each
    /// either parsed into a record or rejected with the reason. One rejected
    /// line rejects the table, with the reason of the first such line.
    pub fn new(path: &str, lines: &Vec<Result<HostRecord, String>>) -> (out: Result<
        HostsFile,
        String,
    >)
        ensures
            match out {
                Ok(hosts) => {
                    &&& first_failure(lines@) == lines.len()
                    &&& hosts.path() == path@
                    &&& hosts.entries() == parsed_entries(lines@)
                },
                Err(reason) => {
                    &&& first_failure(lines@) < lines.len()
                    &&& lines[first_failure(lines@)] is Err
                    &&& reason@ == lines[first_failure(lines@)]->Err_0@
                },
            },
    {
        let mut records: Vec<HostRecord> = Vec::new();
        let mut i: usize = 0;
        proof {
            assert(lines@.skip(0) =~= lines@);
        }
        while i < lines.len()
            invariant
                i <= lines.len(),
                records.len() == i,
                first_failure(lines@) == i + first_failure(lines@.skip(i as int)),
                entries_of(records@) == parsed_entries(lines@).take(i as int),
            decreases lines.len() - i,
        {
            proof {
                assert(lines@.skip(i as int).drop_first() =~= lines@.skip(i + 1));
                assert(lines@.skip(i as int)[0] == lines@[i as int]);
            }
            match &lines[i] {
                Ok(record) => {
                    let copy = HostRecord {
                        address: record.address,
                        hostname: record.hostname.clone(),
                    };
                    proof {
                        let grown = entries_of(records@.push(copy));
                        let wanted = parsed_entries(lines@).take(i + 1);
                        assert forall|j: int| 0 <= j < grown.len() implies grown[j] == wanted[j] by {
                            if j < i {
                                assert(entries_of(records@)[j] == parsed_entries(lines@).take(
                                    i as int,
                                )[j]);
                            }
                        }
                        assert(grown =~= wanted);
                    }
                    records.push(copy);
                },
                Err(reason) => {
                    return Err(reason.clone());
                },
            }
            i += 1;
        }
        proof {
            assert(parsed_entries(lines@).take(lines.len() as int) =~= parsed_entries(lines@));
        }
        Ok(HostsFile { host_file_path: path.to_owned(), records })
    }

    /// The path of the file that the table is kept in.
    pub fn file_path(&self) -> (path: &str)
        ensures
            path@ == self.path(),
    {
        self.host_file_path.as_str()
    }

    /// The records of the table, in order.
    pub fn records(&self) -> (records: &Vec<HostRecord>)
        ensures
            entries_of(records@) == self.entries(),
    {
        &self.records
    }

    /// Reduces the table to its baseline: the IPv4 entries and the three
    /// reserved IPv6 groups stay, in their order, and all else goes.
    pub fn retain_ipv4_only(&mut self)
        ensures
            final(self).entries() == baseline(old(self).entries()),
            final(self).path() == old(self).path(),
    {
        let mut kept: Vec<HostRecord> = Vec::new();
        let mut i: usize = 0;
        let ghost all = entries_of(self.records@);
        while i < self.records.len()
            invariant
                i <= self.records.len(),
                self.records == old(self).records,
                self.host_file_path == old(self).host_file_path,
                all == entries_of(self.records@),
                entries_of(kept@) == baseline(all.take(i as int)),
            decreases self.records.len() - i,
        {
            proof {
                assert(all.take(i + 1).drop_last() =~= all.take(i as int));
                assert(all.take(i + 1).last() == self.records@[i as int]@);
            }
            if self.records[i].address.is_baseline() {
                let copy = HostRecord {
                    address: self.records[i].address,
                    hostname: self.records[i].hostname.clone(),
                };
                proof {
                    assert(entries_of(kept@.push(copy)) =~= entries_of(kept@).push(copy@));
                }
                kept.push(copy);
            }
            i += 1;
        }
        proof {
            assert(all.take(self.records.len() as int) =~= all);
        }
        self.records = kept;
    }

    /// Appends, for each IPv6 neighbour in turn, the entry it gives rise to:
    /// its own address under the name that the table had, before the call,
    /// for the IPv4 neighbour with the same hardware address. A neighbour
    /// without such a counterpart, or whose counterpart the table does not
    /// name, adds nothing.
    pub fn add_ipv6_clients(&mut self, ipv6_neigh: Vec<Record>, ipv4_neigh: Vec<Record>)
        ensures
            final(self).entries() == old(self).entries() + derived(
                old(self).entries(),
                ipv6_neigh@,
                ipv4_neigh@,
            ),
            final(self).path() == old(self).path(),
    {
        let known = self.records.len();
        let ghost before = entries_of(self.records@);
        let mut n: usize = 0;
        proof {
            assert(before + derived(before, ipv6_neigh@.take(0), ipv4_neigh@) =~= before);
        }
        while n < ipv6_neigh.len()
            invariant
                n <= ipv6_neigh.len(),
                known <= self.records.len(),
                known == before.len(),
                self.host_file_path == old(self).host_file_path,
                before == entries_of(old(self).records@),
                entries_of(self.records@.take(known as int)) == before,
                entries_of(self.records@) == before + derived(
                    before,
                    ipv6_neigh@.take(n as int),
                    ipv4_neigh@,
                ),
            decreases ipv6_neigh.len() - n,
        {
            let neighbour = ipv6_neigh[n];
            proof {
                assert(ipv6_neigh@.take(n + 1).drop_last() =~= ipv6_neigh@.take(n as int));
                assert(ipv6_neigh@.take(n + 1).last() == neighbour);
            }
            let i = find_neighbour(&ipv4_neigh, neighbour.lla);
            if i < ipv4_neigh.len() {
                let j = find_host(&self.records, known, ipv4_neigh[i].address);
                if j < known {
                    let entry = HostRecord {
                        address: neighbour.address,
                        hostname: self.records[j].hostname.clone(),
                    };
                    proof {
                        let so_far = derived(before, ipv6_neigh@.take(n as int), ipv4_neigh@);
                        assert(before[j as int] == self.records@.take(known as int)[j as int]@);
                        let grown = entries_of(self.records@.push(entry));
                        let wanted = before + so_far.push(entry@);
                        assert(entries_of(self.records@).len() == self.records.len());
                        assert((before + so_far).len() == self.records.len());
                        assert forall|k: int| 0 <= k < grown.len() implies grown[k] == wanted[k] by {
                            if k < self.records.len() {
                                assert(entries_of(self.records@)[k] == (before + so_far)[k]);
                            }
                        }
                        assert(grown =~= wanted);
                        assert(entries_of(self.records@.push(entry).take(known as int))
                            =~= before);
                    }
                    self.records.push(entry);
                }
            }
            n += 1;
        }
        proof {
            assert(ipv6_neigh@.take(ipv6_neigh.len() as int) =~= ipv6_neigh@);
        }
    }

    /// Gives the table up as the text to write: one line for each entry, in
    /// order, made of the entry's address as `address_text` spells it, one
    /// space and the host name; a newline between two lines and none at the
    /// end.
    pub fn flush(self, address_text: &Vec<String>) -> (text: String)
        requires
            address_text.len() == self.entries().len(),
        ensures
            text@ == render(table_lines(address_text@, self.entries())),
    {
        let mut lines: Vec<TableLine> = Vec::new();
        let mut i: usize = 0;
        while i < self.records.len()
            invariant
                i <= self.records.len() == address_text.len(),
                lines.len() == i,
                lines_view(lines@) == table_lines(address_text@, self.entries()).take(i as int),
            decreases self.records.len() - i,
        {
            let line = TableLine {
                address: address_text[i].clone(),
                hostname: self.records[i].hostname.clone(),
            };
            proof {
                let all = table_lines(address_text@, self.entries());
                let grown = lines_view(lines@.push(line));
                assert(self.entries().len() == self.records.len());
                assert forall|k: int| 0 <= k < grown.len() implies grown[k] == all.take(i + 1)[k] by {
                    if k < i {
                        assert(lines_view(lines@)[k] == all.take(i as int)[k]);
                    } else {
                        assert(self.entries()[k] == self.records@[k]@);
                    }
                }
                assert(grown =~= all.take(i + 1));
            }
            lines.push(line);
            i += 1;
        }
        proof {
            let all = table_lines(address_text@, self.entries());
            assert(all.take(self.records.len() as int) =~= all);
        }
        serialize(&lines)
    }
}

/// Reducing a table to its baseline a second time changes nothing.
pub proof fn lemma_baseline_idempotent(entries: Seq<HostEntry>)
    ensures
        baseline(baseline(entries)) == baseline(entries),
    decreases entries.len(),
{
    if entries.len() > 0 {
        let front = entries.drop_last();
        lemma_baseline_idempotent(front);
        if entries.last().address.spec_is_baseline() {
            assert(baseline(front).push(entries.last()).drop_last() =~= baseline(front));
        }
    }
}

/// Every entry of a baseline is an IPv4 entry or one of the reserved IPv6
/// groups, and was in the table.
pub proof fn lemma_baseline_members(entries: Seq<HostEntry>)
    ensures
        forall|k: int|
            0 <= k < baseline(entries).len() ==> {
                &&& (#[trigger] baseline(entries)[k]).address.spec_is_baseline()
                &&& entries.contains(baseline(entries)[k])
            },
    decreases entries.len(),
{
    if entries.len() > 0 {
        let front = entries.drop_last();
        lemma_baseline_members(front);
        assert forall|k: int| 0 <= k < baseline(entries).len() implies {
            &&& (#[trigger] baseline(entries)[k]).address.spec_is_baseline()
            &&& entries.contains(baseline(entries)[k])
        } by {
            if k < baseline(front).len() {
                let e = baseline(front)[k];
                assert(front.contains(e));
                let i = choose|i: int| 0 <= i < front.len() && front[i] == e;
                assert(entries[i] == e);
            } else {
                assert(entries[entries.len() - 1] == baseline(entries)[k]);
            }
        }
    }
}

/// The first neighbour with a hardware address is a neighbour with that
/// address before which none has it.
pub proof fn lemma_first_neighbour(neighbours: Seq<Record>, lla: HardwareAddress)
    ensures
        ({
            let k = first_neighbour(neighbours, lla);
            &&& 0 <= k <= neighbours.len()
            &&& k < neighbours.len() ==> neighbours[k].lla == lla
            &&& forall|i: int| 0 <= i < k ==> (#[trigger] neighbours[i]).lla != lla
        }),
    decreases neighbours.len(),
{
    if neighbours.len() > 0 && neighbours[0].lla != lla {
        let rest = neighbours.drop_first();
        let k = first_neighbour(neighbours, lla);
        lemma_first_neighbour(rest, lla);
        assert forall|i: int| 0 <= i < k implies (#[trigger] neighbours[i]).lla != lla by {
            if i > 0 {
                assert(rest[i - 1] == neighbours[i]);
            }
        }
    }
}

/// The first entry with an address is an entry with that address before
/// which none has it.
pub proof fn lemma_first_host(entries: Seq<HostEntry>, address: IpAddress)
    ensures
        ({
            let k = first_host(entries, address);
            &&& 0 <= k <= entries.len()
            &&& k < entries.len() ==> entries[k].address == address
            &&& forall|j: int| 0 <= j < k ==> (#[trigger] entries[j]).address != address
        }),
    decreases entries.len(),
{
    if entries.len() > 0 && entries[0].address != address {
        let rest = entries.drop_first();
        let k = first_host(entries, address);
        lemma_first_host(rest, address);
        assert forall|j: int| 0 <= j < k implies (#[trigger] entries[j]).address != address by {
            if j > 0 {
                assert(rest[j - 1] == entries[j]);
            }
        }
    }
}

/// Whether no two of the neighbours share a hardware address.
pub open spec fn distinct_hardware_addresses(neighbours: Seq<Record>) -> bool {
    forall|a: int, b: int|
        #![trigger neighbours[a], neighbours[b]]
        0 <= a < b < neighbours.len() ==> neighbours[a].lla != neighbours[b].lla
}

/// Where no two IPv4 neighbours share a hardware address, an IPv6
/// neighbour gives rise to an entry exactly if some IPv4 neighbour has its
/// hardware address and some entry of the table has that neighbour's
/// address. The entry then carries the IPv6 neighbour's address and the
/// name of the first such entry.
pub proof fn lemma_join_correct(entries: Seq<HostEntry>, ipv4: Seq<Record>, neighbour: Record)
    requires
        distinct_hardware_addresses(ipv4),
    ensures
        resolved(entries, ipv4, neighbour) is Some <==> exists|i: int, j: int|
            0 <= i < ipv4.len() && 0 <= j < entries.len() && (#[trigger] ipv4[i]).lla
                == neighbour.lla && (#[trigger] entries[j]).address == ipv4[i].address,
        resolved(entries, ipv4, neighbour) matches Some(entry) ==> {
            let i = first_neighbour(ipv4, neighbour.lla);
            let j = first_host(entries, ipv4[i].address);
            &&& 0 <= i < ipv4.len() && ipv4[i].lla == neighbour.lla
            &&& 0 <= j < entries.len() && entries[j].address == ipv4[i].address
            &&& entry.address == neighbour.address
            &&& entry.hostname == entries[j].hostname
        },
{
    let i0 = first_neighbour(ipv4, neighbour.lla);
    lemma_first_neighbour(ipv4, neighbour.lla);
    if i0 < ipv4.len() {
        lemma_first_host(entries, ipv4[i0].address);
    }
    if resolved(entries, ipv4, neighbour) is Some {
        let j0 = first_host(entries, ipv4[i0].address);
        assert(ipv4[i0].lla == neighbour.lla && entries[j0].address == ipv4[i0].address);
    }
    if exists|i: int, j: int|
        0 <= i < ipv4.len() && 0 <= j < entries.len() && (#[trigger] ipv4[i]).lla == neighbour.lla
            && (#[trigger] entries[j]).address == ipv4[i].address {
        let (i, j) = choose|i: int, j: int|
            0 <= i < ipv4.len() && 0 <= j < entries.len() && (#[trigger] ipv4[i]).lla
                == neighbour.lla && (#[trigger] entries[j]).address == ipv4[i].address;
        assert(i0 <= i);
        assert(i0 == i);
        assert(first_host(entries, ipv4[i0].address) <= j);
    }
}

/// The entries that a pass appends are those of its first neighbours
/// followed by what the last neighbour gives rise to.
pub proof fn lemma_derived_step(
    entries: Seq<HostEntry>,
    ipv6: Seq<Record>,
    ipv4: Seq<Record>,
    neighbour: Record,
)
    ensures
        derived(entries, ipv6.push(neighbour), ipv4) == match resolved(entries, ipv4, neighbour) {
            Some(entry) => derived(entries, ipv6, ipv4).push(entry),
            None => derived(entries, ipv6, ipv4),
        },
{
    assert(ipv6.push(neighbour).drop_last() =~= ipv6);
}

/// Two passes over the same table with the same neighbours append the
/// same entries in the same order.
pub proof fn lemma_correlation_deterministic(
    before: HostsFile,
    first: HostsFile,
    second: HostsFile,
    ipv6: Seq<Record>,
    ipv4: Seq<Record>,
)
    requires
        first.entries() == before.entries() + derived(before.entries(), ipv6, ipv4),
        second.entries() == before.entries() + derived(before.entries(), ipv6, ipv4),
    ensures
        first.entries() == second.entries(),
        first.entries().skip(before.entries().len() as int) == derived(
            before.entries(),
            ipv6,
            ipv4,
        ),
{
    assert(first.entries().skip(before.entries().len() as int) =~= derived(
        before.entries(),
        ipv6,
        ipv4,
    ));
}

} // verus!
