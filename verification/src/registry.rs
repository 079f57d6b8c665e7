//! Where nodes announce themselves: one record per node, which only that node
//! writes.
use vstd::prelude::*;

use crate::assign::NodeId;
use crate::aws;
use crate::aws::AwsError;
use crate::lease::{Lease, RegistryError};
use crate::text;
use crate::textmap::TextMap;

verus! {

/// A bucket's failure as the lease loop sees it. Each is one thing to that loop:
/// the round trip did not complete.
pub fn into_registry_error(e: AwsError) -> (r: RegistryError)
    ensures
        r matches RegistryError::Io(cause) && cause@ == aws::aws_error_text(e),
{
    RegistryError::Io(e.message())
}

/// A character as a record's name has it.
pub open spec fn name_char(c: char) -> char {
    if text::is_alphanumeric(c) || c == '-' || c == '_' {
        c
    } else {
        '_'
    }
}

/// The name of a node's record.
pub open spec fn record_text(node: Seq<char>) -> Seq<char> {
    node.map_values(|c: char| name_char(c)) + ".json"@
}

/// The name of a node's record. A node's id comes from a command line; whatever
/// it holds becomes one plain file name.
pub fn record_name(node: &NodeId) -> (name: String)
    ensures
        name@ == record_text(node@),
{
    let chars = text::characters(node.as_str());
    let mut out: Vec<char> = Vec::new();
    let mut i: usize = 0;
    while i < chars.len()
        invariant
            i <= chars@.len(),
            chars@ == node@,
            out@ == node@.take(i as int).map_values(|c: char| name_char(c)),
        decreases chars@.len() - i,
    {
        let c: char = chars[i];
        let safe = if text::alphanumeric(c) || c == '-' || c == '_' {
            c
        } else {
            '_'
        };
        out.push(safe);
        i += 1;
        assert(out@ =~= node@.take(i as int).map_values(|c: char| name_char(c)));
    }
    assert(node@.take(node@.len() as int) =~= node@);
    text::push_text(&mut out, ".json");
    text::text_of(&out)
}

/// A record's name stays in its directory: it has no separator, and no dots but
/// the one of its extension.
pub proof fn law_a_record_name_is_one_component(node: Seq<char>)
    ensures
        forall|i: int|
            0 <= i < record_text(node).len() ==> #[trigger] record_text(node)[i] != '/',
        forall|i: int| 0 <= i < node.len() ==> #[trigger] record_text(node)[i] != '.',
{
    reveal_strlit(".json");
    let name = record_text(node);
    assert forall|i: int| 0 <= i < name.len() implies #[trigger] name[i] != '/' by {
        if i >= node.len() {
            assert(name[i] == ".json"@[i - node.len()]);
        }
    }
}

/// Whether a key is that of a record.
pub fn is_record_name(key: &str) -> (b: bool)
    ensures
        b == text::ends(key@, ".json"@),
{
    text::text_ends(key, ".json")
}

/// Whether a file's name is that of a record: one with a stem, and the extension of
/// records. A file named by the extension alone is a hidden one without any.
pub fn is_record_file(name: &str) -> (b: bool)
    ensures
        b == (text::ends(name@, ".json"@) && name@ != ".json"@),
{
    text::text_ends(name, ".json") && !text::same_text(name, ".json")
}

/// A shared directory: one file per node, named after it.
#[derive(Debug)]
pub struct DirRegistry {
    pub root: String,
}

impl Clone for DirRegistry {
    fn clone(&self) -> (r: DirRegistry)
        ensures
            r == *self,
    {
        DirRegistry { root: self.root.clone() }
    }
}

impl DirRegistry {
    pub fn new(root: &str) -> (r: DirRegistry)
        ensures
            r.root@ == root@,
    {
        DirRegistry { root: root.to_owned() }
    }

    /// The path of a node's record.
    pub fn path_for(&self, node: &NodeId) -> (path: String)
        ensures
            path@ == text::joined(self.root@, record_text(node@)),
    {
        let name = record_name(node);
        text::join(self.root.as_str(), name.as_str())
    }

    /// Where the records are, for an operator.
    pub fn describe(&self) -> (d: String)
        ensures
            d@ == "directory "@ + self.root@,
    {
        let mut out = text::characters("directory ");
        text::push_text(&mut out, self.root.as_str());
        text::text_of(&out)
    }
}

/// What is said of a registry in a bucket.
pub const NO_BUCKET_REGISTRY: &'static str = "an S3-backed cluster registry is not implemented. The trait needs only PutObject, ListObjects and DeleteObject — deliberately no conditional write — so it is a small addition, but nothing in this project writes to S3 before an IAM user scoped to one bucket prefix exists.";

/// A registry from an operator's address: a directory, and never a bucket.
pub fn registry_from_uri(uri: &str) -> (r: Result<DirRegistry, String>)
    ensures
        match r {
            Ok(d) => !text::begins(uri@, "s3://"@) && d.root@ == uri@,
            Err(m) => text::begins(uri@, "s3://"@) && m@ == NO_BUCKET_REGISTRY@,
        },
{
    if text::text_begins(uri, "s3://") {
        return Err(NO_BUCKET_REGISTRY.to_owned());
    }
    Ok(DirRegistry::new(uri))
}

/// The records of a registry in this process, by node.
#[derive(Debug)]
pub struct LeaseTable {
    leases: TextMap<Lease>,
}

/// What a record holds.
pub open spec fn lease_view(l: Lease) -> (Seq<char>, u64, u64) {
    (l.node@, l.written_at_unix_ms, l.ttl_ms)
}

impl LeaseTable {
    /// The record of each node.
    pub closed spec fn records(self) -> Map<Seq<char>, (Seq<char>, u64, u64)> {
        self.leases@.map_values(|l: Lease| lease_view(l))
    }

    /// Every record stands under its own node's name.
    pub closed spec fn wf(self) -> bool {
        &&& self.leases.wf()
        &&& forall|k: Seq<char>|
            #[trigger] self.leases@.contains_key(k) ==> self.leases@[k].node@ == k
    }

    /// A table without records.
    pub fn new() -> (t: LeaseTable)
        ensures
            t.wf(),
            t.records() == Map::<Seq<char>, (Seq<char>, u64, u64)>::empty(),
    {
        let t = LeaseTable { leases: TextMap::new() };
        assert(t.records() =~= Map::<Seq<char>, (Seq<char>, u64, u64)>::empty());
        t
    }
}

/// A handle onto a registry in this process, with its own connectivity.
#[derive(Debug)]
pub struct MemoryRegistry {
    offline: bool,
}

/// What a handle without connectivity answers.
pub open spec fn is_partition(e: RegistryError) -> bool {
    e matches RegistryError::Io(m) && m@ == "registry handle is offline"@
}

/// What a handle without connectivity answers.
fn partitioned() -> (e: RegistryError)
    ensures
        is_partition(e),
{
    RegistryError::Io("registry handle is offline".to_owned())
}

/// Whether records are those of a table, in the order of their nodes.
pub open spec fn lists_records(leases: Seq<Lease>, t: LeaseTable) -> bool {
    &&& forall|i: int, j: int|
        0 <= i < j < leases.len() ==> text::text_before(
            (#[trigger] leases[i]).node@,
            (#[trigger] leases[j]).node@,
        )
    &&& forall|i: int|
        0 <= i < leases.len() ==> t.records().contains_key((#[trigger] leases[i]).node@)
            && t.records()[leases[i].node@] == lease_view(leases[i])
    &&& forall|k: Seq<char>|
        #[trigger] t.records().contains_key(k) ==> exists|i: int|
            0 <= i < leases.len() && (#[trigger] leases[i]).node@ == k
}

impl Default for MemoryRegistry {
    fn default() -> (r: MemoryRegistry)
        ensures
            !r.cut_off(),
    {
        MemoryRegistry::new()
    }
}

impl MemoryRegistry {
    /// Whether the handle is cut off.
    pub closed spec fn cut_off(self) -> bool {
        self.offline
    }

    /// A handle that is connected.
    pub fn new() -> (r: MemoryRegistry)
        ensures
            !r.cut_off(),
    {
        MemoryRegistry { offline: false }
    }

    /// Cuts this handle off, or connects it again. No other handle is affected.
    pub fn set_offline(&mut self, offline: bool)
        ensures
            final(self).cut_off() == offline,
    {
        self.offline = offline;
    }

    /// A second handle, connected whether or not this one is.
    pub fn handle(&self) -> (r: MemoryRegistry)
        ensures
            !r.cut_off(),
    {
        MemoryRegistry::new()
    }

    /// Whether the handle is cut off.
    pub fn is_offline(&self) -> (b: bool)
        ensures
            b == self.cut_off(),
    {
        self.offline
    }

    /// What kind of registry this is, for an operator.
    pub fn describe(&self) -> (d: String)
        ensures
            d@ == "in-process registry"@,
    {
        "in-process registry".to_owned()
    }

    /// Writes a node's record, and touches no other.
    pub fn announce(&self, table: &mut LeaseTable, lease: &Lease) -> (r: Result<(), RegistryError>)
        requires
            old(table).wf(),
        ensures
            final(table).wf(),
            r is Err <==> self.cut_off(),
            r matches Err(e) ==> is_partition(e) && final(table).records() == old(table).records(),
            r is Ok ==> final(table).records() == old(table).records().insert(
                lease.node@,
                lease_view(*lease),
            ),
    {
        if self.offline {
            return Err(partitioned());
        }
        let ghost before = *table;
        let copy = lease.clone();
        let key = lease.node.as_str().to_owned();
        table.leases.insert(key, copy);
        proof {
            assert(table.records() =~= before.records().insert(lease.node@, lease_view(*lease)));
        }
        Ok(())
    }

    /// All records, in the order of their nodes.
    pub fn members(&self, table: &LeaseTable) -> (r: Result<Vec<Lease>, RegistryError>)
        requires
            table.wf(),
        ensures
            r is Err <==> self.cut_off(),
            r matches Err(e) ==> is_partition(e),
            r matches Ok(leases) ==> lists_records(leases@, *table),
    {
        if self.offline {
            return Err(partitioned());
        }
        proof {
            table.leases.lemma_keys();
        }
        let ghost names = table.leases.keys();
        let mut out: Vec<Lease> = Vec::new();
        let mut i: usize = 0;
        while i < table.leases.len()
            invariant
                i <= names.len(),
                table.wf(),
                names == table.leases.keys(),
                names.len() == table.leases@.dom().len(),
                names.to_set() == table.leases@.dom(),
                out@.len() == i,
                forall|k: int|
                    0 <= k < i ==> (#[trigger] out@[k]).node@ == names[k] && lease_view(out@[k])
                        == lease_view(table.leases@[names[k]]),
            decreases names.len() - i,
        {
            let k = table.leases.key_at(i);
            let lease = table.leases.value_at(i);
            assert(table.leases@.contains_key(k@));
            out.push(lease.clone());
            i += 1;
        }
        proof {
            table.leases.lemma_keys();
            assert forall|a: int, b: int| 0 <= a < b < out@.len() implies text::text_before(
                (#[trigger] out@[a]).node@,
                (#[trigger] out@[b]).node@,
            ) by {
                assert(text::text_before(names[a], names[b]));
            }
            assert forall|a: int| 0 <= a < out@.len() implies table.records().contains_key(
                (#[trigger] out@[a]).node@,
            ) && table.records()[out@[a].node@] == lease_view(out@[a]) by {
                assert(names.contains(names[a]));
                assert(names.to_set().contains(names[a]));
            }
            assert forall|k: Seq<char>| #[trigger] table.records().contains_key(k) implies exists|
                a: int,
            |
                0 <= a < out@.len() && (#[trigger] out@[a]).node@ == k by {
                assert(names.to_set().contains(k));
                let a = choose|a: int| 0 <= a < names.len() && names[a] == k;
                assert(out@[a].node@ == k);
            }
        }
        Ok(out)
    }

    /// Removes a node's record. Removing one that is not there is no error.
    pub fn withdraw(&self, table: &mut LeaseTable, node: &NodeId) -> (r: Result<(), RegistryError>)
        requires
            old(table).wf(),
        ensures
            final(table).wf(),
            r is Err <==> self.cut_off(),
            r matches Err(e) ==> is_partition(e) && final(table).records() == old(table).records(),
            r is Ok ==> final(table).records() == old(table).records().remove(node@),
    {
        if self.offline {
            return Err(partitioned());
        }
        let ghost before = *table;
        let _ = table.leases.remove(node.as_str());
        assert(table.records() =~= before.records().remove(node@));
        Ok(())
    }
}

/// A renewal is a write to one key: whatever a node announces or withdraws, every
/// other node's record is as it was.
pub proof fn law_a_node_touches_only_its_own_record(
    records: Map<Seq<char>, (Seq<char>, u64, u64)>,
    lease: (Seq<char>, u64, u64),
    other: Seq<char>,
)
    requires
        other != lease.0,
    ensures
        records.insert(lease.0, lease).contains_key(other) == records.contains_key(other),
        records.insert(lease.0, lease)[other] == records[other],
        records.remove(lease.0).contains_key(other) == records.contains_key(other),
        records.remove(lease.0)[other] == records[other],
{
}

/// A record is named after its node, character by character: a plain name is kept,
/// and what has no place in a file name is replaced.
pub proof fn law_a_record_is_named_after_its_node(node: Seq<char>)
    ensures
        record_text(node).len() == node.len() + 5,
        text::ends(record_text(node), ".json"@),
        forall|i: int|
            0 <= i < node.len() ==> #[trigger] record_text(node)[i] == (if text::is_alphanumeric(
                node[i],
            ) || node[i] == '-' || node[i] == '_' {
                node[i]
            } else {
                '_'
            }),
{
    reveal_strlit(".json");
    let name = record_text(node);
    assert(name.skip(name.len() - 5) =~= ".json"@);
}

} // verus!
