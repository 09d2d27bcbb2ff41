use vstd::prelude::*;

verus! {

/// A coordinate in units of 1e-7 degrees, as stored in an extract.
#[derive(Clone, Copy, Debug, PartialEq, Eq, Structural)]
pub struct Coord {
    pub decimicro_lon: i32,
    pub decimicro_lat: i32,
}

/// What a relation member points at: a node, a way or a relation, by identifier.
#[derive(Clone, Copy, Debug, PartialEq, Eq, Structural)]
pub enum MemberRef {
    Node(i64),
    Way(i64),
    Relation(i64),
}

/// A tag list: key/value pairs, looked up by key.
pub type Tags = Vec<(String, String)>;

#[derive(Clone, Debug)]
pub struct Node {
    pub id: i64,
    pub coord: Coord,
    pub tags: Tags,
}

#[derive(Clone, Debug)]
pub struct Way {
    pub id: i64,
    pub nodes: Vec<i64>,
    pub tags: Tags,
}

#[derive(Clone, Debug)]
pub struct Member {
    pub member: MemberRef,
    pub role: String,
}

#[derive(Clone, Debug)]
pub struct Relation {
    pub id: i64,
    pub members: Vec<Member>,
    pub tags: Tags,
}

/// The loaded object collection: every node, way and relation of interest,
/// each kind in ascending identifier order.
#[derive(Clone, Debug)]
pub struct OsmObjects {
    pub nodes: Vec<Node>,
    pub ways: Vec<Way>,
    pub relations: Vec<Relation>,
}

/// The value of the first tag whose key is `key`.
pub open spec fn tag_value(tags: Seq<(String, String)>, key: Seq<char>) -> Option<Seq<char>>
    decreases tags.len(),
{
    if tags.len() == 0 {
        None
    } else if tags[0].0@ == key {
        Some(tags[0].1@)
    } else {
        tag_value(tags.drop_first(), key)
    }
}

pub open spec fn nodes_sorted(nodes: Seq<Node>) -> bool {
    forall|i: int, j: int| 0 <= i < j < nodes.len() ==> nodes[i].id < nodes[j].id
}

pub open spec fn ways_sorted(ways: Seq<Way>) -> bool {
    forall|i: int, j: int| 0 <= i < j < ways.len() ==> ways[i].id < ways[j].id
}

impl OsmObjects {
    /// Nodes and ways are keyed by identifier: strictly ascending within each kind.
    pub open spec fn wf(&self) -> bool {
        nodes_sorted(self.nodes@) && ways_sorted(self.ways@)
    }
}

/// The position of the node with identifier `id`, if the collection holds one.
pub open spec fn node_coord(nodes: Seq<Node>, id: i64) -> Option<Coord> {
    if exists|i: int| 0 <= i < nodes.len() && nodes[i].id == id {
        let i = choose|i: int| 0 <= i < nodes.len() && nodes[i].id == id;
        Some(nodes[i].coord)
    } else {
        None
    }
}

/// The node identifiers of the way with identifier `id`, if the collection holds one.
pub open spec fn way_nodes(ways: Seq<Way>, id: i64) -> Option<Seq<i64>> {
    if exists|i: int| 0 <= i < ways.len() && ways[i].id == id {
        let i = choose|i: int| 0 <= i < ways.len() && ways[i].id == id;
        Some(ways[i].nodes@)
    } else {
        None
    }
}

/// The value of the first tag with the given key.
pub fn find_tag<'a>(tags: &'a Tags, key: &String) -> (r: Option<&'a String>)
    ensures
        match tag_value(tags@, key@) {
            None => r is None,
            Some(v) => r is Some && r->0@ == v,
        },
{
    let mut i: usize = 0;
    assert(tags@.subrange(0, tags@.len() as int) =~= tags@);
    while i < tags.len()
        invariant
            0 <= i <= tags.len(),
            tag_value(tags@, key@) == tag_value(tags@.subrange(i as int, tags@.len() as int), key@),
        decreases tags.len() - i,
    {
        let ghost rest = tags@.subrange(i as int, tags@.len() as int);
        assert(rest.drop_first() =~= tags@.subrange(i + 1, tags@.len() as int));
        if tags[i].0 == *key {
            return Some(&tags[i].1);
        }
        i = i + 1;
    }
    None
}

/// Binary search for the node with identifier `id`.
pub fn find_node(nodes: &Vec<Node>, id: i64) -> (r: Option<Coord>)
    requires
        nodes_sorted(nodes@),
    ensures
        r == node_coord(nodes@, id),
{
    let mut lo: usize = 0;
    let mut hi: usize = nodes.len();
    while lo < hi
        invariant
            0 <= lo <= hi <= nodes.len(),
            nodes_sorted(nodes@),
            forall|k: int| 0 <= k < lo ==> nodes@[k].id < id,
            forall|k: int| hi <= k < nodes.len() ==> nodes@[k].id > id,
        decreases hi - lo,
    {
        let mid = lo + (hi - lo) / 2;
        if nodes[mid].id == id {
            let ghost m = mid as int;
            assert(0 <= m < nodes@.len() && nodes@[m].id == id);
            return Some(nodes[mid].coord);
        } else if nodes[mid].id < id {
            lo = mid + 1;
        } else {
            hi = mid;
        }
    }
    None
}

/// Binary search for the way with identifier `id`; hands out its node list.
pub fn find_way<'a>(ways: &'a Vec<Way>, id: i64) -> (r: Option<&'a Vec<i64>>)
    requires
        ways_sorted(ways@),
    ensures
        match way_nodes(ways@, id) {
            None => r is None,
            Some(ns) => r is Some && r->0@ == ns,
        },
{
    let mut lo: usize = 0;
    let mut hi: usize = ways.len();
    while lo < hi
        invariant
            0 <= lo <= hi <= ways.len(),
            ways_sorted(ways@),
            forall|k: int| 0 <= k < lo ==> ways@[k].id < id,
            forall|k: int| hi <= k < ways.len() ==> ways@[k].id > id,
        decreases hi - lo,
    {
        let mid = lo + (hi - lo) / 2;
        if ways[mid].id == id {
            let ghost m = mid as int;
            assert(0 <= m < ways@.len() && ways@[m].id == id);
            return Some(&ways[mid].nodes);
        } else if ways[mid].id < id {
            lo = mid + 1;
        } else {
            hi = mid;
        }
    }
    None
}

} // verus!
