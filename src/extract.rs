use vstd::prelude::*;
use crate::line_name::{byte_numeral_value, is_byte_numeral, name_parts, parse_line_name, LineName};
use crate::lines::{
    insert_line, keys, keys_sorted, lemma_sort_lines_sorted, sort_lines, views, LineView,
    TransportLine,
};
use crate::osm::{
    find_node, find_tag, find_way, node_coord, tag_value, way_nodes, Coord, Member, MemberRef, Node,
    OsmObjects, Relation, Way,
};

verus! {

/// One physical stop.
#[derive(Clone, Debug, PartialEq, Eq)]
pub struct Station {
    pub id: i64,
    pub name: String,
    pub position: Coord,
}

pub struct StationView {
    pub id: i64,
    pub name: Seq<char>,
    pub position: Coord,
}

impl View for Station {
    type V = StationView;

    open spec fn view(&self) -> StationView {
        StationView { id: self.id, name: self.name@, position: self.position }
    }
}

/// The stations, in node order, and the lines, in key order.
#[derive(Clone, Debug, PartialEq, Eq)]
pub struct Data {
    pub stations: Vec<Station>,
    pub lines: Vec<TransportLine>,
}

/// What ends a run.
#[derive(Clone, Copy, Debug, PartialEq, Eq, Structural)]
pub enum ExtractError {
    /// A tram stop node (by identifier) has no `name` tag.
    StopWithoutName(i64),
    /// A route relation (by identifier) has a `stop` member that is not a node.
    StopNotNode(i64),
    /// A route relation (by identifier) has no `name` tag.
    RouteWithoutName(i64),
    /// A route relation's (by identifier) name follows the convention, but its
    /// number is not in `0..=255`.
    BadLineNumber(i64),
}

pub open spec fn is_tram_stop(n: Node) -> bool {
    tag_value(n.tags@, "railway"@) == Some("tram_stop"@)
}

/// The first tram stop without a name, if any.
pub open spec fn unnamed_stop(nodes: Seq<Node>) -> Option<i64>
    decreases nodes.len(),
{
    if nodes.len() == 0 {
        None
    } else {
        match unnamed_stop(nodes.drop_last()) {
            Some(id) => Some(id),
            None => if is_tram_stop(nodes.last()) && tag_value(nodes.last().tags@, "name"@) is None {
                Some(nodes.last().id)
            } else {
                None
            },
        }
    }
}

/// A station for every tram stop, in node order.
pub open spec fn stations_of(nodes: Seq<Node>) -> Seq<StationView>
    decreases nodes.len(),
{
    if nodes.len() == 0 {
        seq![]
    } else {
        let prev = stations_of(nodes.drop_last());
        let n = nodes.last();
        if is_tram_stop(n) {
            prev.push(
                StationView {
                    id: n.id,
                    name: tag_value(n.tags@, "name"@).unwrap(),
                    position: n.coord,
                },
            )
        } else {
            prev
        }
    }
}

/// The positions of the listed nodes; nodes missing from the collection are skipped.
pub open spec fn path_coords(nodes: Seq<Node>, ids: Seq<i64>) -> Seq<Coord>
    decreases ids.len(),
{
    if ids.len() == 0 {
        seq![]
    } else {
        let prev = path_coords(nodes, ids.drop_last());
        match node_coord(nodes, ids.last()) {
            Some(c) => prev.push(c),
            None => prev,
        }
    }
}

pub open spec fn is_path_member(ways: Seq<Way>, m: Member) -> bool {
    m.role@.len() == 0 && m.member is Way && way_nodes(ways, m.member->Way_0) is Some
}

pub open spec fn is_stop_member(m: Member) -> bool {
    m.role@ == "stop"@
}

/// One coordinate sequence per path member, in member order.
pub open spec fn line_geometry(nodes: Seq<Node>, ways: Seq<Way>, ms: Seq<Member>) -> Seq<
    Seq<Coord>,
>
    decreases ms.len(),
{
    if ms.len() == 0 {
        seq![]
    } else {
        let prev = line_geometry(nodes, ways, ms.drop_last());
        let m = ms.last();
        if is_path_member(ways, m) {
            prev.push(path_coords(nodes, way_nodes(ways, m.member->Way_0).unwrap()))
        } else {
            prev
        }
    }
}

/// The stop members' node identifiers, in member order.
pub open spec fn line_stops(ms: Seq<Member>) -> Seq<i64>
    decreases ms.len(),
{
    if ms.len() == 0 {
        seq![]
    } else {
        let prev = line_stops(ms.drop_last());
        let m = ms.last();
        if is_stop_member(m) && m.member is Node {
            prev.push(m.member->Node_0)
        } else {
            prev
        }
    }
}

pub open spec fn has_stop_not_node(ms: Seq<Member>) -> bool {
    exists|i: int| 0 <= i < ms.len() && is_stop_member(ms[i]) && !(ms[i].member is Node)
}

pub open spec fn is_route(r: Relation) -> bool {
    tag_value(r.tags@, "route"@) is Some
}

/// What one relation contributes.
pub enum Contribution {
    Nothing,
    Fatal(ExtractError),
    Line(LineView),
}

pub open spec fn contribution(objs: OsmObjects, r: Relation) -> Contribution {
    if !is_route(r) {
        Contribution::Nothing
    } else if has_stop_not_node(r.members@) {
        Contribution::Fatal(ExtractError::StopNotNode(r.id))
    } else {
        match tag_value(r.tags@, "name"@) {
            None => Contribution::Fatal(ExtractError::RouteWithoutName(r.id)),
            Some(name) => match name_parts(name) {
                None => Contribution::Nothing,
                Some(parts) => if is_byte_numeral(parts.0) {
                    Contribution::Line(
                        LineView {
                            number: byte_numeral_value(parts.0) as u8,
                            from: parts.1,
                            to: parts.2,
                            geometry: line_geometry(objs.nodes@, objs.ways@, r.members@),
                            stations: line_stops(r.members@),
                        },
                    )
                } else {
                    Contribution::Fatal(ExtractError::BadLineNumber(r.id))
                },
            },
        }
    }
}

/// The lines of the relations, in relation order, or the first fatal error.
pub open spec fn collect_lines(objs: OsmObjects, rels: Seq<Relation>) -> Result<
    Seq<LineView>,
    ExtractError,
>
    decreases rels.len(),
{
    if rels.len() == 0 {
        Ok(seq![])
    } else {
        match collect_lines(objs, rels.drop_last()) {
            Err(e) => Err(e),
            Ok(ls) => match contribution(objs, rels.last()) {
                Contribution::Nothing => Ok(ls),
                Contribution::Fatal(e) => Err(e),
                Contribution::Line(l) => Ok(ls.push(l)),
            },
        }
    }
}

/// The whole extraction: stations of all tram stops, and the route relations'
/// lines sorted by key; or the first fatal error, stops before relations.
pub open spec fn extraction(objs: OsmObjects) -> Result<
    (Seq<StationView>, Seq<LineView>),
    ExtractError,
> {
    match unnamed_stop(objs.nodes@) {
        Some(id) => Err(ExtractError::StopWithoutName(id)),
        None => match collect_lines(objs, objs.relations@) {
            Err(e) => Err(e),
            Ok(ls) => Ok((stations_of(objs.nodes@), sort_lines(ls))),
        },
    }
}

pub open spec fn station_views(v: Seq<Station>) -> Seq<StationView> {
    v.map_values(|s: Station| s@)
}

/// `r` is what `extract_transport_lines` owes for `objs`.
pub open spec fn extraction_result(objs: OsmObjects, r: Result<Data, ExtractError>) -> bool {
    match extraction(objs) {
        Err(e) => r == Err::<Data, ExtractError>(e),
        Ok((st, ls)) => r matches Ok(d) && station_views(d.stations@) == st && views(d.lines@)
            == ls,
    }
}

/// Builds a station for every tram stop node.
pub fn extract_stations(nodes: &Vec<Node>) -> (r: Result<Vec<Station>, ExtractError>)
    ensures
        match unnamed_stop(nodes@) {
            Some(id) => r == Err::<Vec<Station>, ExtractError>(ExtractError::StopWithoutName(id)),
            None => r matches Ok(v) && station_views(v@) == stations_of(nodes@),
        },
{
    let railway = String::from_str("railway");
    let tram_stop = String::from_str("tram_stop");
    let name_key = String::from_str("name");
    let mut stations: Vec<Station> = Vec::new();
    let mut i: usize = 0;
    while i < nodes.len()
        invariant
            i <= nodes.len(),
            railway@ == "railway"@,
            tram_stop@ == "tram_stop"@,
            name_key@ == "name"@,
            unnamed_stop(nodes@.subrange(0, i as int)) is None,
            station_views(stations@) == stations_of(nodes@.subrange(0, i as int)),
        decreases nodes.len() - i,
    {
        let node = &nodes[i];
        let ghost pre = nodes@.subrange(0, i as int);
        let ghost upto = nodes@.subrange(0, i + 1);
        assert(upto.drop_last() =~= pre);
        assert(upto.last() == *node);
        let is_stop = match find_tag(&node.tags, &railway) {
            Some(v) => *v == tram_stop,
            None => false,
        };
        if is_stop {
            match find_tag(&node.tags, &name_key) {
                None => {
                    proof {
                        lemma_unnamed_stop_prefix(nodes@, i + 1);
                    }
                    return Err(ExtractError::StopWithoutName(node.id));
                },
                Some(name) => {
                    stations.push(Station { id: node.id, name: name.clone(), position: node.coord });
                },
            }
        }
        i = i + 1;
        assert(station_views(stations@) =~= stations_of(upto));
    }
    assert(nodes@.subrange(0, i as int) =~= nodes@);
    Ok(stations)
}

/// The first unnamed stop of a prefix is the first of the whole list.
proof fn lemma_unnamed_stop_prefix(nodes: Seq<Node>, m: int)
    requires
        0 <= m <= nodes.len(),
        unnamed_stop(nodes.subrange(0, m)) is Some,
    ensures
        unnamed_stop(nodes) == unnamed_stop(nodes.subrange(0, m)),
    decreases nodes.len() - m,
{
    if m < nodes.len() {
        assert(nodes.subrange(0, m + 1).drop_last() =~= nodes.subrange(0, m));
        lemma_unnamed_stop_prefix(nodes, m + 1);
    } else {
        assert(nodes.subrange(0, m) =~= nodes);
    }
}

/// The positions of the listed nodes, skipping those the collection lacks.
pub fn way_path(nodes: &Vec<Node>, ids: &Vec<i64>) -> (r: Vec<Coord>)
    requires
        crate::osm::nodes_sorted(nodes@),
    ensures
        r@ == path_coords(nodes@, ids@),
{
    let mut path: Vec<Coord> = Vec::new();
    let mut i: usize = 0;
    while i < ids.len()
        invariant
            i <= ids.len(),
            crate::osm::nodes_sorted(nodes@),
            path@ == path_coords(nodes@, ids@.subrange(0, i as int)),
        decreases ids.len() - i,
    {
        assert(ids@.subrange(0, i + 1).drop_last() =~= ids@.subrange(0, i as int));
        match find_node(nodes, ids[i]) {
            Some(c) => path.push(c),
            None => {},
        }
        i = i + 1;
    }
    assert(ids@.subrange(0, i as int) =~= ids@);
    path
}

/// The path geometry and the stops of a member list, or `None` when a stop
/// member is not a node.
fn member_paths_and_stops(objs: &OsmObjects, ms: &Vec<Member>) -> (r: Option<
    (Vec<Vec<Coord>>, Vec<i64>),
>)
    requires
        objs.wf(),
    ensures
        match r {
            None => has_stop_not_node(ms@),
            Some((g, st)) => !has_stop_not_node(ms@) && g@.map_values(|p: Vec<Coord>| p@)
                == line_geometry(objs.nodes@, objs.ways@, ms@) && st@ == line_stops(ms@),
        },
{
    let stop_role = String::from_str("stop");
    proof {
        reveal_strlit("stop");
    }
    let mut geometry: Vec<Vec<Coord>> = Vec::new();
    let mut stations: Vec<i64> = Vec::new();
    let mut i: usize = 0;
    while i < ms.len()
        invariant
            i <= ms.len(),
            objs.wf(),
            stop_role@ == "stop"@,
            "stop"@.len() == 4,
            forall|j: int| 0 <= j < i ==> !(is_stop_member(ms@[j]) && !(ms@[j].member is Node)),
            geometry@.map_values(|p: Vec<Coord>| p@) == line_geometry(
                objs.nodes@,
                objs.ways@,
                ms@.subrange(0, i as int),
            ),
            stations@ == line_stops(ms@.subrange(0, i as int)),
        decreases ms.len() - i,
    {
        let m = &ms[i];
        let ghost upto = ms@.subrange(0, i + 1);
        assert(upto.drop_last() =~= ms@.subrange(0, i as int));
        assert(upto.last() == *m);
        if m.role.as_str().is_empty() {
            match m.member {
                MemberRef::Way(w) => match find_way(&objs.ways, w) {
                    Some(ids) => {
                        let path = way_path(&objs.nodes, ids);
                        geometry.push(path);
                    },
                    None => {},
                },
                _ => {},
            }
        } else if m.role == stop_role {
            match m.member {
                MemberRef::Node(n) => stations.push(n),
                _ => {
                    assert(is_stop_member(ms@[i as int]));
                    return None;
                },
            }
        }
        i = i + 1;
        assert(geometry@.map_values(|p: Vec<Coord>| p@) =~= line_geometry(
            objs.nodes@,
            objs.ways@,
            upto,
        ));
    }
    assert(ms@.subrange(0, i as int) =~= ms@);
    Some((geometry, stations))
}

/// `r` is what `relation_line` owes for relation `rel`.
pub open spec fn relation_line_result(
    objs: OsmObjects,
    rel: Relation,
    r: Result<Option<TransportLine>, ExtractError>,
) -> bool {
    match contribution(objs, rel) {
        Contribution::Nothing => r matches Ok(None),
        Contribution::Fatal(e) => r == Err::<Option<TransportLine>, ExtractError>(e),
        Contribution::Line(l) => r matches Ok(Some(t)) && t@ == l,
    }
}

/// Reconstructs the line of one relation: its path geometry, its stops and its
/// parsed name.
pub fn relation_line(objs: &OsmObjects, rel: &Relation) -> (r: Result<
    Option<TransportLine>,
    ExtractError,
>)
    requires
        objs.wf(),
    ensures
        relation_line_result(*objs, *rel, r),
{
    let route_key = String::from_str("route");
    let name_key = String::from_str("name");
    if find_tag(&rel.tags, &route_key).is_none() {
        return Ok(None);
    }
    let (geometry, stations) = match member_paths_and_stops(objs, &rel.members) {
        Some(gs) => gs,
        None => {
            return Err(ExtractError::StopNotNode(rel.id));
        },
    };
    let name = match find_tag(&rel.tags, &name_key) {
        Some(n) => n,
        None => {
            return Err(ExtractError::RouteWithoutName(rel.id));
        },
    };
    match parse_line_name(name) {
        LineName::Unmatched => Ok(None),
        LineName::BadNumber => Err(ExtractError::BadLineNumber(rel.id)),
        LineName::Parsed { number, from, to } => Ok(
            Some(TransportLine { number, from, to, geometry, stations }),
        ),
    }
}

/// Extracts the tram stops and the tram lines of a loaded object collection.
pub fn extract_transport_lines(objs: &OsmObjects) -> (r: Result<Data, ExtractError>)
    requires
        objs.wf(),
    ensures
        extraction_result(*objs, r),
{
    let stations = match extract_stations(&objs.nodes) {
        Ok(st) => st,
        Err(e) => {
            return Err(e);
        },
    };
    let rels = &objs.relations;
    let mut lines: Vec<TransportLine> = Vec::new();
    let ghost mut found: Seq<LineView> = seq![];
    let mut i: usize = 0;
    while i < rels.len()
        invariant
            i <= rels.len(),
            objs.wf(),
            rels@ == objs.relations@,
            unnamed_stop(objs.nodes@) is None,
            station_views(stations@) == stations_of(objs.nodes@),
            collect_lines(*objs, rels@.subrange(0, i as int)) == Ok::<
                Seq<LineView>,
                ExtractError,
            >(found),
            views(lines@) == sort_lines(found),
        decreases rels.len() - i,
    {
        let ghost upto = rels@.subrange(0, i + 1);
        assert(upto.drop_last() =~= rels@.subrange(0, i as int));
        assert(upto.last() == rels@[i as int]);
        match relation_line(objs, &rels[i]) {
            Err(e) => {
                proof {
                    assert(collect_lines(*objs, upto) == Err::<Seq<LineView>, ExtractError>(e));
                    lemma_collect_lines_prefix(*objs, rels@, i + 1);
                }
                return Err(e);
            },
            Ok(None) => {},
            Ok(Some(line)) => {
                proof {
                    assert(found.push(line@).drop_last() =~= found);
                    found = found.push(line@);
                }
                insert_line(&mut lines, line);
            },
        }
        i = i + 1;
    }
    assert(rels@.subrange(0, i as int) =~= rels@);
    Ok(Data { stations, lines })
}

/// A fatal error among the first relations is the error of them all.
proof fn lemma_collect_lines_prefix(objs: OsmObjects, rels: Seq<Relation>, m: int)
    requires
        0 <= m <= rels.len(),
        collect_lines(objs, rels.subrange(0, m)) is Err,
    ensures
        collect_lines(objs, rels) == collect_lines(objs, rels.subrange(0, m)),
    decreases rels.len() - m,
{
    if m < rels.len() {
        assert(rels.subrange(0, m + 1).drop_last() =~= rels.subrange(0, m));
        lemma_collect_lines_prefix(objs, rels, m + 1);
    } else {
        assert(rels.subrange(0, m) =~= rels);
    }
}

/// Whether nodes and ways are each in strictly ascending identifier order.
pub fn is_well_formed(objs: &OsmObjects) -> (r: bool)
    ensures
        r == objs.wf(),
{
    let mut i: usize = 1;
    while i < objs.nodes.len()
        invariant
            1 <= i,
            forall|a: int, b: int| 0 <= a < b < i && b < objs.nodes.len() ==> objs.nodes@[a].id < objs.nodes@[b].id,
        decreases objs.nodes.len() - i,
    {
        if objs.nodes[i - 1].id >= objs.nodes[i].id {
            return false;
        }
        i = i + 1;
    }
    let mut j: usize = 1;
    while j < objs.ways.len()
        invariant
            1 <= j,
            crate::osm::nodes_sorted(objs.nodes@),
            forall|a: int, b: int| 0 <= a < b < j && b < objs.ways.len() ==> objs.ways@[a].id < objs.ways@[b].id,
        decreases objs.ways.len() - j,
    {
        if objs.ways[j - 1].id >= objs.ways[j].id {
            return false;
        }
        j = j + 1;
    }
    true
}

/// Whatever order the relations come in, a successful extraction lists its
/// lines in non-decreasing `(number, from, to)` order.
pub proof fn lemma_extracted_lines_sorted(objs: OsmObjects)
    requires
        extraction(objs) is Ok,
    ensures
        keys_sorted(keys(extraction(objs)->Ok_0.1)),
{
    lemma_sort_lines_sorted(collect_lines(objs, objs.relations@)->Ok_0);
}

/// The output is a function of the input: two runs on the same collection give
/// the same error, or the same stations and the same lines in the same order.
pub proof fn lemma_extraction_deterministic(
    objs: OsmObjects,
    r1: Result<Data, ExtractError>,
    r2: Result<Data, ExtractError>,
)
    requires
        extraction_result(objs, r1),
        extraction_result(objs, r2),
    ensures
        r1 is Err ==> r1 == r2,
        r1 is Ok <==> r2 is Ok,
        r1 is Ok ==> station_views(r1->Ok_0.stations@) == station_views(r2->Ok_0.stations@)
            && views(r1->Ok_0.lines@) == views(r2->Ok_0.lines@),
{
}

/// The lines that the relations contribute, in relation order, errors aside.
pub open spec fn contributed(objs: OsmObjects, rels: Seq<Relation>) -> Seq<LineView>
    decreases rels.len(),
{
    if rels.len() == 0 {
        seq![]
    } else {
        let prev = contributed(objs, rels.drop_last());
        match contribution(objs, rels.last()) {
            Contribution::Line(l) => prev.push(l),
            _ => prev,
        }
    }
}

proof fn lemma_collect_is_contributed(objs: OsmObjects, rels: Seq<Relation>)
    requires
        collect_lines(objs, rels) is Ok,
    ensures
        collect_lines(objs, rels)->Ok_0 == contributed(objs, rels),
    decreases rels.len(),
{
    if rels.len() > 0 {
        lemma_collect_is_contributed(objs, rels.drop_last());
    }
}

proof fn lemma_contributed_concat(objs: OsmObjects, a: Seq<Relation>, b: Seq<Relation>)
    ensures
        contributed(objs, a + b) == contributed(objs, a) + contributed(objs, b),
    decreases b.len(),
{
    if b.len() == 0 {
        assert(a + b =~= a);
        assert(contributed(objs, a) + contributed(objs, b) =~= contributed(objs, a));
    } else {
        assert((a + b).drop_last() =~= a + b.drop_last());
        assert((a + b).last() == b.last());
        lemma_contributed_concat(objs, a, b.drop_last());
        match contribution(objs, b.last()) {
            Contribution::Line(l) => {
                assert((contributed(objs, a) + contributed(objs, b.drop_last())).push(l) =~= contributed(
                    objs,
                    a,
                ) + contributed(objs, b.drop_last()).push(l));
            },
            _ => {},
        }
    }
}

proof fn lemma_keys_concat(a: Seq<LineView>, b: Seq<LineView>)
    ensures
        keys(a + b).to_multiset() == keys(a).to_multiset().add(keys(b).to_multiset()),
{
    assert(keys(a + b) =~= keys(a) + keys(b));
    vstd::seq_lib::lemma_multiset_commutative(keys(a), keys(b));
}

proof fn lemma_contributed_permutation(objs: OsmObjects, r1: Seq<Relation>, r2: Seq<Relation>)
    requires
        r1.to_multiset() == r2.to_multiset(),
    ensures
        keys(contributed(objs, r1)).to_multiset() == keys(contributed(objs, r2)).to_multiset(),
    decreases r1.len(),
{
    broadcast use vstd::multiset::group_multiset_axioms;

    vstd::seq_lib::to_multiset_len(r1);
    vstd::seq_lib::to_multiset_len(r2);
    if r1.len() == 0 {
        assert(r2.len() == 0);
        assert(r1 =~= r2);
    } else {
        let x = r1.last();
        let rest1 = r1.drop_last();
        assert(rest1.push(x) =~= r1);
        vstd::seq_lib::to_multiset_build(rest1, x);
        vstd::seq_lib::to_multiset_contains(r2, x);
        assert(r2.to_multiset().count(x) > 0);
        let i = choose|i: int| 0 <= i < r2.len() && r2[i] == x;
        let head = r2.subrange(0, i);
        let tail = r2.subrange(i + 1, r2.len() as int);
        let rest2 = head + tail;
        assert(rest2 =~= r2.remove(i));
        vstd::seq_lib::to_multiset_remove(r2, i);
        assert(rest1.to_multiset() =~= rest2.to_multiset());
        lemma_contributed_permutation(objs, rest1, rest2);
        let single = seq![x];
        assert(r1 =~= rest1 + single);
        assert(r2 =~= head + single + tail);
        lemma_contributed_concat(objs, rest1, single);
        lemma_contributed_concat(objs, head, single);
        lemma_contributed_concat(objs, head + single, tail);
        lemma_contributed_concat(objs, head, tail);
        let ch = contributed(objs, head);
        let cs = contributed(objs, single);
        let ct = contributed(objs, tail);
        lemma_keys_concat(contributed(objs, rest1), cs);
        lemma_keys_concat(ch + cs, ct);
        lemma_keys_concat(ch, cs);
        lemma_keys_concat(ch, ct);
        assert(keys(contributed(objs, r1)).to_multiset() =~= keys(contributed(objs, r2)).to_multiset());
    }
}

/// The order in which the relations come does not matter: when every relation
/// is well formed, relations listed in any order give the lines in the same
/// `(number, from, to)` order.
pub proof fn lemma_line_order_independent_of_relation_order(o1: OsmObjects, o2: OsmObjects)
    requires
        o1.nodes == o2.nodes,
        o1.ways == o2.ways,
        o1.relations@.to_multiset() == o2.relations@.to_multiset(),
        extraction(o1) is Ok,
        extraction(o2) is Ok,
    ensures
        keys(extraction(o1)->Ok_0.1) == keys(extraction(o2)->Ok_0.1),
{
    lemma_collect_is_contributed(o1, o1.relations@);
    lemma_collect_is_contributed(o2, o2.relations@);
    assert(contributed(o1, o2.relations@) == contributed(o2, o2.relations@)) by {
        lemma_contributed_same_objects(o1, o2, o2.relations@);
    }
    lemma_contributed_permutation(o1, o1.relations@, o2.relations@);
    crate::lines::lemma_sort_lines_order_independent(
        contributed(o1, o1.relations@),
        contributed(o2, o2.relations@),
    );
}

proof fn lemma_contributed_same_objects(o1: OsmObjects, o2: OsmObjects, rels: Seq<Relation>)
    requires
        o1.nodes == o2.nodes,
        o1.ways == o2.ways,
    ensures
        contributed(o1, rels) == contributed(o2, rels),
    decreases rels.len(),
{
    if rels.len() > 0 {
        lemma_contributed_same_objects(o1, o2, rels.drop_last());
    }
}

} // verus!
