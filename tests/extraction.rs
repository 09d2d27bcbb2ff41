use tram_lines::extract::{extract_transport_lines, is_well_formed, relation_line, Data, ExtractError};
use tram_lines::line_name::{parse_line_name, LineName};
use tram_lines::lines::TransportLine;
use tram_lines::osm::{Coord, Member, MemberRef, Node, OsmObjects, Relation, Way};

fn tags(pairs: &[(&str, &str)]) -> Vec<(String, String)> {
    pairs.iter().map(|(k, v)| (k.to_string(), v.to_string())).collect()
}

fn coord(lon: i32, lat: i32) -> Coord {
    Coord { decimicro_lon: lon, decimicro_lat: lat }
}

fn node(id: i64, lon: i32, lat: i32, t: &[(&str, &str)]) -> Node {
    Node { id, coord: coord(lon, lat), tags: tags(t) }
}

fn stop(id: i64, name: &str) -> Node {
    node(id, (id * 10) as i32, (id * 20) as i32, &[("railway", "tram_stop"), ("name", name)])
}

fn way(id: i64, nodes: &[i64]) -> Way {
    Way { id, nodes: nodes.to_vec(), tags: vec![] }
}

fn member(m: MemberRef, role: &str) -> Member {
    Member { member: m, role: role.to_string() }
}

fn route(id: i64, name: &str, members: Vec<Member>) -> Relation {
    Relation { id, members, tags: tags(&[("type", "route"), ("route", "tram"), ("name", name)]) }
}

fn parsed(number: u8, from: &str, to: &str) -> LineName {
    LineName::Parsed { number, from: from.to_string(), to: to.to_string() }
}

fn keys(d: &Data) -> Vec<(u8, String, String)> {
    d.lines.iter().map(|l| (l.number, l.from.clone(), l.to.clone())).collect()
}

fn sample() -> OsmObjects {
    OsmObjects {
        nodes: vec![
            stop(1, "Start"),
            node(2, 5, 6, &[]),
            stop(3, "End"),
            node(4, 7, 8, &[("railway", "signal")]),
        ],
        ways: vec![way(10, &[1, 2]), way(11, &[2, 3, 4])],
        relations: vec![
            route(
                100,
                "Tram 7: Start => Mid => End",
                vec![
                    member(MemberRef::Node(1), "stop"),
                    member(MemberRef::Way(10), ""),
                    member(MemberRef::Node(3), "stop"),
                    member(MemberRef::Way(11), ""),
                ],
            ),
            route(101, "Tram 3: A => B", vec![]),
            route(102, "Bus 3: A => B", vec![]),
            route(103, "Tram 3: A to B", vec![]),
            route(104, "Tram 3: A => A", vec![]),
        ],
    }
}

#[test]
fn name_with_intermediate_hops() {
    assert_eq!(parse_line_name("Tram 7: Start => Mid => End"), parsed(7, "Start", "End"));
}

#[test]
fn name_with_two_endpoints() {
    assert_eq!(parse_line_name("Tram 3: A => B"), parsed(3, "A", "B"));
}

#[test]
fn name_without_prefix_is_unmatched() {
    assert_eq!(parse_line_name("Bus 3: A => B"), LineName::Unmatched);
    assert_eq!(parse_line_name("tram 3: A => B"), LineName::Unmatched);
}

#[test]
fn name_without_separator_is_unmatched() {
    assert_eq!(parse_line_name("Tram 3: A to B"), LineName::Unmatched);
    assert_eq!(parse_line_name("Tram 3: A=>B"), LineName::Unmatched);
    assert_eq!(parse_line_name(""), LineName::Unmatched);
}

#[test]
fn name_with_line_break_is_unmatched() {
    assert_eq!(parse_line_name("Tram 3: A => B\n"), LineName::Unmatched);
}

#[test]
fn name_with_spaced_arrow() {
    assert_eq!(parse_line_name("Tram 12: North = > South"), parsed(12, "North", "South"));
}

#[test]
fn name_number_forms() {
    assert_eq!(parse_line_name("Tram +7: A => B"), parsed(7, "A", "B"));
    assert_eq!(parse_line_name("Tram 007: A => B"), parsed(7, "A", "B"));
    assert_eq!(parse_line_name("Tram 255: A => B"), parsed(255, "A", "B"));
    assert_eq!(parse_line_name("Tram 256: A => B"), LineName::BadNumber);
    assert_eq!(parse_line_name("Tram 7a: A => B"), LineName::BadNumber);
    assert_eq!(parse_line_name("Tram : A => B"), LineName::BadNumber);
    assert_eq!(parse_line_name("Tram -1: A => B"), LineName::BadNumber);
}

#[test]
fn name_number_runs_to_last_colon() {
    assert_eq!(parse_line_name("Tram 1: 2: A => B"), LineName::BadNumber);
    assert_eq!(parse_line_name("Tram 4: A => B: C"), parsed(4, "A", "B: C"));
}

#[test]
fn name_from_is_shortest_to_is_after_last_arrow() {
    assert_eq!(parse_line_name("Tram 5: A => B => C => D"), parsed(5, "A", "D"));
    assert_eq!(parse_line_name("Tram 5: A = > B => C"), parsed(5, "A", "C"));
    assert_eq!(parse_line_name("Tram 5: A => "), parsed(5, "A", ""));
    assert_eq!(parse_line_name("Tram 5: Ölbaum => Straße"), parsed(5, "Ölbaum", "Straße"));
}

#[test]
fn names_agree_with_regular_expression() {
    let re = regex::Regex::new(r"^Tram (.*): (.*?) =[ ]?> (?:.* => )?(.*)$").unwrap();
    let names = [
        "Tram 7: Start => Mid => End",
        "Tram 3: A => B",
        "Tram 1: 2: A => B",
        "Tram 4: A => B: C",
        "Tram 5: A = > B => C",
        "Tram 5: A => B = > C",
        "Tram 9: x: y = > z: w => v",
        "Tram : => ",
        "Tram 5:  =>  => ",
        "Tram 5: a => b\nc",
        "Tram 5: Ölbaum => Straße",
        "Tram 1: a: b => c: d => e",
        "Tram 1: a => b: c => d",
    ];
    for name in names {
        let expected = match re.captures(name) {
            None => LineName::Unmatched,
            Some(c) => match c[1].parse::<u8>() {
                Err(_) => LineName::BadNumber,
                Ok(n) => parsed(n, &c[2], &c[3]),
            },
        };
        assert_eq!(parse_line_name(name), expected, "{name}");
    }
}

#[test]
fn lines_are_sorted_and_unparseable_names_dropped() {
    let d = extract_transport_lines(&sample()).unwrap();
    assert_eq!(
        keys(&d),
        vec![
            (3, "A".to_string(), "A".to_string()),
            (3, "A".to_string(), "B".to_string()),
            (7, "Start".to_string(), "End".to_string()),
        ]
    );
}

#[test]
fn line_order_does_not_depend_on_relation_order() {
    let a = sample();
    let mut b = sample();
    b.relations.reverse();
    let da = extract_transport_lines(&a).unwrap();
    let db = extract_transport_lines(&b).unwrap();
    assert_eq!(keys(&da), keys(&db));
}

#[test]
fn equal_keys_keep_relation_order() {
    let mut objs = sample();
    objs.relations = vec![
        route(1, "Tram 2: X => Y", vec![member(MemberRef::Node(3), "stop")]),
        route(2, "Tram 1: X => Y", vec![]),
        route(3, "Tram 2: X => Y", vec![member(MemberRef::Node(1), "stop")]),
    ];
    let d = extract_transport_lines(&objs).unwrap();
    assert_eq!(d.lines.len(), 3);
    assert_eq!(d.lines[0].number, 1);
    assert_eq!(d.lines[1].stations, vec![3]);
    assert_eq!(d.lines[2].stations, vec![1]);
}

#[test]
fn two_ways_give_two_paths() {
    let d = extract_transport_lines(&sample()).unwrap();
    let line: &TransportLine = &d.lines[2];
    assert_eq!(
        line.geometry,
        vec![vec![coord(10, 20), coord(5, 6)], vec![coord(5, 6), coord(30, 60), coord(7, 8)]]
    );
}

#[test]
fn stops_in_member_order() {
    let d = extract_transport_lines(&sample()).unwrap();
    assert_eq!(d.lines[2].stations, vec![1, 3]);
    let objs = sample();
    let rel = route(
        200,
        "Tram 1: A => B",
        vec![
            member(MemberRef::Node(3), "stop"),
            member(MemberRef::Way(10), ""),
            member(MemberRef::Node(1), "stop"),
        ],
    );
    let line = relation_line(&objs, &rel).unwrap().unwrap();
    assert_eq!(line.stations, vec![3, 1]);
    assert_eq!(line.geometry.len(), 1);
}

#[test]
fn missing_nodes_and_other_roles_are_skipped() {
    let objs = sample();
    let rel = route(
        201,
        "Tram 1: A => B",
        vec![
            member(MemberRef::Way(11), "platform"),
            member(MemberRef::Node(2), ""),
            member(MemberRef::Way(99), ""),
            member(MemberRef::Way(12), ""),
        ],
    );
    let mut objs2 = objs.clone();
    objs2.ways.push(way(12, &[4, 50, 1]));
    let line = relation_line(&objs2, &rel).unwrap().unwrap();
    assert_eq!(line.geometry, vec![vec![coord(7, 8), coord(10, 20)]]);
    assert!(line.stations.is_empty());
}

#[test]
fn stations_of_tram_stops() {
    let d = extract_transport_lines(&sample()).unwrap();
    assert_eq!(d.stations.len(), 2);
    assert_eq!(d.stations[0].id, 1);
    assert_eq!(d.stations[0].name, "Start");
    assert_eq!(d.stations[0].position, coord(10, 20));
    assert_eq!(d.stations[1].id, 3);
    assert_eq!(d.stations[1].name, "End");
}

#[test]
fn missing_stop_name_is_fatal() {
    let mut objs = sample();
    objs.nodes.push(node(5, 0, 0, &[("railway", "tram_stop")]));
    objs.nodes.push(node(6, 0, 0, &[("railway", "tram_stop")]));
    assert_eq!(extract_transport_lines(&objs), Err(ExtractError::StopWithoutName(5)));
}

#[test]
fn stop_role_on_way_is_fatal() {
    let mut objs = sample();
    objs.relations.push(route(300, "Tram 1: A => B", vec![member(MemberRef::Way(10), "stop")]));
    assert_eq!(extract_transport_lines(&objs), Err(ExtractError::StopNotNode(300)));
}

#[test]
fn missing_route_name_is_fatal() {
    let mut objs = sample();
    objs.relations.push(Relation { id: 301, members: vec![], tags: tags(&[("route", "tram")]) });
    assert_eq!(extract_transport_lines(&objs), Err(ExtractError::RouteWithoutName(301)));
}

#[test]
fn bad_line_number_is_fatal() {
    let mut objs = sample();
    objs.relations.push(route(302, "Tram 300: A => B", vec![]));
    assert_eq!(extract_transport_lines(&objs), Err(ExtractError::BadLineNumber(302)));
}

#[test]
fn relations_without_route_tag_are_ignored() {
    let mut objs = sample();
    objs.relations.push(Relation {
        id: 303,
        members: vec![member(MemberRef::Way(10), "stop")],
        tags: tags(&[("type", "route_master")]),
    });
    assert_eq!(extract_transport_lines(&objs).unwrap().lines.len(), 3);
}

#[test]
fn extraction_is_repeatable() {
    let objs = sample();
    assert_eq!(extract_transport_lines(&objs), extract_transport_lines(&objs));
}

#[test]
fn empty_collection() {
    let objs = OsmObjects { nodes: vec![], ways: vec![], relations: vec![] };
    let d = extract_transport_lines(&objs).unwrap();
    assert!(d.stations.is_empty() && d.lines.is_empty());
}

#[test]
fn well_formedness_check() {
    assert!(is_well_formed(&sample()));
    let mut objs = sample();
    objs.nodes.swap(0, 1);
    assert!(!is_well_formed(&objs));
    let mut objs = sample();
    objs.ways.push(way(11, &[]));
    assert!(!is_well_formed(&objs));
}
