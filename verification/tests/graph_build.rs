use osm_router::graph::Graph;

fn has_edge(g: &Graph, u: i64, v: i64) -> bool {
    match g.adjacency.get(&u) {
        Some(es) => es.iter().any(|e| e.to == v),
        None => false,
    }
}

fn edge_weight(g: &Graph, u: i64, v: i64) -> u64 {
    g.adjacency
        .get(&u)
        .unwrap()
        .iter()
        .find(|e| e.to == v)
        .unwrap()
        .distance
}

fn two_node_xml() -> &'static str {
    r#"<osm>
      <node id="1" lat="0" lon="0"/>
      <node id="2" lat="0" lon="0.001"/>
      <way id="10"><nd ref="1"/><nd ref="2"/><tag k="highway" v="residential"/></way>
    </osm>"#
}

#[test]
fn two_node_road_builds_edge() {
    let g = Graph::from_xml(two_node_xml()).unwrap();
    assert_eq!(g.node_count(), 2);
    assert!(has_edge(&g, 1, 2));
    assert!(has_edge(&g, 2, 1));
    let d = edge_weight(&g, 1, 2);
    assert!((110..=112).contains(&d), "edge distance was {}", d);
    assert_eq!(edge_weight(&g, 2, 1), d);
}

#[test]
fn pruning_drops_unreferenced_nodes() {
    let xml = r#"<osm>
      <node id="1" lat="0" lon="0"/>
      <node id="2" lat="0" lon="0.001"/>
      <node id="3" lat="10" lon="10"/>
      <way id="10"><nd ref="1"/><nd ref="2"/><tag k="highway" v="residential"/></way>
    </osm>"#;
    let g = Graph::from_xml(xml).unwrap();
    assert_eq!(g.node_count(), 2);
    assert!(g.get_node(1).is_some());
    assert!(g.get_node(2).is_some());
    assert!(g.get_node(3).is_none());
}

#[test]
fn road_filter_rejects_footways() {
    let xml = r#"<osm>
      <node id="1" lat="0" lon="0"/>
      <node id="2" lat="0" lon="0.001"/>
      <way id="10"><nd ref="1"/><nd ref="2"/><tag k="highway" v="footway"/></way>
    </osm>"#;
    let g = Graph::from_xml(xml).unwrap();
    assert_eq!(g.node_count(), 0);
    assert!(g.adjacency.is_empty());
}

#[test]
fn bidirectional_way_gets_both_directions() {
    let xml = r#"<osm>
      <node id="1" lat="0" lon="0"/>
      <node id="2" lat="0" lon="0.001"/>
      <node id="3" lat="0" lon="0.002"/>
      <way id="10"><nd ref="1"/><nd ref="2"/><nd ref="3"/><tag k="highway" v="residential"/></way>
    </osm>"#;
    let g = Graph::from_xml(xml).unwrap();
    assert!(has_edge(&g, 1, 2));
    assert!(has_edge(&g, 2, 1));
    assert!(has_edge(&g, 2, 3));
    assert!(has_edge(&g, 3, 2));
    assert!(!has_edge(&g, 1, 3));
    assert!(!has_edge(&g, 3, 1));
}

#[test]
fn oneway_way_gets_forward_edges_only() {
    let xml = r#"<osm>
      <node id="1" lat="0" lon="0"/>
      <node id="2" lat="0" lon="0.001"/>
      <node id="3" lat="0" lon="0.002"/>
      <way id="10">
        <nd ref="1"/><nd ref="2"/><nd ref="3"/>
        <tag k="highway" v="residential"/>
        <tag k="oneway" v="yes"/>
      </way>
    </osm>"#;
    let g = Graph::from_xml(xml).unwrap();
    assert!(has_edge(&g, 1, 2));
    assert!(has_edge(&g, 2, 3));
    assert!(!has_edge(&g, 2, 1));
    assert!(!has_edge(&g, 3, 2));
}

#[test]
fn roundabout_is_oneway() {
    let xml = r#"<osm>
      <node id="1" lat="0" lon="0"/>
      <node id="2" lat="0" lon="0.001"/>
      <way id="10">
        <nd ref="1"/><nd ref="2"/>
        <tag k="highway" v="residential"/>
        <tag k="junction" v="roundabout"/>
      </way>
    </osm>"#;
    let g = Graph::from_xml(xml).unwrap();
    assert!(has_edge(&g, 1, 2));
    assert!(!has_edge(&g, 2, 1));
}

#[test]
fn later_oneway_no_clears_the_flag() {
    let xml = r#"<osm>
      <node id="1" lat="0" lon="0"/>
      <node id="2" lat="0" lon="0.001"/>
      <way id="10">
        <nd ref="1"/><nd ref="2"/>
        <tag k="highway" v="residential"/>
        <tag k="oneway" v="yes"/>
        <tag k="oneway" v="no"/>
      </way>
    </osm>"#;
    let g = Graph::from_xml(xml).unwrap();
    assert!(has_edge(&g, 1, 2));
    assert!(has_edge(&g, 2, 1));
}

#[test]
fn missing_node_reference_is_bridged() {
    // the middle ref does not exist: the adjacent retained pair still joins
    let xml = r#"<osm>
      <node id="1" lat="0" lon="0"/>
      <node id="3" lat="0" lon="0.002"/>
      <way id="10"><nd ref="1"/><nd ref="2"/><nd ref="3"/><tag k="highway" v="residential"/></way>
    </osm>"#;
    let g = Graph::from_xml(xml).unwrap();
    assert_eq!(g.node_count(), 2);
    assert!(has_edge(&g, 1, 3));
    assert!(has_edge(&g, 3, 1));
}

#[test]
fn node_with_children_is_kept() {
    let xml = r#"<osm>
      <node id="1" lat="0" lon="0"><tag k="name" v="a"/></node>
      <node id="2" lat="0" lon="0.001"/>
      <way id="10"><nd ref="1"/><nd ref="2"/><tag k="highway" v="residential"/></way>
    </osm>"#;
    let g = Graph::from_xml(xml).unwrap();
    assert_eq!(g.node_count(), 2);
    assert!(has_edge(&g, 1, 2));
}
