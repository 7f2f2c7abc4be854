use osm_router::geo::{distance, Coordinates};
use osm_router::graph::Graph;
use osm_router::routing::{route, RouteError};

fn coords(lat_e7: i64, lon_e7: i64) -> Coordinates {
    Coordinates { lat_e7, lon_e7 }
}

#[test]
fn two_node_route() {
    let xml = r#"<osm>
      <node id="1" lat="0" lon="0"/>
      <node id="2" lat="0" lon="0.001"/>
      <way id="10"><nd ref="1"/><nd ref="2"/><tag k="highway" v="residential"/></way>
    </osm>"#;
    let g = Graph::from_xml(xml).unwrap();
    let a = coords(0, 0);
    let b = coords(0, 10_000);
    let r = route(&g, &a, &b).unwrap();
    assert_eq!(r, vec![1, 2]);
}

#[test]
fn triangle_shortcut_takes_direct_edge() {
    let xml = r#"<osm>
      <node id="1" lat="0" lon="0"/>
      <node id="2" lat="0" lon="1"/>
      <node id="3" lat="0" lon="2"/>
      <way id="10"><nd ref="1"/><nd ref="2"/><nd ref="3"/><tag k="highway" v="residential"/></way>
      <way id="11"><nd ref="1"/><nd ref="3"/><tag k="highway" v="residential"/></way>
    </osm>"#;
    let g = Graph::from_xml(xml).unwrap();
    let a = coords(0, 0);
    let c = coords(0, 20_000_000);
    let r = route(&g, &a, &c).unwrap();
    assert_eq!(r, vec![1, 3]);
}

#[test]
fn unreachable_components_fail() {
    let xml = r#"<osm>
      <node id="1" lat="0" lon="0"/>
      <node id="2" lat="0" lon="0.001"/>
      <node id="3" lat="1" lon="1"/>
      <node id="4" lat="1" lon="1.001"/>
      <way id="10"><nd ref="1"/><nd ref="2"/><tag k="highway" v="residential"/></way>
      <way id="11"><nd ref="3"/><nd ref="4"/><tag k="highway" v="residential"/></way>
    </osm>"#;
    let g = Graph::from_xml(xml).unwrap();
    let a = coords(0, 0);
    let d = coords(10_000_000, 10_010_000);
    assert_eq!(route(&g, &a, &d), Err(RouteError::NoRouteFound));
}

#[test]
fn empty_graph_cannot_snap() {
    let g = Graph::from_xml("<osm></osm>").unwrap();
    let a = coords(0, 0);
    assert_eq!(route(&g, &a, &a), Err(RouteError::EmptyGraph));
}

#[test]
fn route_is_idempotent() {
    let xml = r#"<osm>
      <node id="1" lat="0" lon="0"/>
      <node id="2" lat="0" lon="0.001"/>
      <node id="3" lat="0.001" lon="0.001"/>
      <node id="4" lat="0.001" lon="0"/>
      <way id="10"><nd ref="1"/><nd ref="2"/><nd ref="3"/><tag k="highway" v="residential"/></way>
      <way id="11"><nd ref="1"/><nd ref="4"/><nd ref="3"/><tag k="highway" v="residential"/></way>
    </osm>"#;
    let g = Graph::from_xml(xml).unwrap();
    let a = coords(0, 0);
    let b = coords(10_000, 10_000);
    let first = route(&g, &a, &b).unwrap();
    let second = route(&g, &a, &b).unwrap();
    assert_eq!(first, second);
}

#[test]
fn snapping_prefers_nearest_then_lowest_id() {
    let xml = r#"<osm>
      <node id="7" lat="0" lon="0"/>
      <node id="5" lat="0" lon="0"/>
      <node id="2" lat="0" lon="0.5"/>
      <way id="10"><nd ref="7"/><nd ref="2"/><tag k="highway" v="residential"/></way>
      <way id="11"><nd ref="5"/><nd ref="2"/><tag k="highway" v="residential"/></way>
    </osm>"#;
    let g = Graph::from_xml(xml).unwrap();
    // both 5 and 7 sit at the query point; the tie goes to id 5
    let r = route(&g, &coords(0, 0), &coords(0, 5_000_000)).unwrap();
    assert_eq!(r[0], 5);
    assert_eq!(*r.last().unwrap(), 2);
}

#[test]
fn start_equals_end_gives_single_node() {
    let xml = r#"<osm>
      <node id="1" lat="0" lon="0"/>
      <node id="2" lat="0" lon="0.001"/>
      <way id="10"><nd ref="1"/><nd ref="2"/><tag k="highway" v="residential"/></way>
    </osm>"#;
    let g = Graph::from_xml(xml).unwrap();
    let a = coords(0, 0);
    let r = route(&g, &a, &a).unwrap();
    assert_eq!(r, vec![1]);
}

#[test]
fn distance_round_trip() {
    let a = coords(520_000_000, 134_000_000);
    let b = coords(483_000_000, 24_000_000);
    assert_eq!(distance(&a, &a), 0);
    assert_eq!(distance(&b, &b), 0);
    assert_eq!(distance(&a, &b), distance(&b, &a));
    assert!(distance(&a, &b) > 0);
}

#[test]
fn distance_of_one_longitude_millidegree() {
    // 0.001 degrees of longitude on the equator is about 111 meters
    let a = coords(0, 0);
    let b = coords(0, 10_000);
    let d = distance(&a, &b);
    assert!((110..=112).contains(&d), "distance was {}", d);
}

#[test]
fn distance_of_one_latitude_degree() {
    // one degree of latitude is about 111.2 kilometers
    let a = coords(0, 0);
    let b = coords(10_000_000, 0);
    let d = distance(&a, &b);
    assert!((111_000..=111_400).contains(&d), "distance was {}", d);
}

#[test]
fn antipodal_distance_is_half_circumference() {
    let a = coords(0, 0);
    let b = coords(0, 1_800_000_000);
    let d = distance(&a, &b);
    assert!(
        (20_014_000..=20_016_000).contains(&d),
        "distance was {}",
        d
    );
}

#[test]
fn optimal_path_avoids_the_detour() {
    let xml = r#"<osm>
      <node id="1" lat="0" lon="0"/>
      <node id="2" lat="0" lon="0.001"/>
      <node id="3" lat="0" lon="0.002"/>
      <node id="4" lat="0.002" lon="0.001"/>
      <way id="10"><nd ref="1"/><nd ref="4"/><nd ref="3"/><tag k="highway" v="residential"/></way>
      <way id="11"><nd ref="1"/><nd ref="2"/><nd ref="3"/><tag k="highway" v="residential"/></way>
    </osm>"#;
    let g = Graph::from_xml(xml).unwrap();
    let r = route(&g, &coords(0, 0), &coords(0, 20_000)).unwrap();
    assert_eq!(r, vec![1, 2, 3]);
}

#[test]
fn quarter_circumference_distance() {
    // ninety degrees of longitude on the equator
    let a = coords(0, 0);
    let b = coords(0, 900_000_000);
    let d = distance(&a, &b);
    assert!(
        (10_007_000..=10_008_000).contains(&d),
        "distance was {}",
        d
    );
}
