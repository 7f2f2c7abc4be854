use osm_router::config::Config;
use osm_router::elements::ParseErrorKind;
use osm_router::geo::Coordinates;
use osm_router::graph::Graph;
use osm_router::text::{parse_coord_e7, parse_i64};

#[test]
fn config_needs_three_arguments() {
    let args = vec![
        "prog".to_string(),
        "map.osm".to_string(),
        "0,0".to_string(),
    ];
    assert_eq!(Config::new(&args), Err("not enough arguments"));
    let args = vec![
        "prog".to_string(),
        "map.osm".to_string(),
        "0,0".to_string(),
        "1,1".to_string(),
    ];
    let c = Config::new(&args).unwrap();
    assert_eq!(c.filepath, "map.osm");
    assert_eq!(c.start_point, "0,0");
    assert_eq!(c.end_point, "1,1");
}

#[test]
fn parse_i64_accepts_signed_decimals() {
    assert_eq!(parse_i64("0"), Some(0));
    assert_eq!(parse_i64("42"), Some(42));
    assert_eq!(parse_i64("-42"), Some(-42));
    assert_eq!(parse_i64("+42"), Some(42));
    assert_eq!(parse_i64("9223372036854775807"), Some(i64::MAX));
    assert_eq!(parse_i64("-9223372036854775808"), Some(i64::MIN));
}

#[test]
fn parse_i64_rejects_junk_and_overflow() {
    assert_eq!(parse_i64(""), None);
    assert_eq!(parse_i64("-"), None);
    assert_eq!(parse_i64("1.5"), None);
    assert_eq!(parse_i64("12a"), None);
    assert_eq!(parse_i64("9223372036854775808"), None);
    assert_eq!(parse_i64("-9223372036854775809"), None);
    assert_eq!(parse_i64("99999999999999999999999999"), None);
}

#[test]
fn parse_coord_scales_to_e7() {
    assert_eq!(parse_coord_e7("0"), Some(0));
    assert_eq!(parse_coord_e7("1"), Some(10_000_000));
    assert_eq!(parse_coord_e7("-1.5"), Some(-15_000_000));
    assert_eq!(parse_coord_e7("52.5170365"), Some(525_170_365));
    assert_eq!(parse_coord_e7("0.001"), Some(10_000));
    assert_eq!(parse_coord_e7(".5"), Some(5_000_000));
    assert_eq!(parse_coord_e7("5."), Some(50_000_000));
    // an eighth fractional digit is below the stored resolution
    assert_eq!(parse_coord_e7("0.00000005"), Some(0));
}

#[test]
fn parse_coord_rejects_junk() {
    assert_eq!(parse_coord_e7(""), None);
    assert_eq!(parse_coord_e7("."), None);
    assert_eq!(parse_coord_e7("-"), None);
    assert_eq!(parse_coord_e7("1.2.3"), None);
    assert_eq!(parse_coord_e7("abc"), None);
    assert_eq!(parse_coord_e7("1e3"), None);
}

#[test]
fn coordinates_from_string_splits_on_comma() {
    let c = Coordinates::from_string("52.5,13.4").unwrap();
    assert_eq!(c.lat_e7, 525_000_000);
    assert_eq!(c.lon_e7, 134_000_000);
    assert!(Coordinates::from_string("52.5").is_none());
    assert!(Coordinates::from_string("52.5,").is_none());
    assert!(Coordinates::from_string(",13.4").is_none());
    assert!(Coordinates::from_string("52.5,13.4,1").is_none());
    assert!(Coordinates::from_string("a,b").is_none());
}

#[test]
fn nested_way_is_fatal() {
    let xml = r#"<osm><way id="1"><way id="2"></way></way></osm>"#;
    let e = Graph::from_xml(xml).unwrap_err();
    assert_eq!(e.kind, ParseErrorKind::NestedWay);
}

#[test]
fn stray_way_end_is_rejected() {
    // the reader itself may flag the stray tag, or the builder does; either
    // way the document is rejected
    let e = Graph::from_xml("<osm></way></osm>").unwrap_err();
    assert!(
        e.kind == ParseErrorKind::UnmatchedWayEnd || e.kind == ParseErrorKind::BadXml
    );
    let e = Graph::from_xml("<osm></node></osm>").unwrap_err();
    assert!(
        e.kind == ParseErrorKind::UnmatchedNodeEnd || e.kind == ParseErrorKind::BadXml
    );
}

#[test]
fn nested_node_is_fatal() {
    let xml =
        r#"<osm><node id="1" lat="0" lon="0"><node id="2" lat="0" lon="0"></node></node></osm>"#;
    let e = Graph::from_xml(xml).unwrap_err();
    assert_eq!(e.kind, ParseErrorKind::NestedNode);
}

#[test]
fn missing_node_attributes_are_fatal() {
    let xml = r#"<osm><node id="1" lat="0"/></osm>"#;
    let e = Graph::from_xml(xml).unwrap_err();
    assert_eq!(e.kind, ParseErrorKind::MissingAttribute);
}

#[test]
fn non_numeric_attributes_are_fatal() {
    let xml = r#"<osm><node id="x" lat="0" lon="0"/></osm>"#;
    let e = Graph::from_xml(xml).unwrap_err();
    assert_eq!(e.kind, ParseErrorKind::InvalidNumber);
    let xml = r#"<osm><way id="1"><nd ref="y"/></way></osm>"#;
    let e = Graph::from_xml(xml).unwrap_err();
    assert_eq!(e.kind, ParseErrorKind::InvalidNumber);
}

#[test]
fn missing_way_id_is_fatal() {
    let xml = r#"<osm><way><nd ref="1"/></way></osm>"#;
    let e = Graph::from_xml(xml).unwrap_err();
    assert_eq!(e.kind, ParseErrorKind::MissingAttribute);
}

#[test]
fn malformed_xml_is_fatal_with_position() {
    let xml = r#"<osm><node id="1" lat="0" lon="0"/><bad"#;
    let e = Graph::from_xml(xml).unwrap_err();
    assert_eq!(e.kind, ParseErrorKind::BadXml);
    assert!(e.position > 0);
}

#[test]
fn duplicate_node_ids_take_the_later_definition() {
    let xml = r#"<osm>
      <node id="1" lat="0" lon="0"/>
      <node id="1" lat="0.5" lon="0.5"/>
      <node id="2" lat="0.5" lon="0.501"/>
      <way id="10"><nd ref="1"/><nd ref="2"/><tag k="highway" v="residential"/></way>
    </osm>"#;
    let g = Graph::from_xml(xml).unwrap();
    let n = g.get_node(1).unwrap();
    assert_eq!(n.position.lat_e7, 5_000_000);
    assert_eq!(n.position.lon_e7, 5_000_000);
}
