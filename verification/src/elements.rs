//! OSM elements: nodes, ways, directed edges, and their attribute decoding.

use vstd::prelude::*;
use crate::geo::{distance, spec_distance, Coordinates, MAX_DISTANCE_METERS};
use crate::text::{
    coord_val_e7, int_str_val, parse_coord_e7, parse_i64, str_eq, valid_coord_str, valid_int_str,
};

verus! {

/// Why a document was rejected; carried with the byte position at the top
/// level.
#[derive(Clone, Copy, Debug, PartialEq, Eq, Structural)]
pub enum ParseErrorKind {
    /// The XML itself is malformed (bad syntax or a bad attribute list).
    BadXml,
    /// A `<way>` opened while another way was still open.
    NestedWay,
    /// A `<node>` opened while another node was still open.
    NestedNode,
    /// A `</way>` arrived with no way open.
    UnmatchedWayEnd,
    /// A `</node>` arrived with no node open.
    UnmatchedNodeEnd,
    /// A required attribute (`id`, `lat`, `lon`, `ref`) is absent.
    MissingAttribute,
    /// A required attribute does not parse as a number in range.
    InvalidNumber,
}

/// A fatal parse error: its kind and the byte position the reader had
/// reached when it arose.
#[derive(Clone, Copy, Debug, PartialEq, Eq, Structural)]
pub struct ParseError {
    pub kind: ParseErrorKind,
    pub position: u64,
}

/// A road-graph vertex: an OSM node id and its geographic position.
#[derive(Clone, Copy, Debug, PartialEq, Eq, Structural)]
pub struct Node {
    pub id: i64,
    pub position: Coordinates,
}

/// A directed edge: endpoints by node id and the great-circle distance
/// between them in meters.
#[derive(Clone, Copy, Debug, PartialEq, Eq, Structural)]
pub struct Edge {
    pub from: i64,
    pub to: i64,
    pub distance: u64,
}

/// An OSM way while it is being parsed: its id, whether a tag classified it
/// as a drivable road, whether it is one-way, and its ordered node refs.
#[derive(Clone, Debug)]
pub struct Way {
    pub id: i64,
    pub is_road: bool,
    pub is_oneway: bool,
    pub nodes: Vec<i64>,
}

/// The value of the first attribute named `key`, if any.
pub open spec fn find_first(attrs: Seq<(String, String)>, key: Seq<char>) -> Option<Seq<char>>
    decreases attrs.len(),
{
    if attrs.len() == 0 {
        None
    } else if attrs[0].0@ == key {
        Some(attrs[0].1@)
    } else {
        find_first(attrs.drop_first(), key)
    }
}

/// The value of the last attribute named `key`, if any (a repeated
/// attribute overwrites an earlier one, as the node decoder folds them).
pub open spec fn find_last(attrs: Seq<(String, String)>, key: Seq<char>) -> Option<Seq<char>>
    decreases attrs.len(),
{
    if attrs.len() == 0 {
        None
    } else if attrs.last().0@ == key {
        Some(attrs.last().1@)
    } else {
        find_last(attrs.drop_last(), key)
    }
}

fn find_attr_first<'a>(attrs: &'a Vec<(String, String)>, key: &str) -> (r: Option<&'a String>)
    ensures
        match r {
            Some(v) => find_first(attrs@, key@) == Some::<Seq<char>>(v@),
            None => find_first(attrs@, key@) is None,
        },
{
    let n = attrs.len();
    proof {
        assert(attrs@.subrange(0, n as int) =~= attrs@);
    }
    let mut i: usize = 0;
    while i < n
        invariant
            0 <= i <= n,
            n == attrs@.len(),
            find_first(attrs@, key@) == find_first(attrs@.subrange(i as int, n as int), key@),
        decreases n - i,
    {
        if str_eq(attrs[i].0.as_str(), key) {
            proof {
                assert(attrs@.subrange(i as int, n as int)[0] == attrs@[i as int]);
            }
            return Some(&attrs[i].1);
        }
        proof {
            assert(attrs@.subrange(i as int, n as int).drop_first() =~= attrs@.subrange(
                i as int + 1,
                n as int,
            ));
        }
        i = i + 1;
    }
    proof {
        assert(attrs@.subrange(n as int, n as int).len() == 0);
    }
    None
}

fn find_attr_last<'a>(attrs: &'a Vec<(String, String)>, key: &str) -> (r: Option<&'a String>)
    ensures
        match r {
            Some(v) => find_last(attrs@, key@) == Some::<Seq<char>>(v@),
            None => find_last(attrs@, key@) is None,
        },
{
    let n = attrs.len();
    proof {
        assert(attrs@.subrange(0, n as int) =~= attrs@);
    }
    let mut i: usize = n;
    while i > 0
        invariant
            0 <= i <= n,
            n == attrs@.len(),
            find_last(attrs@, key@) == find_last(attrs@.subrange(0, i as int), key@),
        decreases i,
    {
        i = i - 1;
        if str_eq(attrs[i].0.as_str(), key) {
            proof {
                assert(attrs@.subrange(0, i as int + 1).last() == attrs@[i as int]);
            }
            return Some(&attrs[i].1);
        }
        proof {
            assert(attrs@.subrange(0, i as int + 1).drop_last() =~= attrs@.subrange(0, i as int));
        }
    }
    None
}

/// A decimal integer string as an `i64`, when it is one.
pub open spec fn spec_parse_i64(v: Seq<char>) -> Option<i64> {
    if valid_int_str(v) && i64::MIN <= int_str_val(v) <= i64::MAX {
        Some(int_str_val(v) as i64)
    } else {
        None
    }
}

/// A decimal degree string in fixed point, when it is one.
pub open spec fn spec_parse_coord(v: Seq<char>) -> Option<i64> {
    if valid_coord_str(v) && i64::MIN <= coord_val_e7(v) <= i64::MAX {
        Some(coord_val_e7(v) as i64)
    } else {
        None
    }
}

/// What decoding a `<node>` element's attributes yields: required `id`,
/// `lat` and `lon`, each present and numeric; of a repeated attribute the
/// last occurrence counts.
pub open spec fn spec_node_of_attrs(attrs: Seq<(String, String)>) -> Result<
    Node,
    ParseErrorKind,
> {
    match find_last(attrs, "id"@) {
        None => Err(ParseErrorKind::MissingAttribute),
        Some(idv) => match spec_parse_i64(idv) {
            None => Err(ParseErrorKind::InvalidNumber),
            Some(id) => match find_last(attrs, "lat"@) {
                None => Err(ParseErrorKind::MissingAttribute),
                Some(latv) => match spec_parse_coord(latv) {
                    None => Err(ParseErrorKind::InvalidNumber),
                    Some(lat) => match find_last(attrs, "lon"@) {
                        None => Err(ParseErrorKind::MissingAttribute),
                        Some(lonv) => match spec_parse_coord(lonv) {
                            None => Err(ParseErrorKind::InvalidNumber),
                            Some(lon) => Ok(
                                Node {
                                    id,
                                    position: Coordinates { lat_e7: lat, lon_e7: lon },
                                },
                            ),
                        },
                    },
                },
            },
        },
    }
}

impl Node {
    /// Decodes a `<node>` element from its attribute list.
    pub fn from_attributes(attrs: &Vec<(String, String)>) -> (r: Result<Node, ParseErrorKind>)
        ensures
            r == spec_node_of_attrs(attrs@),
    {
        let id = match find_attr_last(attrs, "id") {
            None => {
                return Err(ParseErrorKind::MissingAttribute);
            },
            Some(v) => match parse_i64(v.as_str()) {
                None => {
                    return Err(ParseErrorKind::InvalidNumber);
                },
                Some(id) => id,
            },
        };
        let lat = match find_attr_last(attrs, "lat") {
            None => {
                return Err(ParseErrorKind::MissingAttribute);
            },
            Some(v) => match parse_coord_e7(v.as_str()) {
                None => {
                    return Err(ParseErrorKind::InvalidNumber);
                },
                Some(lat) => lat,
            },
        };
        let lon = match find_attr_last(attrs, "lon") {
            None => {
                return Err(ParseErrorKind::MissingAttribute);
            },
            Some(v) => match parse_coord_e7(v.as_str()) {
                None => {
                    return Err(ParseErrorKind::InvalidNumber);
                },
                Some(lon) => lon,
            },
        };
        Ok(Node { id, position: Coordinates { lat_e7: lat, lon_e7: lon } })
    }
}

impl Edge {
    /// The directed edge between two nodes, weighted by their distance.
    pub fn from_node_elements(from: &Node, to: &Node) -> (e: Edge)
        ensures
            e.from == from.id,
            e.to == to.id,
            e.distance == spec_distance(from.position, to.position),
            e.distance == spec_distance(to.position, from.position),
            e.distance <= MAX_DISTANCE_METERS,
    {
        let d = distance(&from.position, &to.position);
        Edge { from: from.id, to: to.id, distance: d }
    }

    /// The same edge pointed the other way.
    pub fn reversed(&self) -> (e: Edge)
        ensures
            e.from == self.to,
            e.to == self.from,
            e.distance == self.distance,
    {
        Edge { from: self.to, to: self.from, distance: self.distance }
    }
}

/// The accepted `highway` classes: ways of these classes are drivable roads.
pub open spec fn road_class(v: Seq<char>) -> bool {
    ||| v == "motorway"@
    ||| v == "trunk"@
    ||| v == "primary"@
    ||| v == "secondary"@
    ||| v == "tertiary"@
    ||| v == "unclassified"@
    ||| v == "residential"@
    ||| v == "motorway_link"@
    ||| v == "trunk_link"@
    ||| v == "primary_link"@
    ||| v == "secondary_link"@
    ||| v == "tertiary_link"@
    ||| v == "road"@
}

pub open spec fn oneway_yes(v: Seq<char>) -> bool {
    v == "yes"@ || v == "true"@ || v == "1"@
}

pub open spec fn oneway_no(v: Seq<char>) -> bool {
    v == "no"@ || v == "false"@ || v == "0"@
}

/// Whether the way is a road after one `<tag>`: a `highway` tag with an
/// accepted class makes it one, and the flag is sticky.
pub open spec fn spec_tag_road(prev: bool, attrs: Seq<(String, String)>) -> bool {
    prev || match (find_first(attrs, "k"@), find_first(attrs, "v"@)) {
        (Some(k), Some(v)) => k == "highway"@ && road_class(v),
        _ => false,
    }
}

/// Whether the way is one-way after one `<tag>`: `oneway` yes/no values set
/// and clear the flag, and `junction=roundabout` sets it.
pub open spec fn spec_tag_oneway(prev: bool, attrs: Seq<(String, String)>) -> bool {
    match (find_first(attrs, "k"@), find_first(attrs, "v"@)) {
        (Some(k), Some(v)) => if k == "oneway"@ {
            if oneway_yes(v) {
                true
            } else if oneway_no(v) {
                false
            } else {
                prev
            }
        } else if k == "junction"@ && v == "roundabout"@ {
            true
        } else {
            prev
        },
        _ => prev,
    }
}

/// What decoding a `<way>` element's start attributes yields: a way with
/// the required `id` (first occurrence) and no refs or flags yet.
pub open spec fn spec_way_of_attrs(attrs: Seq<(String, String)>) -> Result<
    (i64, bool, bool, Seq<i64>),
    ParseErrorKind,
> {
    match find_first(attrs, "id"@) {
        None => Err(ParseErrorKind::MissingAttribute),
        Some(idv) => match spec_parse_i64(idv) {
            None => Err(ParseErrorKind::InvalidNumber),
            Some(id) => Ok((id, false, false, Seq::empty())),
        },
    }
}

/// The `ref` of a `<nd>` element, when present and numeric.
pub open spec fn spec_nd_ref(attrs: Seq<(String, String)>) -> Option<i64> {
    match find_first(attrs, "ref"@) {
        Some(v) => spec_parse_i64(v),
        None => None,
    }
}

/// What handling a `<nd>` element yields.
pub open spec fn spec_nd_result(attrs: Seq<(String, String)>) -> Result<(), ParseErrorKind> {
    match find_first(attrs, "ref"@) {
        None => Err(ParseErrorKind::MissingAttribute),
        Some(v) => match spec_parse_i64(v) {
            Some(_) => Ok(()),
            None => Err(ParseErrorKind::InvalidNumber),
        },
    }
}

impl Way {
    /// Decodes a `<way>` start element from its attribute list.
    pub fn from_attributes(attrs: &Vec<(String, String)>) -> (r: Result<Way, ParseErrorKind>)
        ensures
            match r {
                Ok(w) => spec_way_of_attrs(attrs@) == Ok::<_, ParseErrorKind>(
                    (w.id, w.is_road, w.is_oneway, w.nodes@),
                ),
                Err(k) => spec_way_of_attrs(attrs@) == Err::<(i64, bool, bool, Seq<i64>), _>(k),
            },
    {
        let id = match find_attr_first(attrs, "id") {
            None => {
                return Err(ParseErrorKind::MissingAttribute);
            },
            Some(v) => match parse_i64(v.as_str()) {
                None => {
                    return Err(ParseErrorKind::InvalidNumber);
                },
                Some(id) => id,
            },
        };
        let nodes: Vec<i64> = Vec::new();
        proof {
            assert(nodes@ =~= Seq::<i64>::empty());
        }
        Ok(Way { id, is_road: false, is_oneway: false, nodes })
    }

    /// Appends the `ref` of a `<nd>` child (first occurrence) to the way.
    pub fn handle_nd(&mut self, attrs: &Vec<(String, String)>) -> (r: Result<(), ParseErrorKind>)
        ensures
            final(self).id == old(self).id,
            final(self).is_road == old(self).is_road,
            final(self).is_oneway == old(self).is_oneway,
            r == spec_nd_result(attrs@),
            final(self).nodes@ == match spec_nd_ref(attrs@) {
                Some(n) => old(self).nodes@.push(n),
                None => old(self).nodes@,
            },
    {
        let nd_id = match find_attr_first(attrs, "ref") {
            None => {
                return Err(ParseErrorKind::MissingAttribute);
            },
            Some(v) => match parse_i64(v.as_str()) {
                None => {
                    return Err(ParseErrorKind::InvalidNumber);
                },
                Some(id) => id,
            },
        };
        self.nodes.push(nd_id);
        Ok(())
    }

    /// Applies a `<tag>` child to the road and one-way flags.
    pub fn handle_tag(&mut self, attrs: &Vec<(String, String)>)
        ensures
            final(self).id == old(self).id,
            final(self).nodes@ == old(self).nodes@,
            final(self).is_road == spec_tag_road(old(self).is_road, attrs@),
            final(self).is_oneway == spec_tag_oneway(old(self).is_oneway, attrs@),
    {
        proof {
            reveal_strlit("highway");
            reveal_strlit("oneway");
            reveal_strlit("junction");
            assert("highway"@.len() == 7);
            assert("oneway"@.len() == 6);
            assert("junction"@.len() == 8);
        }
        let k_opt = find_attr_first(attrs, "k");
        let v_opt = find_attr_first(attrs, "v");
        let (k, v) = match (k_opt, v_opt) {
            (Some(k), Some(v)) => (k, v),
            _ => {
                return ;
            },
        };
        if str_eq(k.as_str(), "highway") {
            let road = str_eq(v.as_str(), "motorway") || str_eq(v.as_str(), "trunk") || str_eq(
                v.as_str(),
                "primary",
            ) || str_eq(v.as_str(), "secondary") || str_eq(v.as_str(), "tertiary") || str_eq(
                v.as_str(),
                "unclassified",
            ) || str_eq(v.as_str(), "residential") || str_eq(v.as_str(), "motorway_link")
                || str_eq(v.as_str(), "trunk_link") || str_eq(v.as_str(), "primary_link")
                || str_eq(v.as_str(), "secondary_link") || str_eq(v.as_str(), "tertiary_link")
                || str_eq(v.as_str(), "road");
            if road {
                self.is_road = true;
            }
        } else if str_eq(k.as_str(), "oneway") {
            if str_eq(v.as_str(), "yes") || str_eq(v.as_str(), "true") || str_eq(v.as_str(), "1") {
                self.is_oneway = true;
            } else if str_eq(v.as_str(), "no") || str_eq(v.as_str(), "false") || str_eq(
                v.as_str(),
                "0",
            ) {
                self.is_oneway = false;
            }
        } else if str_eq(k.as_str(), "junction") && str_eq(v.as_str(), "roundabout") {
            self.is_oneway = true;
        }
    }
}

} // verus!
