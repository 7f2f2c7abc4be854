//! The streaming builder: one pass over the XML events, one open way at a
//! time, then pruning and edge emission.

use vstd::prelude::*;
use vstd::string::StrSliceExecFns;
use std::collections::HashMap;
use crate::elements::{
    find_first, spec_node_of_attrs, spec_parse_i64, spec_tag_oneway, spec_tag_road,
    spec_way_of_attrs, Node, ParseError, ParseErrorKind, Way,
};
use crate::graph::{build_graph, built_from, Graph};
use crate::text::str_eq;
use crate::xml::{next_event, reader_from_str, reader_position, xml_event_at, XmlEvent};

verus! {

/// The parse state: nodes seen so far, closed road ways, and the way and
/// node elements that are currently open, if any.
pub struct GraphBuilder {
    pub nodes: HashMap<i64, Node>,
    pub ways: Vec<Way>,
    pub open_way: Option<Way>,
    pub open_node: Option<Node>,
}

/// The two states hold the same data, compared by views (the open way may
/// have been moved through a no-op update).
pub open spec fn unchanged_fields(a: GraphBuilder, b: GraphBuilder) -> bool {
    &&& a.nodes@ == b.nodes@
    &&& a.ways@ == b.ways@
    &&& opt_way_fields(a.open_way) == opt_way_fields(b.open_way)
    &&& a.open_node == b.open_node
}

/// A way's fields as a tuple, to speak of an optional open way compactly.
pub open spec fn opt_way_fields(ow: Option<Way>) -> Option<(i64, bool, bool, Seq<i64>)> {
    match ow {
        Some(w) => Some((w.id, w.is_road, w.is_oneway, w.nodes@)),
        None => None,
    }
}

/// The parse state as mathematical values: nodes by id, the collected road
/// ways and the open way as field tuples (id, is_road, is_oneway, refs),
/// and the open node.
pub struct ScanState {
    pub nodes: Map<i64, Node>,
    pub ways: Seq<(i64, bool, bool, Seq<i64>)>,
    pub open_way: Option<(i64, bool, bool, Seq<i64>)>,
    pub open_node: Option<Node>,
}

/// The field tuples of a list of ways.
pub open spec fn way_fields_of(ws: Seq<Way>) -> Seq<(i64, bool, bool, Seq<i64>)> {
    ws.map_values(|w: Way| (w.id, w.is_road, w.is_oneway, w.nodes@))
}

/// The parse state a builder holds.
pub open spec fn builder_model(b: GraphBuilder) -> ScanState {
    ScanState {
        nodes: b.nodes@,
        ways: way_fields_of(b.ways@),
        open_way: opt_way_fields(b.open_way),
        open_node: b.open_node,
    }
}

/// The state before any event: nothing parsed, nothing open.
pub open spec fn scan_init() -> ScanState {
    ScanState { nodes: Map::empty(), ways: Seq::empty(), open_way: None, open_node: None }
}

/// One event's effect on the parse state, as the element table of the
/// format prescribes; the transition that `apply_event` implements.
pub open spec fn spec_step(st: ScanState, ev: XmlEvent) -> Result<ScanState, ParseErrorKind> {
    match ev {
        XmlEvent::Start(name, attrs) => {
            if name@ == "way"@ {
                if st.open_way is Some {
                    Err(ParseErrorKind::NestedWay)
                } else {
                    match spec_way_of_attrs(attrs@) {
                        Ok(w) => Ok(ScanState { open_way: Some(w), ..st }),
                        Err(k) => Err(k),
                    }
                }
            } else if name@ == "node"@ {
                if st.open_node is Some {
                    Err(ParseErrorKind::NestedNode)
                } else {
                    match spec_node_of_attrs(attrs@) {
                        Ok(n) => Ok(ScanState { open_node: Some(n), ..st }),
                        Err(k) => Err(k),
                    }
                }
            } else {
                Ok(st)
            }
        },
        XmlEvent::Empty(name, attrs) => match st.open_way {
            Some(w) => {
                if name@ == "nd"@ {
                    match find_first(attrs@, "ref"@) {
                        Some(v) => match spec_parse_i64(v) {
                            Some(n) => Ok(
                                ScanState { open_way: Some((w.0, w.1, w.2, w.3.push(n))), ..st },
                            ),
                            None => Err(ParseErrorKind::InvalidNumber),
                        },
                        None => Err(ParseErrorKind::MissingAttribute),
                    }
                } else if name@ == "tag"@ {
                    Ok(
                        ScanState {
                            open_way: Some(
                                (
                                    w.0,
                                    spec_tag_road(w.1, attrs@),
                                    spec_tag_oneway(w.2, attrs@),
                                    w.3,
                                ),
                            ),
                            ..st
                        },
                    )
                } else {
                    Ok(st)
                }
            },
            None => {
                if name@ == "node"@ {
                    match spec_node_of_attrs(attrs@) {
                        Ok(n) => Ok(ScanState { nodes: st.nodes.insert(n.id, n), ..st }),
                        Err(k) => Err(k),
                    }
                } else {
                    Ok(st)
                }
            },
        },
        XmlEvent::End(name) => {
            if name@ == "way"@ {
                match st.open_way {
                    Some(w) => Ok(
                        ScanState {
                            open_way: None,
                            ways: if w.1 {
                                st.ways.push(w)
                            } else {
                                st.ways
                            },
                            ..st
                        },
                    ),
                    None => Err(ParseErrorKind::UnmatchedWayEnd),
                }
            } else if name@ == "node"@ {
                match st.open_node {
                    Some(n) => Ok(
                        ScanState { open_node: None, nodes: st.nodes.insert(n.id, n), ..st },
                    ),
                    None => Err(ParseErrorKind::UnmatchedNodeEnd),
                }
            } else {
                Ok(st)
            }
        },
        _ => Ok(st),
    }
}

/// What a scan of the document leaves: finished at the end marker, failed,
/// or still running when the fuel ran out.
pub enum ScanResult {
    Done(ScanState),
    Fail(ParseErrorKind),
    More(ScanState),
}

/// Folds the document's events from index `i` through the parse
/// transitions, for at most `fuel` events: the end marker finishes, a
/// malformed event or a transition error fails.
pub open spec fn spec_scan(s: Seq<char>, i: int, st: ScanState, fuel: nat) -> ScanResult
    decreases fuel,
{
    if fuel == 0 {
        ScanResult::More(st)
    } else {
        let ev = xml_event_at(s, i);
        if ev is Eof {
            ScanResult::Done(st)
        } else if ev is Fail {
            ScanResult::Fail(ParseErrorKind::BadXml)
        } else {
            match spec_step(st, ev) {
                Ok(st2) => spec_scan(s, i + 1, st2, (fuel - 1) as nat),
                Err(k) => ScanResult::Fail(k),
            }
        }
    }
}

/// The fuel a scan of `s` gets: one event per character and a margin of
/// two, which no real tokenization of `s` can exhaust (every event consumes
/// at least one character).
pub open spec fn scan_fuel(s: Seq<char>) -> nat {
    if s.len() + 2 > usize::MAX as int {
        usize::MAX as nat
    } else {
        (s.len() + 2) as nat
    }
}

/// What scanning the whole document yields.
pub open spec fn spec_parse_outcome(s: Seq<char>) -> ScanResult {
    spec_scan(s, 0, scan_init(), scan_fuel(s))
}

/// The graph holds exactly the scan's nodes and road ways.
pub open spec fn graph_from_scan(g: Graph, st: ScanState) -> bool {
    exists|ws: Seq<Way>|
        #[trigger] built_from(g, st.nodes, ws) && way_fields_of(ws) == st.ways
}

proof fn lemma_way_fields_push(ws: Seq<Way>, w: Way)
    ensures
        way_fields_of(ws.push(w)) == way_fields_of(ws).push(
            (w.id, w.is_road, w.is_oneway, w.nodes@),
        ),
{
    assert(way_fields_of(ws.push(w)) =~= way_fields_of(ws).push(
        (w.id, w.is_road, w.is_oneway, w.nodes@),
    ));
}

/// What one event does to the parse state: the exact relation between the
/// builder before (`b0`) and after (`b1`) `apply_event` returned `r`.
pub open spec fn apply_event_post(
    b0: GraphBuilder,
    b1: GraphBuilder,
    ev: XmlEvent,
    r: Result<(), ParseErrorKind>,
) -> bool {
    match ev {
        XmlEvent::Start(name, attrs) => {
            if name@ == "way"@ {
                if b0.open_way is Some {
                    r == Err::<(), _>(ParseErrorKind::NestedWay) && b1 == b0
                } else {
                    match spec_way_of_attrs(attrs@) {
                        Ok(w) => r == Ok::<(), ParseErrorKind>(()) && opt_way_fields(
                            b1.open_way,
                        ) == Some(w) && b1.nodes@ == b0.nodes@ && b1.ways@ == b0.ways@ && b1.open_node == b0.open_node,
                        Err(k) => r == Err::<(), _>(k) && b1 == b0,
                    }
                }
            } else if name@ == "node"@ {
                if b0.open_node is Some {
                    r == Err::<(), _>(ParseErrorKind::NestedNode) && b1 == b0
                } else {
                    match spec_node_of_attrs(attrs@) {
                        Ok(n) => r == Ok::<(), ParseErrorKind>(()) && b1.open_node
                            == Some(n) && b1.nodes@ == b0.nodes@ && b1.ways@ == b0.ways@ && b1.open_way == b0.open_way,
                        Err(k) => r == Err::<(), _>(k) && b1 == b0,
                    }
                }
            } else {
                r == Ok::<(), ParseErrorKind>(()) && b1 == b0
            }
        },
        XmlEvent::Empty(name, attrs) => match b0.open_way {
            Some(w) => {
                if name@ == "nd"@ {
                    match find_first(attrs@, "ref"@) {
                        Some(v) => match spec_parse_i64(v) {
                            Some(n) => r == Ok::<(), ParseErrorKind>(()) && opt_way_fields(
                                b1.open_way,
                            ) == Some((w.id, w.is_road, w.is_oneway, w.nodes@.push(n)))
                                && b1.nodes@ == b0.nodes@ && b1.ways@ == b0.ways@ && b1.open_node == b0.open_node,
                            None => r == Err::<(), _>(ParseErrorKind::InvalidNumber)
                                && unchanged_fields(b0, b1),
                        },
                        None => r == Err::<(), _>(ParseErrorKind::MissingAttribute)
                            && unchanged_fields(b0, b1),
                    }
                } else if name@ == "tag"@ {
                    r == Ok::<(), ParseErrorKind>(()) && opt_way_fields(
                        b1.open_way,
                    ) == Some(
                        (
                            w.id,
                            spec_tag_road(w.is_road, attrs@),
                            spec_tag_oneway(w.is_oneway, attrs@),
                            w.nodes@,
                        ),
                    ) && b1.nodes@ == b0.nodes@ && b1.ways@
                        == b0.ways@ && b1.open_node == b0.open_node
                } else {
                    r == Ok::<(), ParseErrorKind>(()) && b1 == b0
                }
            },
            None => {
                if name@ == "node"@ {
                    match spec_node_of_attrs(attrs@) {
                        Ok(n) => r == Ok::<(), ParseErrorKind>(()) && b1.nodes@
                            == b0.nodes@.insert(n.id, n) && b1.ways@
                            == b0.ways@ && b1.open_way == b0.open_way && b1.open_node == b0.open_node,
                        Err(k) => r == Err::<(), _>(k) && b1 == b0,
                    }
                } else {
                    r == Ok::<(), ParseErrorKind>(()) && b1 == b0
                }
            },
        },
        XmlEvent::End(name) => {
            if name@ == "way"@ {
                match b0.open_way {
                    Some(w) => r == Ok::<(), ParseErrorKind>(()) && b1.open_way
                        is None && b1.ways@ == if w.is_road {
                        b0.ways@.push(w)
                    } else {
                        b0.ways@
                    } && b1.nodes@ == b0.nodes@ && b1.open_node
                        == b0.open_node,
                    None => r == Err::<(), _>(ParseErrorKind::UnmatchedWayEnd) && b1 == b0,
                }
            } else if name@ == "node"@ {
                match b0.open_node {
                    Some(n) => r == Ok::<(), ParseErrorKind>(()) && b1.open_node
                        is None && b1.nodes@ == b0.nodes@.insert(n.id, n)
                        && b1.ways@ == b0.ways@ && b1.open_way
                        == b0.open_way,
                    None => r == Err::<(), _>(ParseErrorKind::UnmatchedNodeEnd) && b1 == b0,
                }
            } else {
                r == Ok::<(), ParseErrorKind>(()) && b1 == b0
            }
        },
        _ => r == Ok::<(), ParseErrorKind>(()) && b1 == b0,
    }
}

impl GraphBuilder {
    /// Nodes are keyed by their own id.
    pub open spec fn wf(self) -> bool {
        forall|k: i64| #[trigger] self.nodes@.contains_key(k) ==> self.nodes@[k].id == k
    }

    pub fn new() -> (b: GraphBuilder)
        ensures
            b.wf(),
            b.nodes@ == Map::<i64, Node>::empty(),
            b.ways@ == Seq::<Way>::empty(),
            b.open_way is None,
            b.open_node is None,
    {
        let b = GraphBuilder {
            nodes: HashMap::new(),
            ways: Vec::new(),
            open_way: None,
            open_node: None,
        };
        proof {
            assert(b.ways@ =~= Seq::<Way>::empty());
        }
        b
    }

    /// Applies one XML event to the parse state, as the element table of the
    /// format prescribes: `<way>` opens a way context, `<node>` opens or
    /// directly inserts a node, `<nd>` and `<tag>` feed the open way, the
    /// end tags close their contexts (a closed way is kept only when it is a
    /// road), everything else is ignored. Structural violations are fatal
    /// and leave the state unchanged.
    pub fn apply_event(&mut self, ev: &XmlEvent) -> (r: Result<(), ParseErrorKind>)
        requires
            old(self).wf(),
        ensures
            final(self).wf(),
            apply_event_post(*old(self), *final(self), *ev, r),
    {
        match ev {
            XmlEvent::Start(name, attrs) => {
                if str_eq(name.as_str(), "way") {
                    if self.open_way.is_some() {
                        return Err(ParseErrorKind::NestedWay);
                    }
                    match Way::from_attributes(attrs) {
                        Ok(w) => {
                            self.open_way = Some(w);
                            Ok(())
                        },
                        Err(k) => Err(k),
                    }
                } else if str_eq(name.as_str(), "node") {
                    if self.open_node.is_some() {
                        return Err(ParseErrorKind::NestedNode);
                    }
                    match Node::from_attributes(attrs) {
                        Ok(n) => {
                            self.open_node = Some(n);
                            Ok(())
                        },
                        Err(k) => Err(k),
                    }
                } else {
                    Ok(())
                }
            },
            XmlEvent::Empty(name, attrs) => {
                let open = self.open_way.take();
                match open {
                    Some(mut w) => {
                        if str_eq(name.as_str(), "nd") {
                            let r = w.handle_nd(attrs);
                            self.open_way = Some(w);
                            r
                        } else if str_eq(name.as_str(), "tag") {
                            w.handle_tag(attrs);
                            self.open_way = Some(w);
                            Ok(())
                        } else {
                            self.open_way = Some(w);
                            Ok(())
                        }
                    },
                    None => {
                        if str_eq(name.as_str(), "node") {
                            match Node::from_attributes(attrs) {
                                Ok(n) => {
                                    self.nodes.insert(n.id, n);
                                    Ok(())
                                },
                                Err(k) => Err(k),
                            }
                        } else {
                            Ok(())
                        }
                    },
                }
            },
            XmlEvent::End(name) => {
                if str_eq(name.as_str(), "way") {
                    let open = self.open_way.take();
                    match open {
                        Some(w) => {
                            if w.is_road {
                                self.ways.push(w);
                            }
                            Ok(())
                        },
                        None => Err(ParseErrorKind::UnmatchedWayEnd),
                    }
                } else if str_eq(name.as_str(), "node") {
                    let open = self.open_node.take();
                    match open {
                        Some(n) => {
                            self.nodes.insert(n.id, n);
                            Ok(())
                        },
                        None => Err(ParseErrorKind::UnmatchedNodeEnd),
                    }
                } else {
                    Ok(())
                }
            },
            _ => Ok(()),
        }
    }
}

impl Graph {
    /// Builds the road graph from an OSM XML document in one pass. The
    /// result is pinned to the document's event stream: on success the graph
    /// is well formed and built exactly from the nodes and road ways that
    /// folding the stream through the parse transitions yields; on failure
    /// the fold fails with the same kind of violation (the byte position is
    /// reported as the reader gave it).
    #[verifier::rlimit(100)]
    pub fn from_xml(xml: &str) -> (r: Result<Graph, ParseError>)
        ensures
            match r {
                Ok(g) => g.wf() && (spec_parse_outcome(xml@) matches ScanResult::Done(st)
                    && graph_from_scan(g, st)),
                Err(e) => match spec_parse_outcome(xml@) {
                    ScanResult::Done(_) => false,
                    ScanResult::Fail(k) => e.kind == k,
                    ScanResult::More(_) => e.kind == ParseErrorKind::BadXml,
                },
            },
    {
        let mut reader = reader_from_str(xml);
        let mut b = GraphBuilder::new();
        let len = xml.unicode_len();
        let mut budget = if len > usize::MAX - 2 {
            usize::MAX
        } else {
            len + 2
        };
        proof {
            assert(budget as nat == scan_fuel(xml@));
            assert(way_fields_of(b.ways@) =~= Seq::<(i64, bool, bool, Seq<i64>)>::empty());
            assert(builder_model(b) == scan_init());
        }
        loop
            invariant
                b.wf(),
                reader.doc() == xml@,
                spec_scan(xml@, reader.pos(), builder_model(b), budget as nat)
                    == spec_parse_outcome(xml@),
            decreases budget,
        {
            if budget == 0 {
                // the fuel covers one event per character and two more; a
                // reader that yields more events than that is reported as
                // malformed rather than looped on
                let position = reader_position(&reader);
                return Err(ParseError { kind: ParseErrorKind::BadXml, position });
            }
            let ghost m0 = builder_model(b);
            let ghost p0 = reader.pos();
            let ev = next_event(&mut reader);
            proof {
                assert(ev == xml_event_at(xml@, p0));
            }
            budget = budget - 1;
            match ev {
                XmlEvent::Eof => {
                    proof {
                        assert(spec_parse_outcome(xml@) == ScanResult::Done(m0));
                    }
                    break ;
                },
                XmlEvent::Fail => {
                    proof {
                        assert(spec_parse_outcome(xml@) == ScanResult::Fail(
                            ParseErrorKind::BadXml,
                        ));
                    }
                    let position = reader_position(&reader);
                    return Err(ParseError { kind: ParseErrorKind::BadXml, position });
                },
                _ => {
                    let ghost old_b = b;
                    match b.apply_event(&ev) {
                        Ok(()) => {
                            proof {
                                lemma_step_matches_ok(old_b, b, ev);
                                assert(spec_scan(
                                    xml@,
                                    reader.pos(),
                                    builder_model(b),
                                    budget as nat,
                                ) == spec_parse_outcome(xml@));
                            }
                        },
                        Err(kind) => {
                            proof {
                                lemma_step_matches_err(old_b, b, ev, kind);
                                assert(spec_parse_outcome(xml@) == ScanResult::Fail(kind));
                            }
                            let position = reader_position(&reader);
                            return Err(ParseError { kind, position });
                        },
                    }
                },
            }
        }
        let g = finish_build(&b);
        proof {
            let st = builder_model(b);
            assert(built_from(g, st.nodes, b.ways@));
            assert(graph_from_scan(g, st));
        }
        Ok(g)
    }
}

/// Turns the final parse state into the graph.
fn finish_build(b: &GraphBuilder) -> (g: Graph)
    requires
        b.wf(),
    ensures
        g.wf(),
        built_from(g, b.nodes@, b.ways@),
{
    build_graph(&b.nodes, &b.ways)
}

/// A successful `apply_event` takes the builder's model exactly where the
/// spec transition takes it.
proof fn lemma_step_matches_ok(b0: GraphBuilder, b1: GraphBuilder, ev: XmlEvent)
    requires
        apply_event_post(b0, b1, ev, Ok(())),
    ensures
        spec_step(builder_model(b0), ev) == Ok::<ScanState, ParseErrorKind>(builder_model(b1)),
{
    match ev {
        XmlEvent::End(name) => {
            if name@ == "way"@ {
                match b0.open_way {
                    Some(w) => {
                        if w.is_road {
                            lemma_way_fields_push(b0.ways@, w);
                        }
                    },
                    None => {},
                }
            }
        },
        _ => {},
    }
}

/// A failing `apply_event` fails the spec transition with the same kind.
proof fn lemma_step_matches_err(
    b0: GraphBuilder,
    b1: GraphBuilder,
    ev: XmlEvent,
    kind: ParseErrorKind,
)
    requires
        apply_event_post(b0, b1, ev, Err(kind)),
    ensures
        spec_step(builder_model(b0), ev) == Err::<ScanState, ParseErrorKind>(kind),
{
}

} // verus!