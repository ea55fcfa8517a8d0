use vstd::prelude::*;
use vstd::string::StringExecFns;
use vstd::utf8::encode_utf8_decode_utf8;
use xml::reader::XmlEvent as RawXmlEvent;

verus! {

// ---------------------------------------------------------------------------
// Lexical events.  The streaming reader of the `xml` crate produces these;
// the library holds them as plain values of its own so that the tree builder
// can be verified over them.
// ---------------------------------------------------------------------------

/// A lexical XML event, as the tree builder consumes it.
#[derive(Debug)]
pub enum XmlEvent {
    StartDocument,
    EndDocument,
    StartElement { name: String, attributes: Vec<(String, String)> },
    EndElement { name: String },
    Characters(String),
    Whitespace(String),
    /// A kind the tree builder does not handle (comment, processing
    /// instruction, CDATA): it fails fast rather than silently drop data.
    Unsupported,
}

/// The mathematical value of an event.
pub enum EventView {
    StartDocument,
    EndDocument,
    StartElement { name: Seq<char>, attributes: Seq<(Seq<char>, Seq<char>)> },
    EndElement { name: Seq<char> },
    Characters(Seq<char>),
    Whitespace(Seq<char>),
    Unsupported,
}

impl View for XmlEvent {
    type V = EventView;

    open spec fn view(&self) -> EventView {
        match self {
            XmlEvent::StartDocument => EventView::StartDocument,
            XmlEvent::EndDocument => EventView::EndDocument,
            XmlEvent::StartElement { name, attributes } => EventView::StartElement {
                name: name@,
                attributes: attributes@.map_values(|p: (String, String)| (p.0@, p.1@)),
            },
            XmlEvent::EndElement { name } => EventView::EndElement { name: name@ },
            XmlEvent::Characters(s) => EventView::Characters(s@),
            XmlEvent::Whitespace(s) => EventView::Whitespace(s@),
            XmlEvent::Unsupported => EventView::Unsupported,
        }
    }
}

/// The views of a run of events.
pub open spec fn events_view(s: Seq<XmlEvent>) -> Seq<EventView> {
    s.map_values(|e: XmlEvent| e@)
}

/// Everything that can go wrong while reading or shaping a document.
#[derive(Clone, Copy, Debug, PartialEq, Eq, Structural)]
pub enum XmlError {
    /// The lexical reader reported an error in the raw bytes.
    ReadError,
    /// The byte stream held no event at all.
    EmptyDocument,
    /// The event run did not open with a document-start event.
    MissingStartDocument,
    /// A node began with something other than a start tag, or an unsupported
    /// event kind stood inside an element.
    UnexpectedEvent,
    /// The events ran out before the open element closed.
    UnexpectedEnd,
    /// An end tag did not carry the name of the element it closes.
    MismatchedEnd,
    /// An element held both text and child elements, or text twice.
    TextBesideChildren,
    /// Events were left over after the root element closed.
    TrailingEvents,
    /// The element nesting outran the configured depth bound.
    TooDeep,
    /// The reader produced more events than the configured bound.
    TooManyEvents,
}

// ---------------------------------------------------------------------------
// The tree and its mathematical value.
// ---------------------------------------------------------------------------

/// A node of the document tree: the start-tag event it came from, optional
/// text content, and the child nodes, in document order.  A well-formed node
/// has either text or children, never both.
#[derive(Debug)]
pub struct XmlNode {
    pub start_element: XmlEvent,
    pub characters: Option<String>,
    pub children: Vec<XmlNode>,
}

/// A whole document: the document-start marker and exactly one root node.
#[derive(Debug)]
pub struct XmlTree {
    pub start_document: XmlEvent,
    pub root_node: XmlNode,
}

/// The mathematical value of a node.
#[verifier::ext_equal]
pub struct XmlNodeView {
    pub name: Seq<char>,
    pub attributes: Seq<(Seq<char>, Seq<char>)>,
    pub characters: Option<Seq<char>>,
    pub children: Seq<XmlNodeView>,
}

/// The element name an event carries.
pub open spec fn event_name(e: EventView) -> Seq<char> {
    match e {
        EventView::StartElement { name, .. } => name,
        EventView::EndElement { name } => name,
        _ => Seq::empty(),
    }
}

/// The attributes a start event carries.
pub open spec fn event_attrs(e: EventView) -> Seq<(Seq<char>, Seq<char>)> {
    match e {
        EventView::StartElement { attributes, .. } => attributes,
        _ => Seq::empty(),
    }
}

/// The mathematical value of a node.
pub open spec fn node_view(n: XmlNode) -> XmlNodeView
    decreases n,
{
    XmlNodeView {
        name: event_name(n.start_element@),
        attributes: event_attrs(n.start_element@),
        characters: match n.characters {
            Some(s) => Some(s@),
            None => None,
        },
        children: nodes_view(n.children@),
    }
}

/// The mathematical values of a run of nodes.
pub open spec fn nodes_view(s: Seq<XmlNode>) -> Seq<XmlNodeView>
    decreases s,
{
    if s.len() == 0 {
        Seq::empty()
    } else {
        nodes_view(s.drop_last()).push(node_view(s.last()))
    }
}

/// A node holds either text or children, never both; it came from a start
/// tag; and its children are well formed in turn.
pub open spec fn node_wf(n: XmlNode) -> bool
    decreases n,
{
    &&& n.start_element is StartElement
    &&& !(n.characters is Some && n.children@.len() > 0)
    &&& forall|i: int| 0 <= i < n.children@.len() ==> node_wf(#[trigger] n.children@[i])
}

impl XmlTree {
    /// The tree opens with the document marker and its root is well formed.
    pub open spec fn wf(self) -> bool {
        &&& self.start_document is StartDocument
        &&& node_wf(self.root_node)
    }
}

// ---------------------------------------------------------------------------
// The denotation: which event run a node stands for.  A node denotes its
// start tag, then its text if any, then its children's runs, then an end tag
// carrying the node's own name.
// ---------------------------------------------------------------------------

/// The events an optional text content stands for.
pub open spec fn text_events(c: Option<Seq<char>>) -> Seq<EventView> {
    match c {
        Some(s) => seq![EventView::Characters(s)],
        None => Seq::empty(),
    }
}

/// The event run a node stands for.
pub open spec fn view_events(v: XmlNodeView) -> Seq<EventView>
    decreases v,
{
    seq![EventView::StartElement { name: v.name, attributes: v.attributes }] + text_events(
        v.characters,
    ) + views_events(v.children) + seq![EventView::EndElement { name: v.name }]
}

/// The event runs of a run of nodes, concatenated in order.
pub open spec fn views_events(cs: Seq<XmlNodeView>) -> Seq<EventView>
    decreases cs,
{
    if cs.len() == 0 {
        Seq::empty()
    } else {
        views_events(cs.drop_last()) + view_events(cs.last())
    }
}

/// Well-formedness at the view level: either text or children, never both,
/// recursively.
pub open spec fn view_wf(v: XmlNodeView) -> bool
    decreases v,
{
    &&& !(v.characters is Some && v.children.len() > 0)
    &&& forall|i: int| 0 <= i < v.children.len() ==> view_wf(#[trigger] v.children[i])
}

/// The nesting depth of a node: one more than its deepest child.
pub open spec fn view_depth(v: XmlNodeView) -> int
    decreases v,
{
    1 + views_depth(v.children)
}

/// The deepest nesting among a run of nodes; zero for none.
pub open spec fn views_depth(cs: Seq<XmlNodeView>) -> int
    decreases cs,
{
    if cs.len() == 0 {
        0
    } else {
        let d = views_depth(cs.drop_last());
        let e = view_depth(cs.last());
        if e > d {
            e
        } else {
            d
        }
    }
}

/// A node is at least one level deep.
pub proof fn lemma_view_depth_at_least_one(v: XmlNodeView)
    ensures
        view_depth(v) >= 1,
    decreases v,
{
    lemma_views_depth_nonneg(v.children);
}

/// No run of nodes has negative depth.
pub proof fn lemma_views_depth_nonneg(cs: Seq<XmlNodeView>)
    ensures
        views_depth(cs) >= 0,
    decreases cs,
{
    if cs.len() > 0 {
        lemma_views_depth_nonneg(cs.drop_last());
        lemma_view_depth_at_least_one(cs.last());
    }
}

/// Each node of a run is at most as deep as the run.
pub proof fn lemma_views_depth_index(cs: Seq<XmlNodeView>, i: int)
    requires
        0 <= i < cs.len(),
    ensures
        view_depth(cs[i]) <= views_depth(cs),
    decreases cs.len(),
{
    if i < cs.len() - 1 {
        lemma_views_depth_index(cs.drop_last(), i);
        assert(cs.drop_last()[i] == cs[i]);
    }
}

/// A well-formed node's run maps back from the node.
pub proof fn lemma_node_wf_view_wf(n: XmlNode)
    requires
        node_wf(n),
    ensures
        view_wf(node_view(n)),
    decreases n,
{
    lemma_nodes_view_index(n.children@);
    assert forall|i: int| 0 <= i < node_view(n).children.len() implies view_wf(
        #[trigger] node_view(n).children[i],
    ) by {
        assert(node_wf(n.children@[i]));
        lemma_node_wf_view_wf(n.children@[i]);
    }
}

/// Some well-formed node's run, nested within `depth`, opens the events at
/// position `from`.
pub open spec fn node_run_opens(events: Seq<EventView>, from: int, depth: int) -> bool {
    exists|v: XmlNodeView|
        {
            &&& from + (#[trigger] view_events(v)).len() <= events.len()
            &&& 0 <= from
            &&& events.subrange(from, from + view_events(v).len()) == view_events(v)
            &&& view_wf(v)
            &&& view_depth(v) <= depth
        }
}

/// The witness behind `node_run_opens`.
proof fn choose_opening(events: Seq<EventView>, from: int, depth: int) -> (v: XmlNodeView)
    requires
        node_run_opens(events, from, depth),
    ensures
        from + view_events(v).len() <= events.len(),
        0 <= from,
        events.subrange(from, from + view_events(v).len()) == view_events(v),
        view_wf(v),
        view_depth(v) <= depth,
{
    choose|v: XmlNodeView|
        {
            &&& from + (#[trigger] view_events(v)).len() <= events.len()
            &&& 0 <= from
            &&& events.subrange(from, from + view_events(v).len()) == view_events(v)
            &&& view_wf(v)
            &&& view_depth(v) <= depth
        }
}

/// A node's run opens with its start tag and has at least the two tag events.
proof fn lemma_view_events_shape(v: XmlNodeView)
    ensures
        view_events(v).len() >= 2,
        view_events(v)[0] == (EventView::StartElement { name: v.name, attributes: v.attributes }),
{
}

/// Front form of `views_events`: the first node's run comes first.
proof fn lemma_views_events_front(cs: Seq<XmlNodeView>)
    requires
        cs.len() > 0,
    ensures
        views_events(cs) == view_events(cs[0]) + views_events(cs.drop_first()),
    decreases cs.len(),
{
    if cs.len() == 1 {
        assert(cs.drop_last().len() == 0);
        assert(cs.drop_first().len() == 0);
        assert(views_events(cs.drop_last()) =~= Seq::<EventView>::empty());
        assert(views_events(cs.drop_first()) =~= Seq::<EventView>::empty());
        assert(cs.last() == cs[0]);
        assert(views_events(cs) =~= view_events(cs[0]) + views_events(cs.drop_first()));
    } else {
        lemma_views_events_front(cs.drop_last());
        assert(cs.drop_last()[0] == cs[0]);
        assert(cs.drop_first().drop_last() =~= cs.drop_last().drop_first());
        assert(cs.drop_first().last() == cs.last());
        assert(views_events(cs) =~= view_events(cs[0]) + views_events(cs.drop_first()));
    }
}

/// Law: a run of events stands for at most one node — wherever two nodes'
/// runs open the same stream, the nodes and the remainders agree.
pub proof fn lemma_view_events_unambiguous(
    v1: XmlNodeView,
    v2: XmlNodeView,
    r1: Seq<EventView>,
    r2: Seq<EventView>,
)
    requires
        view_events(v1) + r1 == view_events(v2) + r2,
    ensures
        v1 == v2,
        r1 == r2,
    decreases v1,
{
    let s = view_events(v1) + r1;
    lemma_view_events_shape(v1);
    lemma_view_events_shape(v2);
    assert(s[0] == view_events(v1)[0]);
    assert(s[0] == view_events(v2)[0]);
    assert(v1.name == v2.name && v1.attributes == v2.attributes);
    // Strip the start tags: what is left of each side.
    let m1 = text_events(v1.characters) + views_events(v1.children) + seq![
        EventView::EndElement { name: v1.name },
    ];
    let m2 = text_events(v2.characters) + views_events(v2.children) + seq![
        EventView::EndElement { name: v2.name },
    ];
    assert(m1 + r1 =~= s.drop_first());
    assert(m2 + r2 =~= s.drop_first());
    // The text part: both sides must agree on whether text comes, since a
    // text event can open neither a child's run nor the end tag.
    if v1.children.len() > 0 {
        lemma_views_events_front(v1.children);
        lemma_view_events_shape(v1.children[0]);
    }
    if v2.children.len() > 0 {
        lemma_views_events_front(v2.children);
        lemma_view_events_shape(v2.children[0]);
    }
    match (v1.characters, v2.characters) {
        (Some(t1), Some(t2)) => {
            assert((m1 + r1)[0] == EventView::Characters(t1));
            assert((m2 + r2)[0] == EventView::Characters(t2));
            assert(t1 == t2);
        },
        (Some(t1), None) => {
            assert((m1 + r1)[0] == EventView::Characters(t1));
            if v2.children.len() > 0 {
                assert((m2 + r2)[0] == view_events(v2.children[0])[0]);
            } else {
                assert((m2 + r2)[0] == EventView::EndElement { name: v2.name });
            }
            assert(false);
        },
        (None, Some(t2)) => {
            assert((m2 + r2)[0] == EventView::Characters(t2));
            if v1.children.len() > 0 {
                assert((m1 + r1)[0] == view_events(v1.children[0])[0]);
            } else {
                assert((m1 + r1)[0] == EventView::EndElement { name: v1.name });
            }
            assert(false);
        },
        (None, None) => {},
    }
    // Strip the text: the children's runs, each closed by the end tag.
    let rest1 = seq![EventView::EndElement { name: v1.name }] + r1;
    let rest2 = seq![EventView::EndElement { name: v2.name }] + r2;
    assert(views_events(v1.children) + rest1 =~= match v1.characters {
        Some(t) => (m1 + r1).drop_first(),
        None => m1 + r1,
    });
    assert(views_events(v2.children) + rest2 =~= match v2.characters {
        Some(t) => (m2 + r2).drop_first(),
        None => m2 + r2,
    });
    assert(views_events(v1.children) + rest1 == views_events(v2.children) + rest2);
    lemma_views_events_unambiguous(v1.children, v2.children, rest1, rest2);
    assert(r1 =~= rest1.drop_first());
    assert(r2 =~= rest2.drop_first());
    assert(v1 =~= v2);
}

/// Law: a run of node runs is read back uniquely, as long as what follows it
/// does not itself open like a node.
pub proof fn lemma_views_events_unambiguous(
    cs1: Seq<XmlNodeView>,
    cs2: Seq<XmlNodeView>,
    r1: Seq<EventView>,
    r2: Seq<EventView>,
)
    requires
        views_events(cs1) + r1 == views_events(cs2) + r2,
        r1.len() > 0,
        r2.len() > 0,
        !(r1[0] is StartElement),
        !(r2[0] is StartElement),
    ensures
        cs1 == cs2,
        r1 == r2,
    decreases cs1,
{
    if cs1.len() == 0 && cs2.len() == 0 {
        assert(r1 =~= r2);
    } else if cs1.len() == 0 {
        lemma_views_events_front(cs2);
        lemma_view_events_shape(cs2[0]);
        assert((views_events(cs1) + r1)[0] == r1[0]);
        assert((views_events(cs2) + r2)[0] == view_events(cs2[0])[0]);
        assert(false);
    } else if cs2.len() == 0 {
        lemma_views_events_front(cs1);
        lemma_view_events_shape(cs1[0]);
        assert((views_events(cs2) + r2)[0] == r2[0]);
        assert((views_events(cs1) + r1)[0] == view_events(cs1[0])[0]);
        assert(false);
    } else {
        lemma_views_events_front(cs1);
        lemma_views_events_front(cs2);
        assert(view_events(cs1[0]) + (views_events(cs1.drop_first()) + r1) =~= views_events(cs1)
            + r1);
        assert(view_events(cs2[0]) + (views_events(cs2.drop_first()) + r2) =~= views_events(cs2)
            + r2);
        lemma_view_events_unambiguous(
            cs1[0],
            cs2[0],
            views_events(cs1.drop_first()) + r1,
            views_events(cs2.drop_first()) + r2,
        );
        lemma_views_events_unambiguous(cs1.drop_first(), cs2.drop_first(), r1, r2);
        assert(cs1.len() == cs2.len());
        assert forall|i: int| 0 <= i < cs1.len() implies cs1[i] == cs2[i] by {
            if i > 0 {
                assert(cs1[i] == cs1.drop_first()[i - 1]);
                assert(cs2[i] == cs2.drop_first()[i - 1]);
            }
        }
        assert(cs1 =~= cs2);
    }
}

/// Law: distinct trees have distinct event runs, so a tree is recovered
/// exactly from its own run: whenever the builder accepts a run that some
/// tree stands for, the tree it returns is that tree.
pub proof fn lemma_node_run_determines_node(v1: XmlNodeView, v2: XmlNodeView)
    requires
        view_events(v1) == view_events(v2),
    ensures
        v1 == v2,
{
    assert(view_events(v1) + Seq::<EventView>::empty() =~= view_events(v2)
        + Seq::<EventView>::empty());
    lemma_view_events_unambiguous(
        v1,
        v2,
        Seq::<EventView>::empty(),
        Seq::<EventView>::empty(),
    );
}

/// The position of the first node named `name`, if any.
pub open spec fn first_named(cs: Seq<XmlNodeView>, name: Seq<char>) -> Option<int>
    decreases cs.len(),
{
    if cs.len() == 0 {
        None
    } else if cs[0].name == name {
        Some(0int)
    } else {
        match first_named(cs.drop_first(), name) {
            Some(i) => Some(i + 1),
            None => None,
        }
    }
}

/// A witness for `first_named`: the node at `i` carries the name and none
/// before it does.
pub proof fn lemma_first_named_is(cs: Seq<XmlNodeView>, name: Seq<char>, i: int)
    requires
        0 <= i < cs.len(),
        cs[i].name == name,
        forall|j: int| 0 <= j < i ==> (#[trigger] cs[j]).name != name,
    ensures
        first_named(cs, name) == Some(i),
    decreases cs.len(),
{
    if i == 0 {
    } else {
        assert(forall|j: int|
            0 <= j < cs.drop_first().len() ==> #[trigger] cs.drop_first()[j] == cs[j + 1]);
        lemma_first_named_is(cs.drop_first(), name, i - 1);
    }
}

/// When no node carries the name, there is no first one.
pub proof fn lemma_first_named_none(cs: Seq<XmlNodeView>, name: Seq<char>)
    requires
        forall|j: int| 0 <= j < cs.len() ==> (#[trigger] cs[j]).name != name,
    ensures
        first_named(cs, name) is None,
    decreases cs.len(),
{
    if cs.len() > 0 {
        assert(forall|j: int|
            0 <= j < cs.drop_first().len() ==> #[trigger] cs.drop_first()[j] == cs[j + 1]);
        lemma_first_named_none(cs.drop_first(), name);
    }
}

/// One step of `Seq::filter`: filtering past a pushed element keeps it
/// exactly when the predicate approves it.
pub proof fn lemma_filter_push<A>(s: Seq<A>, x: A, pred: spec_fn(A) -> bool)
    ensures
        s.push(x).filter(pred) == if pred(x) {
            s.filter(pred).push(x)
        } else {
            s.filter(pred)
        },
{
    reveal(Seq::filter);
    assert(s.push(x).drop_last() =~= s);
    assert(s.push(x).last() == x);
}

/// Index form of `nodes_view`.
pub proof fn lemma_nodes_view_index(s: Seq<XmlNode>)
    ensures
        nodes_view(s).len() == s.len(),
        forall|i: int| 0 <= i < s.len() ==> nodes_view(s)[i] == node_view(#[trigger] s[i]),
    decreases s.len(),
{
    if s.len() > 0 {
        lemma_nodes_view_index(s.drop_last());
        assert forall|i: int| 0 <= i < s.len() implies nodes_view(s)[i] == node_view(
            #[trigger] s[i],
        ) by {
            if i < s.len() - 1 {
                assert(s.drop_last()[i] == s[i]);
                assert(nodes_view(s)[i] == nodes_view(s.drop_last())[i]);
            }
        }
    }
}

// ---------------------------------------------------------------------------
// Byte-level string helpers.
// ---------------------------------------------------------------------------

/// Are two byte runs equal?
fn bytes_eq(a: &[u8], b: &[u8]) -> (r: bool)
    ensures
        r == (a@ == b@),
{
    if a.len() != b.len() {
        return false;
    }
    let n = a.len();
    let mut i: usize = 0;
    while i < n
        invariant
            i <= n,
            n == a@.len() == b@.len(),
            forall|j: int| 0 <= j < i ==> a@[j] == b@[j],
        decreases n - i,
    {
        if a[i] != b[i] {
            return false;
        }
        i = i + 1;
    }
    proof {
        assert(a@ =~= b@);
    }
    true
}

/// Are two strings equal?  Their UTF-8 encodings decide: encoding is
/// injective, so equal bytes mean equal character runs.
pub fn str_eq(a: &str, b: &str) -> (r: bool)
    ensures
        r == (a@ == b@),
{
    let r = bytes_eq(a.as_bytes(), b.as_bytes());
    proof {
        encode_utf8_decode_utf8(a@);
        encode_utf8_decode_utf8(b@);
    }
    r
}

/// An owned copy of an event, equal in value.
fn clone_event(e: &XmlEvent) -> (r: XmlEvent)
    ensures
        r@ == e@,
{
    match e {
        XmlEvent::StartDocument => XmlEvent::StartDocument,
        XmlEvent::EndDocument => XmlEvent::EndDocument,
        XmlEvent::StartElement { name, attributes } => {
            let mut attrs: Vec<(String, String)> = Vec::new();
            let n = attributes.len();
            let mut i: usize = 0;
            while i < n
                invariant
                    i <= n,
                    n == attributes@.len(),
                    attrs@.len() == i,
                    forall|j: int|
                        0 <= j < i ==> (#[trigger] attrs@[j]).0@ == attributes@[j].0@ && attrs@[
                            j
                        ].1@ == attributes@[j].1@,
                decreases n - i,
            {
                let pair = (attributes[i].0.clone(), attributes[i].1.clone());
                attrs.push(pair);
                i = i + 1;
            }
            let r = XmlEvent::StartElement { name: name.clone(), attributes: attrs };
            proof {
                assert(attrs@.map_values(|p: (String, String)| (p.0@, p.1@)) =~= attributes@
                    .map_values(|p: (String, String)| (p.0@, p.1@)));
            }
            r
        },
        XmlEvent::EndElement { name } => XmlEvent::EndElement { name: name.clone() },
        XmlEvent::Characters(s) => XmlEvent::Characters(s.clone()),
        XmlEvent::Whitespace(s) => XmlEvent::Whitespace(s.clone()),
        XmlEvent::Unsupported => XmlEvent::Unsupported,
    }
}

// ---------------------------------------------------------------------------
// The tree builder.
// ---------------------------------------------------------------------------

/// How deep element nesting may go before the builder refuses the document.
pub const MAX_DEPTH: u32 = 64;

/// How many lexical events one document may produce.
pub const MAX_EVENTS: usize = 65536;

impl XmlNode {
    /// Build one node from the event run, starting at `from`.  On success the
    /// consumed events are exactly the run the returned node stands for,
    /// `next` points past them, and the nesting stayed within `depth`.  The
    /// fold is also complete: whenever some well-formed node's run within the
    /// nesting bound opens the events at `from`, it succeeds.
    #[verifier::loop_isolation(false)]
    #[verifier::rlimit(60)]
    pub fn try_from_events(events: &Vec<XmlEvent>, from: usize, depth: u32) -> (r: Result<
        (XmlNode, usize),
        XmlError,
    >)
        ensures
            match r {
                Ok((node, next)) => {
                    &&& from < next <= events@.len()
                    &&& node_wf(node)
                    &&& events_view(events@.subrange(from as int, next as int)) == view_events(
                        node_view(node),
                    )
                    &&& view_depth(node_view(node)) <= depth
                },
                Err(_) => true,
            },
            node_run_opens(events_view(events@), from as int, depth as int) ==> r is Ok,
        decreases events@.len() - from, depth,
    {
        let ghost evs = events_view(events@);
        let ghost hyp = node_run_opens(evs, from as int, depth as int);
        let ghost mut gv: XmlNodeView = arbitrary();
        let ghost mut grest: Seq<EventView> = arbitrary();
        proof {
            if hyp {
                gv = choose_opening(evs, from as int, depth as int);
                grest = evs.subrange(from + view_events(gv).len(), evs.len() as int);
                lemma_view_events_shape(gv);
                assert(evs.subrange(from as int, evs.len() as int) =~= view_events(gv) + grest);
            }
        }
        if depth == 0 {
            proof {
                if hyp {
                    lemma_view_depth_at_least_one(gv);
                }
            }
            return Err(XmlError::TooDeep);
        }
        if from >= events.len() {
            proof {
                if hyp {
                    assert(evs.subrange(from as int, evs.len() as int).len() >= 2);
                }
            }
            return Err(XmlError::UnexpectedEnd);
        }
        let start = clone_event(&events[from]);
        proof {
            if hyp {
                assert(evs[from as int] == (view_events(gv) + grest)[0]);
                assert(evs[from as int] == (EventView::StartElement {
                    name: gv.name,
                    attributes: gv.attributes,
                }));
                assert(start@ == evs[from as int]);
            }
        }
        let start_name = match &start {
            XmlEvent::StartElement { name, .. } => name.clone(),
            _ => {
                proof {
                    if hyp {
                        assert(start@ is StartElement);
                        assert(false);
                    }
                }
                return Err(XmlError::UnexpectedEvent);
            },
        };
        let ghost sname = start_name@;
        let ghost mut text_done: bool = false;
        let mut characters: Option<String> = None;
        let mut children: Vec<XmlNode> = Vec::new();
        let mut cursor: usize = from + 1;
        proof {
            assert(nodes_view(children@) =~= Seq::<XmlNodeView>::empty());
            if hyp {
                assert(sname == gv.name);
                assert(gv.children.skip(0) =~= gv.children);
                assert(gv.children.take(0) =~= Seq::<XmlNodeView>::empty());
                assert(evs.subrange(from as int + 1, evs.len() as int) =~= (view_events(gv)
                    + grest).drop_first());
                assert(evs.subrange(from as int + 1, evs.len() as int) =~= text_events(
                    gv.characters,
                ) + views_events(gv.children.skip(0)) + seq![
                    EventView::EndElement { name: gv.name },
                ] + grest);
            }
        }
        loop
            invariant
                from < cursor <= events@.len(),
                start@ == events@[from as int]@,
                start@ is StartElement,
                sname == event_name(start@),
                start_name@ == sname,
                1 <= depth,
                characters is Some ==> children@.len() == 0,
                forall|i: int| 0 <= i < children@.len() ==> node_wf(#[trigger] children@[i]),
                views_depth(nodes_view(children@)) <= depth - 1,
                events_view(events@.subrange(from as int + 1, cursor as int)) == text_events(
                    match characters {
                        Some(s) => Some(s@),
                        None => None,
                    },
                ) + views_events(nodes_view(children@)),
                hyp ==> {
                    &&& view_wf(gv)
                    &&& sname == gv.name
                    &&& children@.len() <= gv.children.len()
                    &&& nodes_view(children@) == gv.children.take(children@.len() as int)
                    &&& (text_done ==> (match characters {
                        Some(s) => gv.characters == Some(s@),
                        None => gv.characters is None,
                    }))
                    &&& (!text_done ==> characters is None && children@.len() == 0)
                    &&& evs.subrange(cursor as int, evs.len() as int) == (if text_done {
                        Seq::<EventView>::empty()
                    } else {
                        text_events(gv.characters)
                    }) + views_events(gv.children.skip(children@.len() as int)) + seq![
                        EventView::EndElement { name: gv.name },
                    ] + grest
                },
            decreases events@.len() - cursor,
        {
            if cursor >= events.len() {
                proof {
                    if hyp {
                        assert(evs.subrange(cursor as int, evs.len() as int).len() == 0);
                        assert(false);
                    }
                }
                return Err(XmlError::UnexpectedEnd);
            }
            let ghost prefix = events@.subrange(from as int + 1, cursor as int);
            let ghost suffix = evs.subrange(cursor as int, evs.len() as int);
            let ghost k = children@.len() as int;
            proof {
                if hyp {
                    assert(suffix[0] == evs[cursor as int]);
                }
            }
            match &events[cursor] {
                XmlEvent::Characters(s) => {
                    proof {
                        if hyp {
                            assert(evs[cursor as int] == EventView::Characters(s@));
                        }
                    }
                    if characters.is_some() || children.len() > 0 {
                        proof {
                            if hyp {
                                if characters.is_some() {
                                    assert(text_done && gv.characters is Some);
                                    assert(gv.children.len() == 0);
                                    assert(gv.children.skip(k) =~= Seq::<XmlNodeView>::empty());
                                    assert(suffix[0] == (EventView::EndElement { name: gv.name }));
                                } else {
                                    assert(text_done && gv.characters is None);
                                    if k < gv.children.len() {
                                        lemma_views_events_front(gv.children.skip(k));
                                        lemma_view_events_shape(gv.children.skip(k)[0]);
                                        assert(suffix[0] == view_events(gv.children.skip(k)[0])[0]);
                                    } else {
                                        assert(gv.children.skip(k) =~= Seq::<XmlNodeView>::empty());
                                        assert(suffix[0] == (EventView::EndElement {
                                            name: gv.name,
                                        }));
                                    }
                                }
                                assert(false);
                            }
                        }
                        return Err(XmlError::TextBesideChildren);
                    }
                    proof {
                        if hyp {
                            if text_done {
                                assert(gv.characters is None);
                                if k < gv.children.len() {
                                    lemma_views_events_front(gv.children.skip(k));
                                    lemma_view_events_shape(gv.children.skip(k)[0]);
                                    assert(suffix[0] == view_events(gv.children.skip(k)[0])[0]);
                                } else {
                                    assert(gv.children.skip(k) =~= Seq::<XmlNodeView>::empty());
                                    assert(suffix[0] == (EventView::EndElement { name: gv.name }));
                                }
                                assert(false);
                            }
                            match gv.characters {
                                Some(t) => {
                                    assert(suffix[0] == EventView::Characters(t));
                                    assert(gv.characters == Some(s@));
                                },
                                None => {
                                    if k < gv.children.len() {
                                        lemma_views_events_front(gv.children.skip(k));
                                        lemma_view_events_shape(gv.children.skip(k)[0]);
                                        assert(suffix[0] == view_events(gv.children.skip(k)[0])[0]);
                                    } else {
                                        assert(gv.children.skip(k) =~= Seq::<XmlNodeView>::empty());
                                        assert(suffix[0] == (EventView::EndElement {
                                            name: gv.name,
                                        }));
                                    }
                                    assert(false);
                                },
                            }
                        }
                    }
                    characters = Some(s.clone());
                    cursor = cursor + 1;
                    proof {
                        text_done = true;
                        assert(events@.subrange(from as int + 1, cursor as int) =~= prefix.push(
                            events@[cursor as int - 1],
                        ));
                        assert(events_view(prefix.push(events@[cursor as int - 1])) =~= events_view(
                            prefix,
                        ).push(events@[cursor as int - 1]@));
                        assert(events_view(events@.subrange(from as int + 1, cursor as int))
                            =~= text_events(Some(s@)) + views_events(nodes_view(children@)));
                        if hyp {
                            assert(evs.subrange(cursor as int, evs.len() as int) =~= suffix
                                .drop_first());
                            assert(evs.subrange(cursor as int, evs.len() as int)
                                =~= Seq::<EventView>::empty() + views_events(
                                gv.children.skip(children@.len() as int),
                            ) + seq![EventView::EndElement { name: gv.name }] + grest);
                        }
                    }
                },
                XmlEvent::StartElement { .. } => {
                    proof {
                        if hyp {
                            assert(evs[cursor as int] is StartElement);
                        }
                    }
                    if characters.is_some() {
                        proof {
                            if hyp {
                                assert(text_done && gv.characters is Some);
                                assert(gv.children.len() == 0);
                                assert(gv.children.skip(k) =~= Seq::<XmlNodeView>::empty());
                                assert(suffix[0] == (EventView::EndElement { name: gv.name }));
                                assert(false);
                            }
                        }
                        return Err(XmlError::TextBesideChildren);
                    }
                    proof {
                        if hyp {
                            if !text_done {
                                match gv.characters {
                                    Some(t) => {
                                        assert(suffix[0] == EventView::Characters(t));
                                        assert(false);
                                    },
                                    None => {},
                                }
                            }
                            assert((if text_done {
                                Seq::<EventView>::empty()
                            } else {
                                text_events(gv.characters)
                            }) =~= Seq::<EventView>::empty());
                            if k >= gv.children.len() {
                                assert(gv.children.skip(k) =~= Seq::<XmlNodeView>::empty());
                                assert(suffix[0] == (EventView::EndElement { name: gv.name }));
                                assert(false);
                            }
                            lemma_views_events_front(gv.children.skip(k));
                            assert(gv.children.skip(k)[0] == gv.children[k]);
                            assert(gv.children.skip(k).drop_first() =~= gv.children.skip(k + 1));
                            lemma_views_depth_index(gv.children, k);
                            lemma_view_events_shape(gv.children[k]);
                            assert(suffix =~= view_events(gv.children[k]) + (views_events(
                                gv.children.skip(k + 1),
                            ) + seq![EventView::EndElement { name: gv.name }] + grest));
                            assert(evs.subrange(
                                cursor as int,
                                cursor as int + view_events(gv.children[k]).len(),
                            ) =~= view_events(gv.children[k]));
                            assert(view_wf(gv.children[k]));
                            assert(view_depth(gv.children[k]) <= depth - 1);
                            assert(node_run_opens(evs, cursor as int, depth as int - 1));
                        }
                    }
                    let (child, next) = match Self::try_from_events(events, cursor, depth - 1) {
                        Ok(p) => p,
                        Err(e) => {
                            proof {
                                if hyp {
                                    assert(false);
                                }
                            }
                            return Err(e);
                        },
                    };
                    let ghost children_before = children@;
                    let ghost suffix_next = evs.subrange(next as int, evs.len() as int);
                    proof {
                        if hyp {
                            assert(evs.subrange(cursor as int, next as int) =~= events_view(
                                events@.subrange(cursor as int, next as int),
                            ));
                            assert(suffix =~= evs.subrange(cursor as int, next as int)
                                + suffix_next);
                            lemma_view_events_unambiguous(
                                node_view(child),
                                gv.children[k],
                                suffix_next,
                                views_events(gv.children.skip(k + 1)) + seq![
                                    EventView::EndElement { name: gv.name },
                                ] + grest,
                            );
                        }
                    }
                    children.push(child);
                    proof {
                        text_done = true;
                        assert(children@.drop_last() =~= children_before);
                        assert(nodes_view(children@).drop_last() =~= nodes_view(children_before));
                        assert(views_events(nodes_view(children@)) == views_events(
                            nodes_view(children_before),
                        ) + view_events(node_view(child)));
                        assert(views_depth(nodes_view(children@)) <= depth - 1);
                        assert(events@.subrange(from as int + 1, next as int) =~= prefix + events@
                            .subrange(cursor as int, next as int));
                        assert(events_view(prefix + events@.subrange(cursor as int, next as int))
                            =~= events_view(prefix) + events_view(
                            events@.subrange(cursor as int, next as int),
                        ));
                        assert(events_view(events@.subrange(from as int + 1, next as int))
                            =~= text_events(None) + views_events(nodes_view(children@)));
                        if hyp {
                            assert(nodes_view(children@) =~= gv.children.take(k + 1));
                            assert(suffix_next =~= Seq::<EventView>::empty() + views_events(
                                gv.children.skip(k + 1),
                            ) + seq![EventView::EndElement { name: gv.name }] + grest);
                        }
                    }
                    cursor = next;
                },
                XmlEvent::EndElement { name } => {
                    proof {
                        if hyp {
                            if !text_done {
                                match gv.characters {
                                    Some(t) => {
                                        assert(suffix[0] == EventView::Characters(t));
                                        assert(false);
                                    },
                                    None => {},
                                }
                            }
                            assert((if text_done {
                                Seq::<EventView>::empty()
                            } else {
                                text_events(gv.characters)
                            }) =~= Seq::<EventView>::empty());
                            if k < gv.children.len() {
                                lemma_views_events_front(gv.children.skip(k));
                                lemma_view_events_shape(gv.children.skip(k)[0]);
                                assert(suffix[0] == view_events(gv.children.skip(k)[0])[0]);
                                assert(false);
                            }
                            assert(gv.children.skip(k) =~= Seq::<XmlNodeView>::empty());
                            assert(suffix[0] == (EventView::EndElement { name: gv.name }));
                            assert(name@ == gv.name);
                        }
                    }
                    if !str_eq(name.as_str(), start_name.as_str()) {
                        proof {
                            if hyp {
                                assert(false);
                            }
                        }
                        return Err(XmlError::MismatchedEnd);
                    }
                    proof {
                        assert(name@ == sname);
                        assert(events@[cursor as int]@ == EventView::EndElement { name: sname });
                    }
                    let node = XmlNode { start_element: start, characters, children };
                    let next = cursor + 1;
                    proof {
                        let nv = node_view(node);
                        assert(nv.name == sname);
                        assert(nv.children == nodes_view(node.children@));
                        assert(view_depth(nv) <= depth);
                        assert(events@.subrange(from as int, next as int) =~= seq![
                            events@[from as int],
                        ] + events@.subrange(from as int + 1, cursor as int) + seq![
                            events@[cursor as int],
                        ]);
                        assert(events_view(events@.subrange(from as int, next as int))
                            =~= seq![events@[from as int]@] + events_view(
                            events@.subrange(from as int + 1, cursor as int),
                        ) + seq![events@[cursor as int]@]);
                        assert(events@[cursor as int]@ == EventView::EndElement { name: nv.name });
                        assert(events@[from as int]@ == EventView::StartElement {
                            name: nv.name,
                            attributes: nv.attributes,
                        });
                        assert(events_view(events@.subrange(from as int, next as int))
                            =~= view_events(nv));
                    }
                    return Ok((node, next));
                },
                _ => {
                    proof {
                        if hyp {
                            if !text_done {
                                match gv.characters {
                                    Some(t) => {
                                        assert(suffix[0] == EventView::Characters(t));
                                    },
                                    None => {},
                                }
                            }
                            if text_done || gv.characters is None {
                                assert((if text_done {
                                    Seq::<EventView>::empty()
                                } else {
                                    text_events(gv.characters)
                                }) =~= Seq::<EventView>::empty());
                                if k < gv.children.len() {
                                    lemma_views_events_front(gv.children.skip(k));
                                    lemma_view_events_shape(gv.children.skip(k)[0]);
                                    assert(suffix[0] == view_events(gv.children.skip(k)[0])[0]);
                                } else {
                                    assert(gv.children.skip(k) =~= Seq::<XmlNodeView>::empty());
                                    assert(suffix[0] == (EventView::EndElement { name: gv.name }));
                                }
                            }
                            assert(!(evs[cursor as int] is Characters) && !(evs[cursor as int]
                                is StartElement) && !(evs[cursor as int] is EndElement));
                            assert(false);
                        }
                    }
                    return Err(XmlError::UnexpectedEvent);
                },
            }
        }
    }

    /// The element name of this node.
    pub fn name(&self) -> (r: String)
        requires
            self.start_element is StartElement,
        ensures
            r@ == node_view(*self).name,
    {
        match &self.start_element {
            XmlEvent::StartElement { name, .. } => name.clone(),
            _ => unreached(),
        }
    }

    /// The first child named `name`, if any.
    pub fn find_one<'a>(&'a self, name: &str) -> (r: Option<&'a XmlNode>)
        requires
            node_wf(*self),
        ensures
            match r {
                Some(c) => exists|i: int|
                    {
                        &&& 0 <= i < self.children@.len()
                        &&& *c == self.children@[i]
                        &&& node_view(#[trigger] self.children@[i]).name == name@
                        &&& forall|j: int|
                            0 <= j < i ==> node_view(#[trigger] self.children@[j]).name != name@
                    },
                None => forall|i: int|
                    0 <= i < self.children@.len() ==> node_view(
                        #[trigger] self.children@[i],
                    ).name != name@,
            },
    {
        let n = self.children.len();
        let mut i: usize = 0;
        while i < n
            invariant
                i <= n,
                n == self.children@.len(),
                node_wf(*self),
                forall|j: int|
                    0 <= j < i ==> node_view(#[trigger] self.children@[j]).name != name@,
            decreases n - i,
        {
            proof {
                assert(node_wf(self.children@[i as int]));
            }
            let child = &self.children[i];
            let child_name = child.name();
            if str_eq(child_name.as_str(), name) {
                return Some(child);
            }
            i = i + 1;
        }
        None
    }

    /// All children named `name`, in document order.
    #[verifier::loop_isolation(false)]
    pub fn find_all<'a>(&'a self, name: &str) -> (r: Vec<&'a XmlNode>)
        requires
            node_wf(*self),
        ensures
            r@.map_values(|c: &XmlNode| node_view(*c)) == nodes_view(self.children@).filter(
                |v: XmlNodeView| v.name == name@,
            ),
    {
        let ghost pred = |v: XmlNodeView| v.name == name@;
        let mut r: Vec<&XmlNode> = Vec::new();
        let n = self.children.len();
        let mut i: usize = 0;
        proof {
            lemma_nodes_view_index(self.children@);
        }
        while i < n
            invariant
                i <= n,
                n == self.children@.len(),
                node_wf(*self),
                pred == (|v: XmlNodeView| v.name == name@),
                nodes_view(self.children@).len() == n,
                forall|j: int|
                    0 <= j < n ==> nodes_view(self.children@)[j] == node_view(
                        #[trigger] self.children@[j],
                    ),
                r@.map_values(|c: &XmlNode| node_view(*c)) == nodes_view(self.children@).take(
                    i as int,
                ).filter(pred),
            decreases n - i,
        {
            let ghost views = nodes_view(self.children@);
            let ghost r_views_before = r@.map_values(|c: &XmlNode| node_view(*c));
            proof {
                assert(node_wf(self.children@[i as int]));
            }
            let child = &self.children[i];
            let child_name = child.name();
            if str_eq(child_name.as_str(), name) {
                r.push(child);
                proof {
                    assert(r@.drop_last() =~= r@.subrange(0, r@.len() - 1));
                    assert(r@.map_values(|c: &XmlNode| node_view(*c)) =~= r_views_before.push(
                        node_view(*child),
                    ));
                }
            }
            i = i + 1;
            proof {
                assert(views.take(i as int) =~= views.take(i as int - 1).push(
                    views[i as int - 1],
                ));
                assert(views[i as int - 1] == node_view(self.children@[i as int - 1]));
                lemma_filter_push(views.take(i as int - 1), views[i as int - 1], pred);
                assert(r@.map_values(|c: &XmlNode| node_view(*c)) =~= views.take(i as int).filter(
                    pred,
                ));
            }
        }
        proof {
            assert(nodes_view(self.children@).take(n as int) =~= nodes_view(self.children@));
        }
        r
    }

    /// Keep only the children the predicate approves, in order; the node's
    /// own tag and text stay as they were.  `d` below records, child by
    /// child, what the predicate answered.
    pub fn filter_children_in_place<P: Fn(&XmlNode) -> bool>(&mut self, predicate: P)
        requires
            forall|c: &XmlNode| call_requires(predicate, (c,)),
        ensures
            final(self).start_element == old(self).start_element,
            final(self).characters == old(self).characters,
            exists|d: Seq<bool>|
                {
                    &&& d.len() == old(self).children@.len()
                    &&& final(self).children@ == mask_filter(old(self).children@, d)
                    &&& forall|i: int|
                        0 <= i < d.len() ==> call_ensures(
                            predicate,
                            (&old(self).children@[i],),
                            d[i],
                        )
                },
    {
        let ghost orig = self.children@;
        let orig_len = self.children.len();
        let mut kept: Vec<XmlNode> = Vec::new();
        let ghost mut d = Seq::<bool>::empty();
        let mut i: usize = 0;
        while self.children.len() != 0
            invariant
                forall|c: &XmlNode| call_requires(predicate, (c,)),
                orig == old(self).children@,
                orig_len == orig.len(),
                self.start_element == old(self).start_element,
                self.characters == old(self).characters,
                self.children@ == orig.skip(i as int),
                0 <= i <= orig.len(),
                d.len() == i,
                kept@ == mask_filter(orig.take(i as int), d),
                forall|j: int| 0 <= j < i ==> call_ensures(predicate, (&orig[j],), d[j]),
            decreases orig.len() - i,
        {
            let ghost d_before = d;
            let ghost kept_before = kept@;
            let c = self.children.remove(0);
            proof {
                assert(orig.skip(i as int)[0] == orig[i as int]);
            }
            let keep = predicate(&c);
            proof {
                d = d.push(keep);
            }
            if keep {
                kept.push(c);
            }
            i = i + 1;
            proof {
                assert(self.children@ =~= orig.skip(i as int));
                assert(orig.take(i as int).drop_last() =~= orig.take(i as int - 1));
                assert(orig.take(i as int).last() == orig[i as int - 1]);
                assert(d.drop_last() =~= d_before);
                assert(kept@ =~= mask_filter(orig.take(i as int), d));
            }
        }
        proof {
            assert(i == orig.len());
            assert(orig.take(orig.len() as int) =~= orig);
        }
        self.children = kept;
        proof {
            let dd = d;
            assert(dd.len() == old(self).children@.len() && self.children@ == mask_filter(
                old(self).children@,
                dd,
            ) && forall|j: int|
                0 <= j < dd.len() ==> call_ensures(predicate, (&old(self).children@[j],), dd[j]));
        }
    }
}

// ---------------------------------------------------------------------------
// Encoding a tree back to XML text.
// ---------------------------------------------------------------------------

/// The text of a run of attributes: one ` name="value"` each.
pub open spec fn attrs_text(attrs: Seq<(Seq<char>, Seq<char>)>) -> Seq<char>
    decreases attrs.len(),
{
    if attrs.len() == 0 {
        Seq::empty()
    } else {
        attrs_text(attrs.drop_last()) + seq![' '] + attrs.last().0 + seq!['=', '"']
            + attrs.last().1 + seq!['"']
    }
}

/// The text an optional text content contributes.
pub open spec fn text_text(c: Option<Seq<char>>) -> Seq<char> {
    match c {
        Some(s) => s,
        None => Seq::empty(),
    }
}

/// The XML text a node stands for: a self-closing tag when it has neither
/// text nor children, else its content between a start and an end tag.
/// Text and attribute values are emitted as they stand, unescaped.
pub open spec fn view_xml_text(v: XmlNodeView) -> Seq<char>
    decreases v,
{
    if v.characters is None && v.children.len() == 0 {
        seq!['<'] + v.name + attrs_text(v.attributes) + seq!['/', '>']
    } else {
        seq!['<'] + v.name + attrs_text(v.attributes) + seq!['>'] + text_text(v.characters)
            + views_xml_text(v.children) + seq!['<', '/'] + v.name + seq!['>']
    }
}

/// The XML text of a run of nodes, in order.
pub open spec fn views_xml_text(cs: Seq<XmlNodeView>) -> Seq<char>
    decreases cs,
{
    if cs.len() == 0 {
        Seq::empty()
    } else {
        views_xml_text(cs.drop_last()) + view_xml_text(cs.last())
    }
}

impl XmlNode {
    /// Encode the node back to XML text.
    #[verifier::loop_isolation(false)]
    pub fn to_xml_string(&self) -> (r: String)
        requires
            node_wf(*self),
        ensures
            r@ == view_xml_text(node_view(*self)),
        decreases *self,
    {
        proof {
            reveal_strlit("<");
            reveal_strlit(" ");
            reveal_strlit("=\"");
            reveal_strlit("\"");
            reveal_strlit("/>");
            reveal_strlit(">");
            reveal_strlit("</");
            lemma_nodes_view_index(self.children@);
        }
        let ghost nv = node_view(*self);
        let mut out = String::new();
        out.append("<");
        let name_ref: &String = match &self.start_element {
            XmlEvent::StartElement { name, .. } => name,
            _ => unreached(),
        };
        out.append(name_ref.as_str());
        proof {
            assert(out@ =~= seq!['<'] + nv.name);
        }
        let attrs: &Vec<(String, String)> = match &self.start_element {
            XmlEvent::StartElement { attributes, .. } => attributes,
            _ => unreached(),
        };
        let ghost av = nv.attributes;
        let an = attrs.len();
        let mut i: usize = 0;
        proof {
            assert(av.take(0) =~= Seq::<(Seq<char>, Seq<char>)>::empty());
        }
        while i < an
            invariant
                i <= an,
                out@ == seq!['<'] + nv.name + attrs_text(av.take(i as int)),
            decreases an - i,
        {
            out.append(" ");
            out.append(attrs[i].0.as_str());
            out.append("=\"");
            out.append(attrs[i].1.as_str());
            out.append("\"");
            i = i + 1;
            proof {
                assert(av.take(i as int).drop_last() =~= av.take(i as int - 1));
                assert(av.take(i as int).last() == av[i as int - 1]);
                assert(av[i as int - 1] == (attrs@[i as int - 1].0@, attrs@[i as int - 1].1@));
                assert(out@ =~= seq!['<'] + nv.name + attrs_text(av.take(i as int)));
            }
        }
        proof {
            assert(av.take(an as int) =~= av);
        }
        let has_text = match &self.characters {
            Some(_) => true,
            None => false,
        };
        if !has_text && self.children.len() == 0 {
            out.append("/>");
            proof {
                assert(nv.characters is None && nv.children.len() == 0);
                assert(out@ =~= view_xml_text(nv));
            }
            return out;
        }
        out.append(">");
        let ghost header = seq!['<'] + nv.name + attrs_text(av) + seq!['>'];
        match &self.characters {
            Some(s) => {
                out.append(s.as_str());
            },
            None => {},
        }
        proof {
            assert(out@ =~= header + text_text(nv.characters));
            assert(nv.children.take(0) =~= Seq::<XmlNodeView>::empty());
        }
        let cn = self.children.len();
        let mut j: usize = 0;
        while j < cn
            invariant
                j <= cn,
                out@ == header + text_text(nv.characters) + views_xml_text(
                    nv.children.take(j as int),
                ),
            decreases cn - j,
        {
            proof {
                assert(node_wf(self.children@[j as int]));
            }
            let child_text = self.children[j].to_xml_string();
            out.append(child_text.as_str());
            j = j + 1;
            proof {
                assert(nv.children.take(j as int).drop_last() =~= nv.children.take(j as int - 1));
                assert(nv.children.take(j as int).last() == node_view(
                    self.children@[j as int - 1],
                ));
                assert(out@ =~= header + text_text(nv.characters) + views_xml_text(
                    nv.children.take(j as int),
                ));
            }
        }
        proof {
            assert(nv.children.take(cn as int) =~= nv.children);
        }
        out.append("</");
        out.append(name_ref.as_str());
        out.append(">");
        proof {
            assert(!(nv.characters is None && nv.children.len() == 0));
            assert(out@ =~= view_xml_text(nv));
        }
        out
    }
}

/// The children kept by a run of answers `d`: the ones whose answer is true,
/// in order.
pub open spec fn mask_filter(s: Seq<XmlNode>, d: Seq<bool>) -> Seq<XmlNode>
    decreases s.len(),
{
    if s.len() == 0 {
        Seq::empty()
    } else {
        let rest = mask_filter(s.drop_last(), d.drop_last());
        if d.len() == s.len() && d.last() {
            rest.push(s.last())
        } else {
            rest
        }
    }
}

/// When the answers are pointwise decided by a predicate on the node views,
/// the mask keeps exactly the view-level filter.
pub proof fn lemma_mask_filter_determined(
    s: Seq<XmlNode>,
    d: Seq<bool>,
    pred: spec_fn(XmlNodeView) -> bool,
)
    requires
        d.len() == s.len(),
        forall|i: int| 0 <= i < s.len() ==> d[i] == pred(node_view(#[trigger] s[i])),
    ensures
        nodes_view(mask_filter(s, d)) == nodes_view(s).filter(pred),
    decreases s.len(),
{
    if s.len() > 0 {
        assert(forall|i: int| 0 <= i < s.drop_last().len() ==> #[trigger] s.drop_last()[i] == s[i]);
        lemma_mask_filter_determined(s.drop_last(), d.drop_last(), pred);
        assert(nodes_view(s).drop_last() =~= nodes_view(s.drop_last()));
        assert(nodes_view(s).last() == node_view(s.last()));
        assert(d.last() == pred(node_view(s.last())));
        let m = mask_filter(s, d);
        let rest = mask_filter(s.drop_last(), d.drop_last());
        assert(nodes_view(s) =~= nodes_view(s.drop_last()).push(node_view(s.last())));
        lemma_filter_push(nodes_view(s.drop_last()), node_view(s.last()), pred);
        if d.last() {
            assert(m == rest.push(s.last()));
            assert(rest.push(s.last()).drop_last() =~= rest);
            assert(nodes_view(m) == nodes_view(rest).push(node_view(s.last())));
        } else {
            assert(m == rest);
        }
    }
}

/// A kept child was one of the children.
pub proof fn lemma_mask_filter_sub(s: Seq<XmlNode>, d: Seq<bool>, i: int)
    requires
        0 <= i < mask_filter(s, d).len(),
    ensures
        exists|j: int| 0 <= j < s.len() && mask_filter(s, d)[i] == #[trigger] s[j],
    decreases s.len(),
{
    let m = mask_filter(s, d);
    let prev = mask_filter(s.drop_last(), d.drop_last());
    if d.len() == s.len() && s.len() > 0 && d.last() && i >= prev.len() {
        assert(m == prev.push(s.last()));
        assert(m[i] == s[s.len() - 1]);
    } else {
        assert(m[i] == prev[i]);
        lemma_mask_filter_sub(s.drop_last(), d.drop_last(), i);
        let j = choose|j: int| 0 <= j < s.drop_last().len() && prev[i] == #[trigger] s.drop_last()[j];
        assert(s.drop_last()[j] == s[j]);
        assert(m[i] == s[j]);
    }
}

// ---------------------------------------------------------------------------
// Reading a document from bytes: the streaming reader of the `xml` crate is
// driven to its end, whitespace is dropped, and the events are folded into a
// tree.
// ---------------------------------------------------------------------------

/// Holds the streaming pull parser of the `xml` crate.  Verus refuses a
/// declaration of `xml::reader::EventReader<R>` itself (its `Read` bound on
/// `R` is a trait Verus does not know), so the reader is held opaquely here.
#[verifier::external_body]
pub struct DocReader<'a> {
    inner: xml::reader::EventReader<&'a [u8]>,
}

/// The bytes a held reader was made over.
pub uninterp spec fn reader_bytes(r: DocReader) -> Seq<u8>;

/// How many events a held reader has handed out so far.
pub uninterp spec fn reader_drawn(r: DocReader) -> int;

/// What the reader answers on these bytes at its `i`-th draw: the event, or
/// nothing where it reports an error.  A fresh reader over a byte slice, with
/// the default configuration, holds no other state, so the answer is a
/// function of the bytes and the draw position alone (after the document's
/// end it repeats the end event; after an error, the error).
pub uninterp spec fn lex_event(bytes: Seq<u8>, i: int) -> Option<EventView>;

/// Relies on xml::reader::EventReader::new: makes a pull reader over the
/// bytes, which has handed out nothing yet.
#[verifier::external_body]
fn make_reader<'a>(bytes: &'a [u8]) -> (r: DocReader<'a>)
    ensures
        reader_bytes(r) == bytes@,
        reader_drawn(r) == 0,
{
    DocReader { inner: xml::reader::EventReader::new(bytes) }
}

/// Relies on xml::reader::EventReader::next: hands out the reader's next
/// lexical event, or its own error on malformed bytes — deterministically,
/// the answer named by `lex_event` over the reader's bytes and position.
#[verifier::external_body]
fn next_event(reader: &mut DocReader<'_>) -> (r: Result<XmlEvent, XmlError>)
    ensures
        reader_bytes(*final(reader)) == reader_bytes(*old(reader)),
        reader_drawn(*final(reader)) == reader_drawn(*old(reader)) + 1,
        match r {
            Ok(e) => lex_event(reader_bytes(*old(reader)), reader_drawn(*old(reader))) == Some(
                e@,
            ),
            Err(e) => lex_event(reader_bytes(*old(reader)), reader_drawn(*old(reader))) is None
                && e == XmlError::ReadError,
        },
{
    match reader.inner.next() {
        Err(_) => Err(XmlError::ReadError),
        Ok(RawXmlEvent::StartDocument { .. }) => Ok(XmlEvent::StartDocument),
        Ok(RawXmlEvent::EndDocument) => Ok(XmlEvent::EndDocument),
        Ok(RawXmlEvent::StartElement { name, attributes, .. }) => Ok(XmlEvent::StartElement {
            name: name.local_name,
            attributes: attributes.into_iter().map(|a| (a.name.local_name, a.value)).collect(),
        }),
        Ok(RawXmlEvent::EndElement { name }) => Ok(XmlEvent::EndElement { name: name.local_name }),
        Ok(RawXmlEvent::Characters(s)) => Ok(XmlEvent::Characters(s)),
        Ok(RawXmlEvent::Whitespace(s)) => Ok(XmlEvent::Whitespace(s)),
        Ok(_) => Ok(XmlEvent::Unsupported),
    }
}

/// The document run the reader yields on these bytes, drawn from position
/// `i` with `fuel` draws allowed: the events in order, whitespace dropped,
/// ending before the first end-of-document event; nothing where the reader
/// errs or the bound runs out.
pub open spec fn doc_events_from(bytes: Seq<u8>, i: int, fuel: int) -> Option<Seq<EventView>>
    decreases fuel,
{
    if fuel <= 0 {
        None
    } else {
        match lex_event(bytes, i) {
            None => None,
            Some(e) => match e {
                EventView::EndDocument => Some(Seq::empty()),
                EventView::Whitespace(s) => doc_events_from(bytes, i + 1, fuel - 1),
                _ => match doc_events_from(bytes, i + 1, fuel - 1) {
                    Some(rest) => Some(seq![e] + rest),
                    None => None,
                },
            },
        }
    }
}

/// The whole document run on these bytes, within the event bound.
pub open spec fn doc_events(bytes: Seq<u8>) -> Option<Seq<EventView>> {
    doc_events_from(bytes, 0, MAX_EVENTS as int)
}

/// The run is a document: the document marker, then exactly one well-formed
/// element subtree within the nesting bound.
pub open spec fn run_is_document(run: Seq<EventView>) -> bool {
    &&& run.len() >= 1
    &&& run[0] == EventView::StartDocument
    &&& exists|v: XmlNodeView|
        {
            &&& run.drop_first() == #[trigger] view_events(v)
            &&& view_wf(v)
            &&& view_depth(v) <= MAX_DEPTH as int
        }
}

/// The declaration line every encoded document opens with.
pub open spec fn doc_header() -> Seq<char> {
    "<?xml version=\"1.0\" encoding=\"UTF-8\"?>"@
}

impl XmlTree {
    /// Encode the whole document back to XML text: the declaration line, then
    /// the root element.
    pub fn to_xml_string(&self) -> (r: String)
        requires
            self.wf(),
        ensures
            r@ == doc_header() + view_xml_text(node_view(self.root_node)),
    {
        let mut out = String::from_str("<?xml version=\"1.0\" encoding=\"UTF-8\"?>");
        let body = self.root_node.to_xml_string();
        out.append(body.as_str());
        out
    }

    /// Read a whole document from bytes: drive the lexical reader to the end
    /// of the document, drop whitespace, demand a document-start marker and
    /// exactly one root element, and fold the events into a tree.  The call
    /// succeeds exactly when the bytes' document run (as the reader yields
    /// it, within the event bound) is a document marker plus one well-formed
    /// element within the nesting bound — and then the tree stands for
    /// exactly that run.
    #[verifier::loop_isolation(false)]
    #[verifier::rlimit(30)]
    pub fn try_from_bytes(bytes: &[u8]) -> (r: Result<XmlTree, XmlError>)
        ensures
            match r {
                Ok(t) => {
                    &&& t.wf()
                    &&& view_wf(node_view(t.root_node))
                    &&& view_depth(node_view(t.root_node)) <= MAX_DEPTH as int
                    &&& (doc_events(bytes@) matches Some(run) && {
                        &&& run.len() >= 1
                        &&& run[0] == EventView::StartDocument
                        &&& run.drop_first() == view_events(node_view(t.root_node))
                    })
                },
                Err(_) => !(doc_events(bytes@) matches Some(run) && run_is_document(run)),
            },
    {
        let mut reader = make_reader(bytes);
        let mut events: Vec<XmlEvent> = Vec::new();
        let mut count: usize = 0;
        let mut done: bool = false;
        proof {
            assert(events_view(events@) =~= Seq::<EventView>::empty());
        }
        while !done
            invariant
                count <= MAX_EVENTS,
                reader_bytes(reader) == bytes@,
                reader_drawn(reader) == count as int,
                !done ==> doc_events(bytes@) == (match doc_events_from(
                    bytes@,
                    count as int,
                    MAX_EVENTS - count,
                ) {
                    Some(rest) => Some(events_view(events@) + rest),
                    None => None::<Seq<EventView>>,
                }),
                done ==> doc_events(bytes@) == Some(events_view(events@)),
            decreases MAX_EVENTS - count, if done {
                0int
            } else {
                1int
            },
        {
            if count >= MAX_EVENTS {
                proof {
                    assert(doc_events_from(bytes@, count as int, MAX_EVENTS - count) is None);
                }
                return Err(XmlError::TooManyEvents);
            }
            let ghost events_before = events@;
            count = count + 1;
            match next_event(&mut reader) {
                Err(e) => {
                    proof {
                        assert(doc_events_from(bytes@, count as int - 1, MAX_EVENTS - count + 1)
                            is None);
                    }
                    return Err(e);
                },
                Ok(XmlEvent::Whitespace(_)) => {
                    proof {
                        assert(doc_events_from(bytes@, count as int - 1, MAX_EVENTS - count + 1)
                            == doc_events_from(bytes@, count as int, MAX_EVENTS - count));
                    }
                },
                Ok(XmlEvent::EndDocument) => {
                    proof {
                        assert(doc_events_from(bytes@, count as int - 1, MAX_EVENTS - count + 1)
                            == Some(Seq::<EventView>::empty()));
                        assert(events_view(events@) + Seq::<EventView>::empty() =~= events_view(
                            events@,
                        ));
                    }
                    done = true;
                },
                Ok(ev) => {
                    proof {
                        assert(!(ev@ is EndDocument) && !(ev@ is Whitespace));
                    }
                    let ghost evv = ev@;
                    events.push(ev);
                    proof {
                        assert(events_view(events@) =~= events_view(events_before).push(evv));
                        match doc_events_from(bytes@, count as int, MAX_EVENTS - count) {
                            Some(rest) => {
                                assert(events_view(events@) + rest =~= events_view(events_before)
                                    + (seq![evv] + rest));
                            },
                            None => {},
                        }
                    }
                },
            }
        }
        let ghost run = events_view(events@);
        if events.len() == 0 {
            proof {
                if run_is_document(run) {
                    assert(false);
                }
            }
            return Err(XmlError::EmptyDocument);
        }
        let starts_with_marker = match &events[0] {
            XmlEvent::StartDocument => true,
            _ => false,
        };
        if !starts_with_marker {
            proof {
                assert(run[0] == events@[0]@);
                if run_is_document(run) {
                    assert(false);
                }
            }
            return Err(XmlError::MissingStartDocument);
        }
        proof {
            assert(run.drop_first() =~= events_view(events@.subrange(1, events@.len() as int)));
            assert(events_view(events@).subrange(1, events@.len() as int) =~= events_view(
                events@.subrange(1, events@.len() as int),
            ));
        }
        let (root_node, next) = match XmlNode::try_from_events(&events, 1, MAX_DEPTH) {
            Ok(p) => p,
            Err(e) => {
                proof {
                    if run_is_document(run) {
                        let v = choose|v: XmlNodeView|
                            {
                                &&& run.drop_first() == #[trigger] view_events(v)
                                &&& view_wf(v)
                                &&& view_depth(v) <= MAX_DEPTH as int
                            };
                        assert(events_view(events@).subrange(1, 1 + view_events(v).len() as int)
                            =~= view_events(v));
                        assert(node_run_opens(events_view(events@), 1, MAX_DEPTH as int));
                        assert(false);
                    }
                }
                return Err(e);
            },
        };
        if next != events.len() {
            proof {
                if run_is_document(run) {
                    let v = choose|v: XmlNodeView|
                        {
                            &&& run.drop_first() == #[trigger] view_events(v)
                            &&& view_wf(v)
                            &&& view_depth(v) <= MAX_DEPTH as int
                        };
                    let consumed = events_view(events@.subrange(1, next as int));
                    let tail = events_view(events@.subrange(next as int, events@.len() as int));
                    assert(run.drop_first() =~= consumed + tail);
                    assert(view_events(v) + Seq::<EventView>::empty() =~= view_events(
                        node_view(root_node),
                    ) + tail);
                    lemma_view_events_unambiguous(
                        v,
                        node_view(root_node),
                        Seq::<EventView>::empty(),
                        tail,
                    );
                    assert(tail.len() == events@.len() - next);
                    assert(false);
                }
            }
            return Err(XmlError::TrailingEvents);
        }
        proof {
            lemma_node_wf_view_wf(root_node);
            assert(run.drop_first() =~= view_events(node_view(root_node)));
        }
        Ok(XmlTree { start_document: XmlEvent::StartDocument, root_node })
    }
}

} // verus!
