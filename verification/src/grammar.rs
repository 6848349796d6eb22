//! What a sequence of lexical events means: the data set it declares, or the first failure.
//!
//! The functions here follow a reader through the events. Each says what is made of the events
//! before the reader and in what state the reader is left.

use vstd::prelude::*;
use crate::coordinate::coordinate_of;
use crate::elements::{
    member_type_of, MemberType, MemberView, NodeView, OsmView, RelationView, WayView,
};
use crate::error::{Context, ErrorView, Position};
use crate::event::{AttributeView, EventView, EventsView, TokenView};
use crate::text::integer_of;

verus! {

//------------ Attributes ----------------------------------------------------

/// The value of the attribute `name`: that of the last one of that name, if there is any.
pub open spec fn attribute_value(attributes: Seq<AttributeView>, name: Seq<char>) -> Option<
    Seq<char>,
>
    decreases attributes.len(),
{
    if attributes.len() == 0 {
        None
    } else if attributes.last().name == name {
        Some(attributes.last().value)
    } else {
        attribute_value(attributes.drop_last(), name)
    }
}

/// The value of an attribute that has to be there.
pub open spec fn required(value: Option<Seq<char>>, at: Position, name: Seq<char>) -> Result<
    Seq<char>,
    ErrorView,
> {
    match value {
        Some(raw) => Ok(raw),
        None => Err(ErrorView::missing(at, name)),
    }
}

/// The identifier that a required attribute holds.
pub open spec fn required_integer(value: Option<Seq<char>>, at: Position, name: Seq<char>) -> Result<
    i64,
    ErrorView,
> {
    match value {
        None => Err(ErrorView::missing(at, name)),
        Some(raw) => match integer_of(raw) {
            Ok(id) => Ok(id),
            Err(cause) => Err(ErrorView::invalid(at, name, raw, cause)),
        },
    }
}

/// The coordinate that a required attribute holds.
pub open spec fn required_coordinate(
    value: Option<Seq<char>>,
    at: Position,
    name: Seq<char>,
) -> Result<Seq<char>, ErrorView> {
    match value {
        None => Err(ErrorView::missing(at, name)),
        Some(raw) => match coordinate_of(raw) {
            Ok(literal) => Ok(literal),
            Err(cause) => Err(ErrorView::invalid(at, name, raw, cause)),
        },
    }
}

/// The kind of element that a required attribute names.
pub open spec fn required_member_type(
    value: Option<Seq<char>>,
    at: Position,
    name: Seq<char>,
) -> Result<MemberType, ErrorView> {
    match value {
        None => Err(ErrorView::missing(at, name)),
        Some(raw) => match member_type_of(raw) {
            Some(mtype) => Ok(mtype),
            None => Err(ErrorView::invalid_kind(at, raw)),
        },
    }
}

//------------ Children ------------------------------------------------------

/// The key and the value of a `tag` element: its attributes `k` and `v`, both required.
pub open spec fn tag_of(attributes: Seq<AttributeView>, at: Position) -> Result<
    (Seq<char>, Seq<char>),
    ErrorView,
> {
    match required(attribute_value(attributes, "k"@), at, "k"@) {
        Err(e) => Err(e),
        Ok(key) => match required(attribute_value(attributes, "v"@), at, "v"@) {
            Err(e) => Err(e),
            Ok(value) => Ok((key, value)),
        },
    }
}

/// The node that an `nd` element refers to: its attribute `ref`, required.
pub open spec fn nd_of(attributes: Seq<AttributeView>, at: Position) -> Result<i64, ErrorView> {
    required_integer(attribute_value(attributes, "ref"@), at, "ref"@)
}

/// The member that a `member` element declares: its attributes `type`, `ref` and `role`, all
/// required, looked at in that order.
pub open spec fn member_of(attributes: Seq<AttributeView>, at: Position) -> Result<
    MemberView,
    ErrorView,
> {
    match required_member_type(attribute_value(attributes, "type"@), at, "type"@) {
        Err(e) => Err(e),
        Ok(mtype) => match required_integer(attribute_value(attributes, "ref"@), at, "ref"@) {
            Err(e) => Err(e),
            Ok(id) => match required(attribute_value(attributes, "role"@), at, "role"@) {
                Err(e) => Err(e),
                Ok(role) => Ok(MemberView { mtype, id, role }),
            },
        },
    }
}

//------------ Events --------------------------------------------------------

/// What the next event opens, where the root element is looked for: the attributes of the
/// element `elem`, nothing where an element ends, and a failure at anything else.
pub open spec fn named_element(s: EventsView, elem: Seq<char>) -> Result<
    Option<Seq<AttributeView>>,
    ErrorView,
> {
    match s.head() {
        EventView::StartElement { name, attributes } => if name == elem {
            Ok(Some(attributes))
        } else {
            Err(ErrorView::unexpected(s.advance().at, Context::Root))
        },
        EventView::EndElement => Ok(None),
        EventView::Failure { message } => Err(ErrorView::malformed(s.advance().at, message)),
        _ => Err(ErrorView::unexpected(s.advance().at, Context::Root)),
    }
}

/// What the next event opens, between the children of an element: the name and attributes of
/// a child, nothing where the element ends, and a failure at anything else.
pub open spec fn any_element(s: EventsView) -> Result<
    Option<(Seq<char>, Seq<AttributeView>)>,
    ErrorView,
> {
    match s.head() {
        EventView::StartElement { name, attributes } => Ok(Some((name, attributes))),
        EventView::EndElement => Ok(None),
        EventView::Failure { message } => Err(ErrorView::malformed(s.advance().at, message)),
        _ => Err(ErrorView::unexpected(s.advance().at, Context::Element)),
    }
}

/// The reader moved to the end of the element it stands in, `depth` elements deep inside it:
/// the elements that open on the way are passed over with all they hold, text and
/// instructions are passed over, and the end-element that closes the outermost element is
/// taken. A failure of the tokenizer and the end of the document are failures here.
pub open spec fn skip_to_end(s: EventsView, depth: nat) -> (Result<(), ErrorView>, EventsView)
    decreases s.pending.len(),
{
    match s.head() {
        EventView::StartElement { name, attributes } => skip_to_end(s.advance(), depth + 1),
        EventView::EndElement => if depth == 0 {
            (Ok(()), s.advance())
        } else {
            skip_to_end(s.advance(), (depth - 1) as nat)
        },
        EventView::Failure { message } => (
            Err(ErrorView::malformed(s.advance().at, message)),
            s.advance(),
        ),
        EventView::EndDocument => (
            Err(ErrorView::unexpected(s.advance().at, Context::Element)),
            s.advance(),
        ),
        _ => skip_to_end(s.advance(), depth),
    }
}

/// The reader moved past the rest of an element, standing behind its opening tag: past
/// whatever the element holds, and past its end-element.
pub open spec fn skip_element(s: EventsView) -> (Result<(), ErrorView>, EventsView) {
    skip_to_end(s, 0)
}

/// Passing over an element leaves the reader with no more before it than it had.
pub proof fn lemma_skip_consumes(s: EventsView, depth: nat)
    ensures
        skip_to_end(s, depth).1.pending.len() <= s.pending.len(),
    decreases s.pending.len(),
{
    match s.head() {
        EventView::StartElement { name, attributes } => {
            lemma_skip_consumes(s.advance(), depth + 1);
        },
        EventView::EndElement => {
            if depth > 0 {
                lemma_skip_consumes(s.advance(), (depth - 1) as nat);
            }
        },
        EventView::Failure { message } => {},
        EventView::EndDocument => {},
        _ => {
            lemma_skip_consumes(s.advance(), depth);
        },
    }
}

//------------ Node ----------------------------------------------------------

/// A node with the opening tag of the child `name` taken in: a `tag` adds a tag, anything
/// else adds nothing.
pub open spec fn node_child(
    node: NodeView,
    name: Seq<char>,
    attributes: Seq<AttributeView>,
    at: Position,
) -> Result<NodeView, ErrorView> {
    if name == "tag"@ {
        match tag_of(attributes, at) {
            Err(e) => Err(e),
            Ok((key, value)) => Ok(node.insert_tag(key, value)),
        }
    } else {
        Ok(node)
    }
}

/// The node that `node` becomes by the children before the reader, up to the end-element of
/// the node itself, and the state in which the reader is left. Of each child the opening tag
/// is taken in, and what the child holds is passed over, up to and with its own end-element.
pub open spec fn node_body(node: NodeView, s: EventsView) -> (Result<NodeView, ErrorView>, EventsView)
    decreases s.pending.len(),
    via node_body_decreases
{
    match any_element(s) {
        Err(e) => (Err(e), s.advance()),
        Ok(None) => (Ok(node), s.advance()),
        Ok(Some((name, attributes))) => match node_child(node, name, attributes, s.advance().at) {
            Err(e) => (Err(e), s.advance()),
            Ok(next) => match skip_element(s.advance()) {
                (Err(e), rest) => (Err(e), rest),
                (Ok(_), rest) => node_body(next, rest),
            },
        },
    }
}

#[via_fn]
proof fn node_body_decreases(node: NodeView, s: EventsView) {
    lemma_skip_consumes(s.advance(), 0);
}

/// The node that an element with these attributes starts out as: its attributes `id`, `lat`
/// and `lon`, all required, looked at in that order.
pub open spec fn node_head(attributes: Seq<AttributeView>, at: Position) -> Result<
    NodeView,
    ErrorView,
> {
    match required_integer(attribute_value(attributes, "id"@), at, "id"@) {
        Err(e) => Err(e),
        Ok(id) => match required_coordinate(attribute_value(attributes, "lat"@), at, "lat"@) {
            Err(e) => Err(e),
            Ok(lat) => match required_coordinate(attribute_value(attributes, "lon"@), at, "lon"@) {
                Err(e) => Err(e),
                Ok(lon) => Ok(NodeView::new(id, lat, lon)),
            },
        },
    }
}

/// The node that a `node` element declares, the reader standing behind its opening tag.
pub open spec fn node_element(attributes: Seq<AttributeView>, s: EventsView) -> (
    Result<NodeView, ErrorView>,
    EventsView,
) {
    match node_head(attributes, s.at) {
        Err(e) => (Err(e), s),
        Ok(node) => node_body(node, s),
    }
}

//------------ Way -----------------------------------------------------------

/// A way with the child `name` taken in: an `nd` adds a node, a `tag` adds a tag, anything
/// else adds nothing.
pub open spec fn way_child(
    way: WayView,
    name: Seq<char>,
    attributes: Seq<AttributeView>,
    at: Position,
) -> Result<WayView, ErrorView> {
    if name == "nd"@ {
        match nd_of(attributes, at) {
            Err(e) => Err(e),
            Ok(id) => Ok(way.push_node(id)),
        }
    } else if name == "tag"@ {
        match tag_of(attributes, at) {
            Err(e) => Err(e),
            Ok((key, value)) => Ok(way.insert_tag(key, value)),
        }
    } else {
        Ok(way)
    }
}

/// The way that `way` becomes by the children before the reader, up to the end-element of
/// the way itself, and the state in which the reader is left. Of each child the opening tag is
/// taken in, and what the child holds is passed over, up to and with its own end-element.
pub open spec fn way_body(way: WayView, s: EventsView) -> (Result<WayView, ErrorView>, EventsView)
    decreases s.pending.len(),
    via way_body_decreases
{
    match any_element(s) {
        Err(e) => (Err(e), s.advance()),
        Ok(None) => (Ok(way), s.advance()),
        Ok(Some((name, attributes))) => match way_child(way, name, attributes, s.advance().at) {
            Err(e) => (Err(e), s.advance()),
            Ok(next) => match skip_element(s.advance()) {
                (Err(e), rest) => (Err(e), rest),
                (Ok(_), rest) => way_body(next, rest),
            },
        },
    }
}

#[via_fn]
proof fn way_body_decreases(way: WayView, s: EventsView) {
    lemma_skip_consumes(s.advance(), 0);
}

/// The way that a `way` element declares, the reader standing behind its opening tag.
pub open spec fn way_element(attributes: Seq<AttributeView>, s: EventsView) -> (
    Result<WayView, ErrorView>,
    EventsView,
) {
    match required_integer(attribute_value(attributes, "id"@), s.at, "id"@) {
        Err(e) => (Err(e), s),
        Ok(id) => way_body(WayView::new(id), s),
    }
}

//------------ Relation ------------------------------------------------------

/// A relation with the child `name` taken in: a `member` adds a member, a `tag` adds a tag,
/// anything else adds nothing.
pub open spec fn relation_child(
    relation: RelationView,
    name: Seq<char>,
    attributes: Seq<AttributeView>,
    at: Position,
) -> Result<RelationView, ErrorView> {
    if name == "member"@ {
        match member_of(attributes, at) {
            Err(e) => Err(e),
            Ok(member) => Ok(relation.push_member(member)),
        }
    } else if name == "tag"@ {
        match tag_of(attributes, at) {
            Err(e) => Err(e),
            Ok((key, value)) => Ok(relation.insert_tag(key, value)),
        }
    } else {
        Ok(relation)
    }
}

/// The relation that `relation` becomes by the children before the reader, up to the
/// end-element of the relation itself, and the state in which the reader is left. Of each child
/// the opening tag is taken in, and what the child holds is passed over, up to and with its
/// own end-element.
pub open spec fn relation_body(relation: RelationView, s: EventsView) -> (
    Result<RelationView, ErrorView>,
    EventsView,
)
    decreases s.pending.len(),
    via relation_body_decreases
{
    match any_element(s) {
        Err(e) => (Err(e), s.advance()),
        Ok(None) => (Ok(relation), s.advance()),
        Ok(Some((name, attributes))) => match relation_child(relation, name, attributes, s.advance().at) {
            Err(e) => (Err(e), s.advance()),
            Ok(next) => match skip_element(s.advance()) {
                (Err(e), rest) => (Err(e), rest),
                (Ok(_), rest) => relation_body(next, rest),
            },
        },
    }
}

#[via_fn]
proof fn relation_body_decreases(relation: RelationView, s: EventsView) {
    lemma_skip_consumes(s.advance(), 0);
}

/// The relation that a `relation` element declares, the reader standing behind its opening
/// tag.
pub open spec fn relation_element(attributes: Seq<AttributeView>, s: EventsView) -> (
    Result<RelationView, ErrorView>,
    EventsView,
) {
    match required_integer(attribute_value(attributes, "id"@), s.at, "id"@) {
        Err(e) => (Err(e), s),
        Ok(id) => relation_body(RelationView::new(id), s),
    }
}

//------------ Document ------------------------------------------------------

/// Reading the body of an element leaves the reader with no more before it than it had.
pub proof fn lemma_node_body_consumes(node: NodeView, s: EventsView)
    ensures
        node_body(node, s).1.pending.len() <= s.pending.len(),
    decreases s.pending.len(),
{
    if let Ok(Some((name, attributes))) = any_element(s) {
        if let Ok(next) = node_child(node, name, attributes, s.advance().at) {
            lemma_skip_consumes(s.advance(), 0);
            lemma_node_body_consumes(next, skip_element(s.advance()).1);
        }
    }
}

/// Reading the body of an element leaves the reader with no more before it than it had.
pub proof fn lemma_way_body_consumes(way: WayView, s: EventsView)
    ensures
        way_body(way, s).1.pending.len() <= s.pending.len(),
    decreases s.pending.len(),
{
    if let Ok(Some((name, attributes))) = any_element(s) {
        if let Ok(next) = way_child(way, name, attributes, s.advance().at) {
            lemma_skip_consumes(s.advance(), 0);
            lemma_way_body_consumes(next, skip_element(s.advance()).1);
        }
    }
}

/// Reading the body of an element leaves the reader with no more before it than it had.
pub proof fn lemma_relation_body_consumes(relation: RelationView, s: EventsView)
    ensures
        relation_body(relation, s).1.pending.len() <= s.pending.len(),
    decreases s.pending.len(),
{
    if let Ok(Some((name, attributes))) = any_element(s) {
        if let Ok(next) = relation_child(relation, name, attributes, s.advance().at) {
            lemma_skip_consumes(s.advance(), 0);
            lemma_relation_body_consumes(next, skip_element(s.advance()).1);
        }
    }
}

/// Reading an element leaves the reader with no more before it than it had.
pub proof fn lemma_element_consumes(attributes: Seq<AttributeView>, s: EventsView)
    ensures
        node_element(attributes, s).1.pending.len() <= s.pending.len(),
        way_element(attributes, s).1.pending.len() <= s.pending.len(),
        relation_element(attributes, s).1.pending.len() <= s.pending.len(),
{
    if let Ok(node) = node_head(attributes, s.at) {
        lemma_node_body_consumes(node, s);
    }
    if let Ok(id) = required_integer(attribute_value(attributes, "id"@), s.at, "id"@) {
        lemma_way_body_consumes(WayView::new(id), s);
        lemma_relation_body_consumes(RelationView::new(id), s);
    }
}

/// The data set that `osm` becomes by the top-level elements before the reader, up to the end
/// of the document, and the state in which the reader is left. A `node`, a `way` and a
/// `relation` are read and added; an element of any other name is passed over with all it
/// holds.
pub open spec fn document(osm: OsmView, s: EventsView) -> (Result<OsmView, ErrorView>, EventsView)
    decreases s.pending.len(),
    via document_decreases
{
    match s.head() {
        EventView::EndDocument => (Ok(osm), s.advance()),
        EventView::StartElement { name, attributes } => if name == "node"@ {
            match node_element(attributes, s.advance()) {
                (Err(e), rest) => (Err(e), rest),
                (Ok(node), rest) => document(osm.add_node(node), rest),
            }
        } else if name == "way"@ {
            match way_element(attributes, s.advance()) {
                (Err(e), rest) => (Err(e), rest),
                (Ok(way), rest) => document(osm.add_way(way), rest),
            }
        } else if name == "relation"@ {
            match relation_element(attributes, s.advance()) {
                (Err(e), rest) => (Err(e), rest),
                (Ok(relation), rest) => document(osm.add_relation(relation), rest),
            }
        } else {
            match skip_element(s.advance()) {
                (Err(e), rest) => (Err(e), rest),
                (Ok(_), rest) => document(osm, rest),
            }
        },
        EventView::Failure { message } => (
            Err(ErrorView::malformed(s.advance().at, message)),
            s.advance(),
        ),
        _ => (Err(ErrorView::unexpected(s.advance().at, Context::Document)), s.advance()),
    }
}

#[via_fn]
proof fn document_decreases(osm: OsmView, s: EventsView) {
    if let EventView::StartElement { name, attributes } = s.head() {
        lemma_element_consumes(attributes, s.advance());
        lemma_skip_consumes(s.advance(), 0);
    }
}

/// The reader moved past the declaration and the processing instructions that a document
/// opens with.
pub open spec fn prologue(s: EventsView) -> EventsView
    decreases s.pending.len(),
{
    match s.head() {
        EventView::StartDocument => prologue(s.advance()),
        EventView::ProcessingInstruction => prologue(s.advance()),
        _ => s,
    }
}

/// What a reader makes of a whole document: past the prologue the root element `osm` has to
/// open, and what follows is the body of the document.
pub open spec fn whole_document(s: EventsView) -> (Result<OsmView, ErrorView>, EventsView) {
    let start = prologue(s);
    match named_element(start, "osm"@) {
        Err(e) => (Err(e), start.advance()),
        Ok(None) => (Err(ErrorView::unexpected(start.advance().at, Context::Root)), start.advance()),
        Ok(Some(_)) => document(OsmView::empty(), start.advance()),
    }
}

/// The reader that has all of `tokens` before it.
pub open spec fn fresh(tokens: Seq<TokenView>) -> EventsView {
    EventsView { pending: tokens, at: Position::origin() }
}

/// The data set that a sequence of tokens declares, or the first failure that reading it
/// meets.
pub open spec fn read_result(tokens: Seq<TokenView>) -> Result<OsmView, ErrorView> {
    whole_document(fresh(tokens)).0
}

} // verus!
