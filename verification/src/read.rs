//! Reading a data set out of the lexical events of a document.

use vstd::prelude::*;
use vstd::string::*;
use crate::coordinate::Coordinate;
use crate::elements::{Member, MemberType, Node, Osm, OsmView, Relation, Way};
use crate::error::{outcome, Context, Error, ErrorKind, ErrorView, Position};
use crate::event::{attribute_views, token_views, Attribute, AttributeView, Event, Events, Token};
use crate::grammar::{
    any_element, attribute_value, document, fresh, lemma_element_consumes, lemma_skip_consumes,
    skip_to_end, member_of,
    named_element, nd_of, node_body, node_element, prologue, read_result, relation_body,
    relation_element, required, required_coordinate, required_integer, required_member_type,
    tag_of, way_body, way_element,
};
use crate::source::{document_tokens, tokenize};
use crate::text::{parse_integer, same_text};

verus! {

//------------ Attributes ----------------------------------------------------

/// Looks up the attribute `name`. Where several have that name, the last one counts.
pub fn attribute<'a>(attrs: &'a [Attribute], name: &str) -> (value: Option<&'a str>)
    ensures
        match value {
            Some(raw) => attribute_value(attribute_views(attrs@), name@) == Some(raw@),
            None => attribute_value(attribute_views(attrs@), name@) is None,
        },
{
    let ghost views = attribute_views(attrs@);
    let mut found: Option<&'a str> = None;
    let mut i: usize = 0;
    while i < attrs.len()
        invariant
            i <= attrs.len(),
            views == attribute_views(attrs@),
            match found {
                Some(raw) => attribute_value(views.take(i as int), name@) == Some(raw@),
                None => attribute_value(views.take(i as int), name@) is None,
            },
        decreases attrs.len() - i,
    {
        proof {
            assert(views.take(i + 1).drop_last() =~= views.take(i as int));
        }
        if same_text(attrs[i].name.as_str(), name) {
            found = Some(attrs[i].value.as_str());
        }
        i += 1;
    }
    proof {
        assert(views.take(i as int) =~= views);
    }
    found
}

/// The value of an attribute that has to be there.
pub fn from_attr<'a>(val: Option<&'a str>, at: Position, attr: &str) -> (r: Result<&'a str, Error>)
    ensures
        outcome(r) == required(view_of(val), at, attr@),
{
    match val {
        Some(raw) => Ok(raw),
        None => Err(
            Error { position: at, kind: ErrorKind::MissingAttribute { name: attr.to_owned() } },
        ),
    }
}

/// The identifier that a required attribute holds.
pub fn integer_from_attr(val: Option<&str>, at: Position, attr: &str) -> (r: Result<i64, Error>)
    ensures
        outcome(r) == required_integer(view_of(val), at, attr@),
{
    let raw = from_attr(val, at, attr)?;
    match parse_integer(raw) {
        Ok(id) => Ok(id),
        Err(cause) => Err(
            Error {
                position: at,
                kind: ErrorKind::InvalidAttributeValue {
                    name: attr.to_owned(),
                    value: raw.to_owned(),
                    cause,
                },
            },
        ),
    }
}

/// The coordinate that a required attribute holds.
pub fn coordinate_from_attr(val: Option<&str>, at: Position, attr: &str) -> (r: Result<
    Coordinate,
    Error,
>)
    ensures
        outcome(r) == required_coordinate(view_of(val), at, attr@),
{
    let raw = from_attr(val, at, attr)?;
    match Coordinate::parse(raw) {
        Ok(coordinate) => Ok(coordinate),
        Err(cause) => Err(
            Error {
                position: at,
                kind: ErrorKind::InvalidAttributeValue {
                    name: attr.to_owned(),
                    value: raw.to_owned(),
                    cause,
                },
            },
        ),
    }
}

/// The kind of element that a required attribute names.
pub fn member_type_from_attr(val: Option<&str>, at: Position, attr: &str) -> (r: Result<
    MemberType,
    Error,
>)
    ensures
        outcome(r) == required_member_type(view_of(val), at, attr@),
{
    let raw = from_attr(val, at, attr)?;
    match MemberType::from_str(raw) {
        Ok(mtype) => Ok(mtype),
        Err(_) => Err(
            Error { position: at, kind: ErrorKind::InvalidEnumValue { value: raw.to_owned() } },
        ),
    }
}

/// The characters of an attribute value that may be missing.
pub open spec fn view_of(val: Option<&str>) -> Option<Seq<char>> {
    match val {
        Some(raw) => Some(raw@),
        None => None,
    }
}

//------------ Children ------------------------------------------------------

/// Reads the key and the value of a `tag` element from its attributes.
pub fn read_tag(attrs: &[Attribute], reader: &Events) -> (r: Result<(String, String), Error>)
    ensures
        outcome(r) == tag_of(attribute_views(attrs@), reader@.at),
{
    let at = reader.position();
    let k = from_attr(attribute(attrs, "k"), at, "k")?;
    let v = from_attr(attribute(attrs, "v"), at, "v")?;
    Ok((k.to_owned(), v.to_owned()))
}

/// Reads the node that an `nd` element refers to from its attributes.
pub fn read_nd(attrs: &[Attribute], reader: &Events) -> (r: Result<i64, Error>)
    ensures
        outcome(r) == nd_of(attribute_views(attrs@), reader@.at),
{
    let id = integer_from_attr(attribute(attrs, "ref"), reader.position(), "ref")?;
    Ok(id)
}

/// Reads the member that a `member` element declares from its attributes.
pub fn read_member(attrs: &[Attribute], reader: &Events) -> (r: Result<Member, Error>)
    ensures
        outcome(r) == member_of(attribute_views(attrs@), reader@.at),
{
    let at = reader.position();
    let mtype = member_type_from_attr(attribute(attrs, "type"), at, "type")?;
    let id = integer_from_attr(attribute(attrs, "ref"), at, "ref")?;
    let role = from_attr(attribute(attrs, "role"), at, "role")?;
    Ok(Member::new(mtype, id, role.to_owned()))
}

//------------ Helpers -------------------------------------------------------

/// The mathematical content of what looking for a named element came to.
pub open spec fn opened(r: Result<Option<&[Attribute]>, Error>) -> Result<
    Option<Seq<AttributeView>>,
    ErrorView,
> {
    match r {
        Ok(Some(attrs)) => Ok(Some(attribute_views(attrs@))),
        Ok(None) => Ok(None),
        Err(e) => Err(e@),
    }
}

/// The mathematical content of what looking for any element came to.
pub open spec fn opened_any(r: Result<Option<(&str, &[Attribute])>, Error>) -> Result<
    Option<(Seq<char>, Seq<AttributeView>)>,
    ErrorView,
> {
    match r {
        Ok(Some(child)) => Ok(Some((child.0@, attribute_views(child.1@)))),
        Ok(None) => Ok(None),
        Err(e) => Err(e@),
    }
}

/// The failure that the event of `token` is, where the reader got it in the place `context`
/// and could take neither the start nor the end of an element.
fn refuse(token: Option<&Token>, at: Position, context: Context) -> (e: Error)
    requires
        match token {
            Some(t) => !(t@.event is StartElement) && !(t@.event is EndElement) && at
                == t@.position,
            None => true,
        },
    ensures
        e@.position == at,
        match token {
            Some(t) => match t@.event {
                crate::event::EventView::Failure { message } => e@ == ErrorView::malformed(
                    at,
                    message,
                ),
                _ => e@ == ErrorView::unexpected(at, context),
            },
            None => e@ == ErrorView::unexpected(at, context),
        },
{
    match token {
        Some(t) => match &t.event {
            Event::Failure { message } => Error {
                position: at,
                kind: ErrorKind::Malformed { message: message.clone() },
            },
            _ => Error { position: at, kind: ErrorKind::UnexpectedEvent { context } },
        },
        None => Error { position: at, kind: ErrorKind::UnexpectedEvent { context } },
    }
}

/// Takes the next event, which has to open the element `elem`, and returns the attributes of
/// that element. Where the event ends an element instead, returns `None`.
pub fn expect_element<'a>(reader: &mut Events<'a>, elem: &str) -> (r: Result<
    Option<&'a [Attribute]>,
    Error,
>)
    ensures
        opened(r) == named_element(old(reader)@, elem@),
        final(reader)@ == old(reader)@.advance(),
{
    let token = reader.next();
    let at = reader.position();
    match token {
        Some(t) => match &t.event {
            Event::StartElement { name, attributes } => {
                if same_text(name.as_str(), elem) {
                    Ok(Some(attributes.as_slice()))
                } else {
                    Err(
                        Error {
                            position: at,
                            kind: ErrorKind::UnexpectedEvent { context: Context::Root },
                        },
                    )
                }
            },
            Event::EndElement => Ok(None),
            _ => Err(refuse(token, at, Context::Root)),
        },
        None => Err(refuse(token, at, Context::Root)),
    }
}

/// Takes the next event, which has to open an element, and returns the name and the
/// attributes of that element. Where the event ends an element instead, returns `None`.
pub fn expect_any_element<'a>(reader: &mut Events<'a>) -> (r: Result<
    Option<(&'a str, &'a [Attribute])>,
    Error,
>)
    ensures
        opened_any(r) == any_element(old(reader)@),
        final(reader)@ == old(reader)@.advance(),
{
    let token = reader.next();
    let at = reader.position();
    match token {
        Some(t) => match &t.event {
            Event::StartElement { name, attributes } => Ok(
                Some((name.as_str(), attributes.as_slice())),
            ),
            Event::EndElement => Ok(None),
            _ => Err(refuse(token, at, Context::Element)),
        },
        None => Err(refuse(token, at, Context::Element)),
    }
}

/// Passes over the rest of the element that the reader stands in, behind its opening tag:
/// whatever the element holds, elements with all that they hold among it, and its
/// end-element. The end of the document and a failure of the tokenizer are failures.
pub fn skip_element(reader: &mut Events) -> (r: Result<(), Error>)
    ensures
        (outcome(r), final(reader)@) == crate::grammar::skip_element(old(reader)@),
{
    let left: usize = reader.remaining();
    let mut depth: usize = 0;
    loop
        invariant
            depth + reader@.pending.len() <= left,
            skip_to_end(reader@, depth as nat) == crate::grammar::skip_element(old(reader)@),
        decreases reader@.pending.len(),
    {
        let token = reader.next();
        let at = reader.position();
        match token {
            None => {
                return Err(refuse(token, at, Context::Element));
            },
            Some(t) => match &t.event {
                Event::StartElement { .. } => {
                    depth += 1;
                },
                Event::EndElement => {
                    if depth == 0 {
                        return Ok(());
                    }
                    depth -= 1;
                },
                Event::Failure { .. } => {
                    return Err(refuse(token, at, Context::Element));
                },
                Event::EndDocument => {
                    return Err(refuse(token, at, Context::Element));
                },
                _ => {},
            },
        }
    }
}

//------------ Elements ------------------------------------------------------

/// Reads a node: its identifier and coordinates from `attrs`, the attributes of its opening
/// tag, and its tags from the children that follow, up to the end-element of the node itself.
/// Children other than `tag` are passed over with all they hold.
pub fn read_node(attrs: &[Attribute], reader: &mut Events) -> (r: Result<Node, Error>)
    ensures
        (outcome(r), final(reader)@) == node_element(attribute_views(attrs@), old(reader)@),
{
    let at = reader.position();
    let id = integer_from_attr(attribute(attrs, "id"), at, "id")?;
    let lat = coordinate_from_attr(attribute(attrs, "lat"), at, "lat")?;
    let lon = coordinate_from_attr(attribute(attrs, "lon"), at, "lon")?;
    let mut node = Node::new(id, lat, lon);
    loop
        invariant
            node_body(node@, reader@) == node_element(attribute_views(attrs@), old(reader)@),
        decreases reader@.pending.len(),
    {
        match expect_any_element(reader)? {
            None => {
                return Ok(node);
            },
            Some((name, attrs)) => {
                if same_text(name, "tag") {
                    let (k, v) = read_tag(attrs, reader)?;
                    node.insert_tag(k, v);
                }
                proof {
                    lemma_skip_consumes(reader@, 0);
                }
                skip_element(reader)?;
            },
        }
    }
}

/// Reads a way: its identifier from `attrs`, the attributes of its opening tag, and its nodes
/// and tags from the children that follow, up to the end-element of the way itself. Children
/// other than `nd` and `tag` are passed over with all they hold.
pub fn read_way(attrs: &[Attribute], reader: &mut Events) -> (r: Result<Way, Error>)
    ensures
        (outcome(r), final(reader)@) == way_element(attribute_views(attrs@), old(reader)@),
{
    let id = integer_from_attr(attribute(attrs, "id"), reader.position(), "id")?;
    let mut way = Way::new(id);
    loop
        invariant
            way_body(way@, reader@) == way_element(attribute_views(attrs@), old(reader)@),
        decreases reader@.pending.len(),
    {
        match expect_any_element(reader)? {
            None => {
                return Ok(way);
            },
            Some((name, attrs)) => {
                if same_text(name, "nd") {
                    let id = read_nd(attrs, reader)?;
                    way.push_node(id);
                } else if same_text(name, "tag") {
                    let (k, v) = read_tag(attrs, reader)?;
                    way.insert_tag(k, v);
                }
                proof {
                    lemma_skip_consumes(reader@, 0);
                }
                skip_element(reader)?;
            },
        }
    }
}

/// Reads a relation: its identifier from `attrs`, the attributes of its opening tag, and its
/// members and tags from the children that follow, up to the end-element of the relation
/// itself. Children other than `member` and `tag` are passed over with all they hold.
pub fn read_relation(attrs: &[Attribute], reader: &mut Events) -> (r: Result<Relation, Error>)
    ensures
        (outcome(r), final(reader)@) == relation_element(attribute_views(attrs@), old(reader)@),
{
    let id = integer_from_attr(attribute(attrs, "id"), reader.position(), "id")?;
    let mut relation = Relation::new(id);
    loop
        invariant
            relation_body(relation@, reader@) == relation_element(attribute_views(attrs@), old(reader)@),
        decreases reader@.pending.len(),
    {
        match expect_any_element(reader)? {
            None => {
                return Ok(relation);
            },
            Some((name, attrs)) => {
                if same_text(name, "member") {
                    let member = read_member(attrs, reader)?;
                    relation.push_member(member);
                } else if same_text(name, "tag") {
                    let (k, v) = read_tag(attrs, reader)?;
                    relation.insert_tag(k, v);
                }
                proof {
                    lemma_skip_consumes(reader@, 0);
                }
                skip_element(reader)?;
            },
        }
    }
}

//------------ Document ------------------------------------------------------

/// Reads the body of a document: the top-level elements up to the end of the document. Nodes,
/// ways and relations go into the data set, each unless one of its identifier is there
/// already; elements of other names are passed over with all they hold.
pub fn read_document(reader: &mut Events) -> (r: Result<Osm, Error>)
    ensures
        (outcome(r), final(reader)@) == document(OsmView::empty(), old(reader)@),
{
    let mut res = Osm::new();
    loop
        invariant
            document(res@, reader@) == document(OsmView::empty(), old(reader)@),
        decreases reader@.pending.len(),
    {
        let token = reader.next();
        let at = reader.position();
        let (name, attrs) = match token {
            None => {
                return Ok(res);
            },
            Some(t) => match &t.event {
                Event::EndDocument => {
                    return Ok(res);
                },
                Event::StartElement { name, attributes } => (name.as_str(), attributes.as_slice()),
                Event::EndElement => {
                    return Err(
                        Error {
                            position: at,
                            kind: ErrorKind::UnexpectedEvent { context: Context::Document },
                        },
                    );
                },
                _ => {
                    return Err(refuse(token, at, Context::Document));
                },
            },
        };
        proof {
            lemma_element_consumes(attribute_views(attrs@), reader@);
            lemma_skip_consumes(reader@, 0);
        }
        if same_text(name, "node") {
            let node = read_node(attrs, reader)?;
            res.add_node(node);
        } else if same_text(name, "way") {
            let way = read_way(attrs, reader)?;
            res.add_way(way);
        } else if same_text(name, "relation") {
            let relation = read_relation(attrs, reader)?;
            res.add_relation(relation);
        } else {
            skip_element(reader)?;
        }
    }
}

/// Whether the next event belongs to what a document opens with: its declaration, or a
/// processing instruction.
fn in_prologue(reader: &Events) -> (leading: bool)
    ensures
        leading == (reader@.head() is StartDocument || reader@.head() is ProcessingInstruction),
{
    match reader.peek() {
        Some(t) => match &t.event {
            Event::StartDocument => true,
            Event::ProcessingInstruction => true,
            _ => false,
        },
        None => false,
    }
}

/// Reads a whole document from the tokens that a tokenizer made of it. The declaration and
/// the processing instructions that the document opens with are passed over; then the root
/// element `osm` has to open, and its body is read up to the end of the document. Where the
/// tokens run out, the document has ended.
pub fn read_events(tokens: &[Token]) -> (r: Result<Osm, Error>)
    ensures
        outcome(r) == read_result(token_views(tokens@)),
{
    let mut reader = Events::new(tokens);
    while in_prologue(&reader)
        invariant
            prologue(reader@) == prologue(fresh(token_views(tokens@))),
        decreases reader@.pending.len(),
    {
        reader.next();
    }
    let at_root = expect_element(&mut reader, "osm")?;
    if at_root.is_none() {
        return Err(
            Error {
                position: reader.position(),
                kind: ErrorKind::UnexpectedEvent { context: Context::Root },
            },
        );
    }
    read_document(&mut reader)
}

/// Reads a data set from the text of an XML document: the result is what [`read_events`]
/// makes of the tokens that the tokenizer delivers of `source`.
pub fn read_xml(source: &[u8]) -> (r: Result<Osm, Error>)
    ensures
        outcome(r) == read_result(document_tokens(source@)),
{
    let tokens = tokenize(source);
    read_events(tokens.as_slice())
}

} // verus!
