//! What holds of every reading: the order of what an element declares, which of two tags of
//! one key counts, which of two elements of one identifier stays, and what is passed over.

use vstd::prelude::*;
use crate::elements::{MemberView, NodeView, OsmView, RelationView, WayView};
use crate::error::Position;
use crate::event::{AttributeView, EventView, EventsView, TokenView};
use crate::grammar::{
    any_element, attribute_value, document, fresh, lemma_element_consumes,
    lemma_node_body_consumes, lemma_relation_body_consumes, lemma_skip_consumes,
    lemma_way_body_consumes, member_of, nd_of, node_body, node_child, node_element, node_head,
    prologue, read_result, relation_body, relation_child, relation_element, required_integer,
    skip_element, skip_to_end, tag_of, way_body, way_child, way_element,
};

verus! {

//------------ Children ------------------------------------------------------

/// The children that a reader finds before the element ends, each by its opening tag, in
/// order. A child reaches from its opening tag to its own end-element; what it holds is no
/// child of the element. Where a child does not end, it is the last.
pub open spec fn children(s: EventsView) -> Seq<TokenView>
    decreases s.pending.len(),
    via children_decreases
{
    match s.head() {
        EventView::StartElement { name, attributes } => match skip_element(s.advance()) {
            (Ok(_), rest) => seq![s.pending[0]] + children(rest),
            (Err(_), _) => seq![s.pending[0]],
        },
        _ => Seq::empty(),
    }
}

#[via_fn]
proof fn children_decreases(s: EventsView) {
    lemma_skip_consumes(s.advance(), 0);
}

/// The nodes that the `nd` elements among `children` refer to, in the order of the children.
pub open spec fn nd_refs(children: Seq<TokenView>) -> Seq<i64>
    decreases children.len(),
{
    if children.len() == 0 {
        Seq::empty()
    } else {
        let rest = nd_refs(children.skip(1));
        match children[0].event {
            EventView::StartElement { name, attributes } => match nd_of(
                attributes,
                children[0].position,
            ) {
                Ok(id) if name == "nd"@ => seq![id] + rest,
                _ => rest,
            },
            _ => rest,
        }
    }
}

/// The members that the `member` elements among `children` declare, in the order of the
/// children.
pub open spec fn members_declared(children: Seq<TokenView>) -> Seq<MemberView>
    decreases children.len(),
{
    if children.len() == 0 {
        Seq::empty()
    } else {
        let rest = members_declared(children.skip(1));
        match children[0].event {
            EventView::StartElement { name, attributes } => match member_of(
                attributes,
                children[0].position,
            ) {
                Ok(member) if name == "member"@ => seq![member] + rest,
                _ => rest,
            },
            _ => rest,
        }
    }
}

/// The keys and values that the `tag` elements among `children` declare, in the order of the
/// children.
pub open spec fn tags_declared(children: Seq<TokenView>) -> Seq<(Seq<char>, Seq<char>)>
    decreases children.len(),
{
    if children.len() == 0 {
        Seq::empty()
    } else {
        let rest = tags_declared(children.skip(1));
        match children[0].event {
            EventView::StartElement { name, attributes } => match tag_of(
                attributes,
                children[0].position,
            ) {
                Ok(tag) if name == "tag"@ => seq![tag] + rest,
                _ => rest,
            },
            _ => rest,
        }
    }
}

/// The tags that `tags` become when each of `pairs` is inserted in turn.
pub open spec fn tagged(tags: Map<Seq<char>, Seq<char>>, pairs: Seq<(Seq<char>, Seq<char>)>) -> Map<
    Seq<char>,
    Seq<char>,
>
    decreases pairs.len(),
{
    if pairs.len() == 0 {
        tags
    } else {
        tagged(tags.insert(pairs[0].0, pairs[0].1), pairs.skip(1))
    }
}

/// The names that the reader knows are different names.
pub proof fn lemma_names_differ()
    ensures
        "tag"@ != "nd"@,
        "tag"@ != "member"@,
        "node"@ != "way"@,
        "node"@ != "relation"@,
        "way"@ != "relation"@,
{
    reveal_strlit("tag");
    reveal_strlit("nd");
    reveal_strlit("member");
    reveal_strlit("node");
    reveal_strlit("way");
    reveal_strlit("relation");
    assert("nd"@.len() == 2);
    assert("member"@.len() == 6);
    assert("way"@.len() == 3);
    assert("relation"@.len() == 8);
}

//------------ Order of declaration ------------------------------------------

/// The nodes of a way are those that its `nd` children refer to, in the order in which the
/// children stand, a node as often as it is referred to. Its tags are those that its `tag`
/// children declare, inserted in that order.
pub proof fn lemma_way_follows_declarations(way: WayView, s: EventsView)
    requires
        way_body(way, s).0 is Ok,
    ensures
        way_body(way, s).0->Ok_0.id == way.id,
        way_body(way, s).0->Ok_0.nodes == way.nodes + nd_refs(children(s)),
        way_body(way, s).0->Ok_0.tags == tagged(way.tags, tags_declared(children(s))),
    decreases s.pending.len(),
{
    lemma_names_differ();
    if let Ok(Some((name, attributes))) = any_element(s) {
        let next = way_child(way, name, attributes, s.advance().at)->Ok_0;
        let rest = skip_element(s.advance()).1;
        lemma_skip_consumes(s.advance(), 0);
        lemma_way_follows_declarations(next, rest);
        let cs = children(s);
        assert(cs.skip(1) =~= children(rest));
        assert(tagged(way.tags, tags_declared(cs)) == tagged(next.tags, tags_declared(cs.skip(1)))) by {
            if name == "tag"@ {
                assert(tags_declared(cs).skip(1) =~= tags_declared(cs.skip(1)));
            }
        }
    }
}

/// The members of a relation are those that its `member` children declare, in the order in
/// which the children stand. Its tags are those that its `tag` children declare, inserted in
/// that order.
pub proof fn lemma_relation_follows_declarations(relation: RelationView, s: EventsView)
    requires
        relation_body(relation, s).0 is Ok,
    ensures
        relation_body(relation, s).0->Ok_0.id == relation.id,
        relation_body(relation, s).0->Ok_0.members == relation.members + members_declared(
            children(s),
        ),
        relation_body(relation, s).0->Ok_0.tags == tagged(
            relation.tags,
            tags_declared(children(s)),
        ),
    decreases s.pending.len(),
{
    lemma_names_differ();
    if let Ok(Some((name, attributes))) = any_element(s) {
        let next = relation_child(relation, name, attributes, s.advance().at)->Ok_0;
        let rest = skip_element(s.advance()).1;
        lemma_skip_consumes(s.advance(), 0);
        lemma_relation_follows_declarations(next, rest);
        let cs = children(s);
        assert(cs.skip(1) =~= children(rest));
        assert(tagged(relation.tags, tags_declared(cs)) == tagged(
            next.tags,
            tags_declared(cs.skip(1)),
        )) by {
            if name == "tag"@ {
                assert(tags_declared(cs).skip(1) =~= tags_declared(cs.skip(1)));
            }
        }
    }
}

/// The children of a node leave its identifier and coordinates as they are. Its tags are
/// those that its `tag` children declare, inserted in the order in which the children stand.
pub proof fn lemma_node_follows_declarations(node: NodeView, s: EventsView)
    requires
        node_body(node, s).0 is Ok,
    ensures
        node_body(node, s).0->Ok_0.id == node.id,
        node_body(node, s).0->Ok_0.lat == node.lat,
        node_body(node, s).0->Ok_0.lon == node.lon,
        node_body(node, s).0->Ok_0.tags == tagged(node.tags, tags_declared(children(s))),
    decreases s.pending.len(),
{
    lemma_names_differ();
    if let Ok(Some((name, attributes))) = any_element(s) {
        let next = node_child(node, name, attributes, s.advance().at)->Ok_0;
        let rest = skip_element(s.advance()).1;
        lemma_skip_consumes(s.advance(), 0);
        lemma_node_follows_declarations(next, rest);
        let cs = children(s);
        assert(cs.skip(1) =~= children(rest));
        assert(tagged(node.tags, tags_declared(cs)) == tagged(next.tags, tags_declared(cs.skip(1)))) by {
            if name == "tag"@ {
                assert(tags_declared(cs).skip(1) =~= tags_declared(cs.skip(1)));
            }
        }
    }
}

/// A way that was read has the nodes that its `nd` children refer to, in the order in which
/// the children stand and as often as they are referred to, and the tags that its `tag`
/// children declare.
pub proof fn lemma_way_element_follows_declarations(attributes: Seq<AttributeView>, s: EventsView)
    requires
        way_element(attributes, s).0 is Ok,
    ensures
        way_element(attributes, s).0->Ok_0.nodes == nd_refs(children(s)),
        way_element(attributes, s).0->Ok_0.tags == tagged(
            Map::empty(),
            tags_declared(children(s)),
        ),
{
    let id = required_integer(attribute_value(attributes, "id"@), s.at, "id"@)->Ok_0;
    lemma_way_follows_declarations(WayView::new(id), s);
}

/// A relation that was read has the members that its `member` children declare, in the order
/// in which the children stand, and the tags that its `tag` children declare.
pub proof fn lemma_relation_element_follows_declarations(
    attributes: Seq<AttributeView>,
    s: EventsView,
)
    requires
        relation_element(attributes, s).0 is Ok,
    ensures
        relation_element(attributes, s).0->Ok_0.members == members_declared(children(s)),
        relation_element(attributes, s).0->Ok_0.tags == tagged(
            Map::empty(),
            tags_declared(children(s)),
        ),
{
    let id = required_integer(attribute_value(attributes, "id"@), s.at, "id"@)->Ok_0;
    lemma_relation_follows_declarations(RelationView::new(id), s);
}

/// A node that was read has the tags that its `tag` children declare.
pub proof fn lemma_node_element_follows_declarations(
    attributes: Seq<AttributeView>,
    s: EventsView,
)
    requires
        node_element(attributes, s).0 is Ok,
    ensures
        node_element(attributes, s).0->Ok_0.tags == tagged(
            Map::empty(),
            tags_declared(children(s)),
        ),
{
    lemma_node_follows_declarations(node_head(attributes, s.at)->Ok_0, s);
}

//------------ Extent --------------------------------------------------------

/// Leaving an element one level deeper is leaving the element inside and then the one around
/// it.
proof fn lemma_skip_in_steps(s: EventsView, depth: nat)
    requires
        skip_to_end(s, depth).0 is Ok,
    ensures
        skip_to_end(s, depth + 1) == skip_to_end(skip_to_end(s, depth).1, 0),
    decreases s.pending.len(),
{
    match s.head() {
        EventView::StartElement { name, attributes } => {
            lemma_skip_in_steps(s.advance(), depth + 1);
        },
        EventView::EndElement => {
            if depth > 0 {
                lemma_skip_in_steps(s.advance(), (depth - 1) as nat);
            }
        },
        EventView::Failure { message } => {},
        EventView::EndDocument => {},
        _ => {
            lemma_skip_in_steps(s.advance(), depth);
        },
    }
}

/// A node that is read to its end leaves the reader behind the node's own end-element: where
/// passing over the element would leave it, and no further.
pub proof fn lemma_node_ends_with_its_element(node: NodeView, s: EventsView)
    requires
        node_body(node, s).0 is Ok,
    ensures
        skip_element(s).0 is Ok,
        node_body(node, s).1 == skip_element(s).1,
    decreases s.pending.len(),
{
    if let Ok(Some((name, attributes))) = any_element(s) {
        let next = node_child(node, name, attributes, s.advance().at)->Ok_0;
        let rest = skip_element(s.advance()).1;
        lemma_skip_consumes(s.advance(), 0);
        lemma_node_ends_with_its_element(next, rest);
        lemma_skip_in_steps(s.advance(), 0);
    }
}

/// A way that is read to its end leaves the reader behind the way's own end-element: where
/// passing over the element would leave it, and no further.
pub proof fn lemma_way_ends_with_its_element(way: WayView, s: EventsView)
    requires
        way_body(way, s).0 is Ok,
    ensures
        skip_element(s).0 is Ok,
        way_body(way, s).1 == skip_element(s).1,
    decreases s.pending.len(),
{
    if let Ok(Some((name, attributes))) = any_element(s) {
        let next = way_child(way, name, attributes, s.advance().at)->Ok_0;
        let rest = skip_element(s.advance()).1;
        lemma_skip_consumes(s.advance(), 0);
        lemma_way_ends_with_its_element(next, rest);
        lemma_skip_in_steps(s.advance(), 0);
    }
}

/// A relation that is read to its end leaves the reader behind the relation's own end-element: where
/// passing over the element would leave it, and no further.
pub proof fn lemma_relation_ends_with_its_element(relation: RelationView, s: EventsView)
    requires
        relation_body(relation, s).0 is Ok,
    ensures
        skip_element(s).0 is Ok,
        relation_body(relation, s).1 == skip_element(s).1,
    decreases s.pending.len(),
{
    if let Ok(Some((name, attributes))) = any_element(s) {
        let next = relation_child(relation, name, attributes, s.advance().at)->Ok_0;
        let rest = skip_element(s.advance()).1;
        lemma_skip_consumes(s.advance(), 0);
        lemma_relation_ends_with_its_element(next, rest);
        lemma_skip_in_steps(s.advance(), 0);
    }
}

//------------ Later tags ----------------------------------------------------

/// Of the tags inserted in turn, each key ends with the value that was given to it last:
/// a pair counts unless a later one has its key.
pub proof fn lemma_later_tag_wins(
    tags: Map<Seq<char>, Seq<char>>,
    pairs: Seq<(Seq<char>, Seq<char>)>,
    last: int,
)
    requires
        0 <= last < pairs.len(),
        forall|later: int| last < later < pairs.len() ==> (#[trigger] pairs[later]).0 != pairs[last].0,
    ensures
        tagged(tags, pairs).contains_key(pairs[last].0),
        tagged(tags, pairs)[pairs[last].0] == pairs[last].1,
    decreases pairs.len(),
{
    if last == 0 {
        lemma_other_keys_stay(tags.insert(pairs[0].0, pairs[0].1), pairs.skip(1), pairs[0].0);
    } else {
        lemma_later_tag_wins(tags.insert(pairs[0].0, pairs[0].1), pairs.skip(1), last - 1);
    }
}

/// A key that none of the inserted tags has keeps the value it had, or stays without one.
pub proof fn lemma_other_keys_stay(
    tags: Map<Seq<char>, Seq<char>>,
    pairs: Seq<(Seq<char>, Seq<char>)>,
    key: Seq<char>,
)
    requires
        forall|i: int| 0 <= i < pairs.len() ==> (#[trigger] pairs[i]).0 != key,
    ensures
        tagged(tags, pairs).contains_key(key) == tags.contains_key(key),
        tags.contains_key(key) ==> tagged(tags, pairs)[key] == tags[key],
    decreases pairs.len(),
{
    if pairs.len() > 0 {
        lemma_other_keys_stay(tags.insert(pairs[0].0, pairs[0].1), pairs.skip(1), key);
    }
}

//------------ Unknown elements ----------------------------------------------

/// The state of a reader that has more tokens before it: `extra`, in front of the token that
/// was the `k`-th.
pub open spec fn with_tokens(s: EventsView, k: int, extra: Seq<TokenView>) -> EventsView {
    EventsView { pending: s.pending.take(k) + extra + s.pending.skip(k), at: s.at }
}

/// Whether a token opens an element that has none of the names `known`.
pub open spec fn opens_unknown(token: TokenView, known: Set<Seq<char>>) -> bool {
    match token.event {
        EventView::StartElement { name, attributes } => !known.contains(name),
        _ => false,
    }
}

/// Whether `tokens` are one whole element that has none of the names `known`: its opening
/// tag, whatever it holds, and its own end-element as the last token.
pub open spec fn unknown_element(tokens: Seq<TokenView>, known: Set<Seq<char>>) -> bool {
    let inside = EventsView { pending: tokens.skip(1), at: tokens[0].position };
    &&& tokens.len() > 0
    &&& opens_unknown(tokens[0], known)
    &&& skip_element(inside).0 is Ok
    &&& skip_element(inside).1.pending.len() == 0
}

/// Whether a reader that started in the state `s`, between the children of an element, stands
/// between children again, or behind the last of them, when it has taken `k` tokens: each
/// child before that place has come to its own end-element.
pub open spec fn stands_between_children(s: EventsView, k: int) -> bool
    decreases s.pending.len(),
    via stands_between_children_decreases
{
    k == 0 || (k > 0 && s.head() is StartElement && match skip_element(s.advance()) {
        (Ok(_), rest) => stands_between_children(rest, k - (s.pending.len() - rest.pending.len())),
        (Err(_), _) => false,
    })
}

#[via_fn]
proof fn stands_between_children_decreases(s: EventsView, k: int) {
    lemma_skip_consumes(s.advance(), 0);
}

/// A place between children is a number of tokens.
proof fn lemma_stands_at_a_token(s: EventsView, k: int)
    requires
        stands_between_children(s, k),
    ensures
        0 <= k,
{
}

proof fn lemma_insert_later(s: EventsView, k: int, extra: Seq<TokenView>)
    requires
        0 < k <= s.pending.len(),
    ensures
        with_tokens(s, k, extra).head() == s.head(),
        with_tokens(s, k, extra).advance() == with_tokens(s.advance(), k - 1, extra),
{
    let longer = with_tokens(s, k, extra);
    assert(longer.pending.skip(1) =~= s.pending.skip(1).take(k - 1) + extra + s.pending.skip(
        1,
    ).skip(k - 1));
}

/// An element that is passed over whole is passed over as well with more tokens behind it,
/// and those are left before the reader.
proof fn lemma_skip_leaves_the_rest(
    inner: Seq<TokenView>,
    more: Seq<TokenView>,
    at: Position,
    depth: nat,
)
    requires
        skip_to_end(EventsView { pending: inner, at }, depth).0 is Ok,
        skip_to_end(EventsView { pending: inner, at }, depth).1.pending.len() == 0,
    ensures
        skip_to_end(EventsView { pending: inner + more, at }, depth) == (
            Ok::<(), crate::error::ErrorView>(()),
            EventsView {
                pending: more,
                at: skip_to_end(EventsView { pending: inner, at }, depth).1.at,
            },
        ),
    decreases inner.len(),
{
    let s = EventsView { pending: inner, at };
    let longer = EventsView { pending: inner + more, at };
    assert(longer.pending.skip(1) =~= inner.skip(1) + more);
    match s.head() {
        EventView::StartElement { name, attributes } => {
            lemma_skip_leaves_the_rest(inner.skip(1), more, inner[0].position, depth + 1);
        },
        EventView::EndElement => {
            if depth > 0 {
                lemma_skip_leaves_the_rest(
                    inner.skip(1),
                    more,
                    inner[0].position,
                    (depth - 1) as nat,
                );
            }
        },
        EventView::Failure { message } => {},
        EventView::EndDocument => {},
        _ => {
            lemma_skip_leaves_the_rest(inner.skip(1), more, inner[0].position, depth);
        },
    }
}

/// Where an element is passed over, tokens behind its end change nothing of it: the reader
/// is left as without them, but for the tokens, which are still before it.
proof fn lemma_skip_ends_before(s: EventsView, depth: nat, k: int, extra: Seq<TokenView>)
    requires
        skip_to_end(s, depth).0 is Ok,
        s.pending.len() - skip_to_end(s, depth).1.pending.len() <= k <= s.pending.len(),
    ensures
        skip_to_end(with_tokens(s, k, extra), depth) == (
            skip_to_end(s, depth).0,
            with_tokens(
                skip_to_end(s, depth).1,
                k - (s.pending.len() - skip_to_end(s, depth).1.pending.len()),
                extra,
            ),
        ),
    decreases s.pending.len(),
{
    match s.head() {
        EventView::StartElement { name, attributes } => {
            lemma_skip_consumes(s.advance(), depth + 1);
            lemma_insert_later(s, k, extra);
            lemma_skip_ends_before(s.advance(), depth + 1, k - 1, extra);
        },
        EventView::EndElement => {
            if depth > 0 {
                lemma_skip_consumes(s.advance(), (depth - 1) as nat);
                lemma_insert_later(s, k, extra);
                lemma_skip_ends_before(s.advance(), (depth - 1) as nat, k - 1, extra);
            } else {
                lemma_insert_later(s, k, extra);
            }
        },
        EventView::Failure { message } => {},
        EventView::EndDocument => {},
        _ => {
            lemma_skip_consumes(s.advance(), depth);
            lemma_insert_later(s, k, extra);
            lemma_skip_ends_before(s.advance(), depth, k - 1, extra);
        },
    }
}

/// A whole unknown element before the reader is passed over, and the reader is left with
/// what was before it without the element.
proof fn lemma_unknown_element_is_skipped(s: EventsView, element: Seq<TokenView>)
    requires
        element.len() > 0,
        skip_element(EventsView { pending: element.skip(1), at: element[0].position }).0 is Ok,
        skip_element(
            EventsView { pending: element.skip(1), at: element[0].position },
        ).1.pending.len() == 0,
    ensures
        with_tokens(s, 0, element).pending.len() > 0,
        with_tokens(s, 0, element).pending[0] == element[0],
        skip_element(with_tokens(s, 0, element).advance()).0 is Ok,
        skip_element(with_tokens(s, 0, element).advance()).1.pending == s.pending,
{
    let longer = with_tokens(s, 0, element);
    assert(longer.pending.skip(1) =~= element.skip(1) + s.pending);
    lemma_skip_leaves_the_rest(element.skip(1), s.pending, element[0].position, 0);
}

/// A child of a node that is not a `tag` changes nothing: with such a child, whole and with
/// whatever it holds, put in between two children, before the first or behind the last, the
/// node is read as without it, and so is the failure, if there is one.
pub proof fn lemma_node_passes_over_unknown_child(
    node: NodeView,
    s: EventsView,
    k: int,
    element: Seq<TokenView>,
)
    requires
        stands_between_children(s, k),
        k < s.pending.len(),
        unknown_element(element, set!["tag"@]),
    ensures
        node_body(node, with_tokens(s, k, element)).0 == node_body(node, s).0,
    decreases s.pending.len(),
{
    if k == 0 {
        lemma_unknown_element_is_skipped(s, element);
        let behind = skip_element(with_tokens(s, 0, element).advance()).1;
        assert(node_body(node, behind) == node_body(node, s));
    } else {
        lemma_insert_later(s, k, element);
        lemma_skip_consumes(s.advance(), 0);
        if let Ok(Some((name, attributes))) = any_element(s) {
            if let Ok(next) = node_child(node, name, attributes, s.advance().at) {
                let rest = skip_element(s.advance()).1;
                let used = s.advance().pending.len() - rest.pending.len();
                lemma_stands_at_a_token(rest, k - 1 - used);
                lemma_skip_ends_before(s.advance(), 0, k - 1, element);
                lemma_node_passes_over_unknown_child(next, rest, k - 1 - used, element);
            }
        }
    }
}

/// Where an element is read to its end, tokens behind its end change nothing of it: the
/// reader is left as without them, but for the tokens, which are still before it.
proof fn lemma_node_body_ends_before(node: NodeView, s: EventsView, k: int, extra: Seq<TokenView>)
    requires
        node_body(node, s).0 is Ok,
        s.pending.len() - node_body(node, s).1.pending.len() <= k <= s.pending.len(),
    ensures
        node_body(node, with_tokens(s, k, extra)) == (
            node_body(node, s).0,
            with_tokens(
                node_body(node, s).1,
                k - (s.pending.len() - node_body(node, s).1.pending.len()),
                extra,
            ),
        ),
    decreases s.pending.len(),
{
    if let Ok(Some((name, attributes))) = any_element(s) {
        let next = node_child(node, name, attributes, s.advance().at)->Ok_0;
        let rest = skip_element(s.advance()).1;
        let used = s.advance().pending.len() - rest.pending.len();
        lemma_skip_consumes(s.advance(), 0);
        lemma_node_body_consumes(next, rest);
        lemma_insert_later(s, k, extra);
        lemma_skip_ends_before(s.advance(), 0, k - 1, extra);
        lemma_node_body_ends_before(next, rest, k - 1 - used, extra);
    } else {
        lemma_insert_later(s, k, extra);
    }
}

/// A child of a way that is neither an `nd` nor a `tag` changes nothing: with such a child,
/// whole and with whatever it holds, put in between two children, before the first or behind
/// the last, the way is read as without it, and so is the failure, if there is one.
pub proof fn lemma_way_passes_over_unknown_child(
    way: WayView,
    s: EventsView,
    k: int,
    element: Seq<TokenView>,
)
    requires
        stands_between_children(s, k),
        k < s.pending.len(),
        unknown_element(element, set!["nd"@, "tag"@]),
    ensures
        way_body(way, with_tokens(s, k, element)).0 == way_body(way, s).0,
    decreases s.pending.len(),
{
    if k == 0 {
        lemma_unknown_element_is_skipped(s, element);
        let behind = skip_element(with_tokens(s, 0, element).advance()).1;
        assert(way_body(way, behind) == way_body(way, s));
    } else {
        lemma_insert_later(s, k, element);
        lemma_skip_consumes(s.advance(), 0);
        if let Ok(Some((name, attributes))) = any_element(s) {
            if let Ok(next) = way_child(way, name, attributes, s.advance().at) {
                let rest = skip_element(s.advance()).1;
                let used = s.advance().pending.len() - rest.pending.len();
                lemma_stands_at_a_token(rest, k - 1 - used);
                lemma_skip_ends_before(s.advance(), 0, k - 1, element);
                lemma_way_passes_over_unknown_child(next, rest, k - 1 - used, element);
            }
        }
    }
}

/// Where an element is read to its end, tokens behind its end change nothing of it: the
/// reader is left as without them, but for the tokens, which are still before it.
proof fn lemma_way_body_ends_before(way: WayView, s: EventsView, k: int, extra: Seq<TokenView>)
    requires
        way_body(way, s).0 is Ok,
        s.pending.len() - way_body(way, s).1.pending.len() <= k <= s.pending.len(),
    ensures
        way_body(way, with_tokens(s, k, extra)) == (
            way_body(way, s).0,
            with_tokens(
                way_body(way, s).1,
                k - (s.pending.len() - way_body(way, s).1.pending.len()),
                extra,
            ),
        ),
    decreases s.pending.len(),
{
    if let Ok(Some((name, attributes))) = any_element(s) {
        let next = way_child(way, name, attributes, s.advance().at)->Ok_0;
        let rest = skip_element(s.advance()).1;
        let used = s.advance().pending.len() - rest.pending.len();
        lemma_skip_consumes(s.advance(), 0);
        lemma_way_body_consumes(next, rest);
        lemma_insert_later(s, k, extra);
        lemma_skip_ends_before(s.advance(), 0, k - 1, extra);
        lemma_way_body_ends_before(next, rest, k - 1 - used, extra);
    } else {
        lemma_insert_later(s, k, extra);
    }
}

/// A child of a relation that is neither a `member` nor a `tag` changes nothing: with such a
/// child, whole and with whatever it holds, put in between two children, before the first or
/// behind the last, the relation is read as without it, and so is the failure, if there is
/// one.
pub proof fn lemma_relation_passes_over_unknown_child(
    relation: RelationView,
    s: EventsView,
    k: int,
    element: Seq<TokenView>,
)
    requires
        stands_between_children(s, k),
        k < s.pending.len(),
        unknown_element(element, set!["member"@, "tag"@]),
    ensures
        relation_body(relation, with_tokens(s, k, element)).0 == relation_body(relation, s).0,
    decreases s.pending.len(),
{
    if k == 0 {
        lemma_unknown_element_is_skipped(s, element);
        let behind = skip_element(with_tokens(s, 0, element).advance()).1;
        assert(relation_body(relation, behind) == relation_body(relation, s));
    } else {
        lemma_insert_later(s, k, element);
        lemma_skip_consumes(s.advance(), 0);
        if let Ok(Some((name, attributes))) = any_element(s) {
            if let Ok(next) = relation_child(relation, name, attributes, s.advance().at) {
                let rest = skip_element(s.advance()).1;
                let used = s.advance().pending.len() - rest.pending.len();
                lemma_stands_at_a_token(rest, k - 1 - used);
                lemma_skip_ends_before(s.advance(), 0, k - 1, element);
                lemma_relation_passes_over_unknown_child(next, rest, k - 1 - used, element);
            }
        }
    }
}

/// Where an element is read to its end, tokens behind its end change nothing of it: the
/// reader is left as without them, but for the tokens, which are still before it.
proof fn lemma_relation_body_ends_before(relation: RelationView, s: EventsView, k: int, extra: Seq<TokenView>)
    requires
        relation_body(relation, s).0 is Ok,
        s.pending.len() - relation_body(relation, s).1.pending.len() <= k <= s.pending.len(),
    ensures
        relation_body(relation, with_tokens(s, k, extra)) == (
            relation_body(relation, s).0,
            with_tokens(
                relation_body(relation, s).1,
                k - (s.pending.len() - relation_body(relation, s).1.pending.len()),
                extra,
            ),
        ),
    decreases s.pending.len(),
{
    if let Ok(Some((name, attributes))) = any_element(s) {
        let next = relation_child(relation, name, attributes, s.advance().at)->Ok_0;
        let rest = skip_element(s.advance()).1;
        let used = s.advance().pending.len() - rest.pending.len();
        lemma_skip_consumes(s.advance(), 0);
        lemma_relation_body_consumes(next, rest);
        lemma_insert_later(s, k, extra);
        lemma_skip_ends_before(s.advance(), 0, k - 1, extra);
        lemma_relation_body_ends_before(next, rest, k - 1 - used, extra);
    } else {
        lemma_insert_later(s, k, extra);
    }
}

/// What is made of a document does not depend on the place that the reader had reached
/// before.
proof fn lemma_document_from_any_place(osm: OsmView, pending: Seq<TokenView>, a: Position, b: Position)
    ensures
        document(osm, EventsView { pending, at: a }).0 == document(
            osm,
            EventsView { pending, at: b },
        ).0,
{
}

/// Whether the reader of a document's body, having started in the state `s`, stands between
/// two top-level elements, or before the first or behind the last of them, when it has taken
/// `k` tokens: each of the elements before that place was read or passed over to its own
/// end-element.
pub open spec fn stands_between(s: EventsView, k: int) -> bool
    decreases s.pending.len(),
    via stands_between_decreases
{
    k == 0 || (k > 0 && match s.head() {
        EventView::StartElement { name, attributes } => if name == "node"@ {
            match node_element(attributes, s.advance()) {
                (Ok(_), rest) => stands_between(rest, k - (s.pending.len() - rest.pending.len())),
                _ => false,
            }
        } else if name == "way"@ {
            match way_element(attributes, s.advance()) {
                (Ok(_), rest) => stands_between(rest, k - (s.pending.len() - rest.pending.len())),
                _ => false,
            }
        } else if name == "relation"@ {
            match relation_element(attributes, s.advance()) {
                (Ok(_), rest) => stands_between(rest, k - (s.pending.len() - rest.pending.len())),
                _ => false,
            }
        } else {
            match skip_element(s.advance()) {
                (Ok(_), rest) => stands_between(rest, k - (s.pending.len() - rest.pending.len())),
                _ => false,
            }
        },
        _ => false,
    })
}

#[via_fn]
proof fn stands_between_decreases(s: EventsView, k: int) {
    if let EventView::StartElement { name, attributes } = s.head() {
        lemma_element_consumes(attributes, s.advance());
        lemma_skip_consumes(s.advance(), 0);
    }
}

/// A top-level element that is neither a `node`, a `way` nor a `relation` changes nothing:
/// with such an element, whole and with whatever it holds, put in wherever the reader stands
/// between top-level elements, the document is read as without it, and so is the failure, if
/// there is one.
pub proof fn lemma_document_passes_over_unknown_element(
    osm: OsmView,
    s: EventsView,
    k: int,
    element: Seq<TokenView>,
)
    requires
        stands_between(s, k),
        unknown_element(element, set!["node"@, "way"@, "relation"@]),
    ensures
        0 <= k <= s.pending.len(),
        document(osm, with_tokens(s, k, element)).0 == document(osm, s).0,
    decreases s.pending.len(),
{
    if k == 0 {
        lemma_unknown_element_is_skipped(s, element);
        let behind = skip_element(with_tokens(s, 0, element).advance()).1;
        lemma_document_from_any_place(osm, s.pending, behind.at, s.at);
    } else {
        let inner = s.advance();
        match s.head() {
            EventView::StartElement { name, attributes } => {
                lemma_element_consumes(attributes, inner);
                lemma_skip_consumes(inner, 0);
                if name == "node"@ {
                    let (r, rest) = node_element(attributes, inner);
                    let used = inner.pending.len() - rest.pending.len();
                    lemma_document_passes_over_unknown_element(
                        osm.add_node(r->Ok_0),
                        rest,
                        k - 1 - used,
                        element,
                    );
                    lemma_insert_later(s, k, element);
                    lemma_node_body_ends_before(
                        node_head(attributes, inner.at)->Ok_0,
                        inner,
                        k - 1,
                        element,
                    );
                } else if name == "way"@ {
                    let (r, rest) = way_element(attributes, inner);
                    let used = inner.pending.len() - rest.pending.len();
                    lemma_document_passes_over_unknown_element(
                        osm.add_way(r->Ok_0),
                        rest,
                        k - 1 - used,
                        element,
                    );
                    lemma_insert_later(s, k, element);
                    lemma_way_body_ends_before(
                        WayView::new(
                            required_integer(
                                attribute_value(attributes, "id"@),
                                inner.at,
                                "id"@,
                            )->Ok_0,
                        ),
                        inner,
                        k - 1,
                        element,
                    );
                } else if name == "relation"@ {
                    let (r, rest) = relation_element(attributes, inner);
                    let used = inner.pending.len() - rest.pending.len();
                    lemma_document_passes_over_unknown_element(
                        osm.add_relation(r->Ok_0),
                        rest,
                        k - 1 - used,
                        element,
                    );
                    lemma_insert_later(s, k, element);
                    lemma_relation_body_ends_before(
                        RelationView::new(
                            required_integer(
                                attribute_value(attributes, "id"@),
                                inner.at,
                                "id"@,
                            )->Ok_0,
                        ),
                        inner,
                        k - 1,
                        element,
                    );
                } else {
                    let rest = skip_element(inner).1;
                    let used = inner.pending.len() - rest.pending.len();
                    lemma_document_passes_over_unknown_element(osm, rest, k - 1 - used, element);
                    lemma_insert_later(s, k, element);
                    lemma_skip_ends_before(inner, 0, k - 1, element);
                }
            },
            _ => {},
        }
    }
}

//------------ Identifiers ---------------------------------------------------

/// Of two nodes of one identifier the first stays: adding the second changes nothing.
pub proof fn lemma_first_node_stays(osm: OsmView, first: NodeView, second: NodeView)
    requires
        first.id == second.id,
    ensures
        osm.add_node(first).add_node(second) == osm.add_node(first),
        osm.add_node(first).nodes[first.id] == if osm.nodes.contains_key(first.id) {
            osm.nodes[first.id]
        } else {
            first
        },
{
}

/// Of two ways of one identifier the first stays: adding the second changes nothing.
pub proof fn lemma_first_way_stays(osm: OsmView, first: WayView, second: WayView)
    requires
        first.id == second.id,
    ensures
        osm.add_way(first).add_way(second) == osm.add_way(first),
        osm.add_way(first).ways[first.id] == if osm.ways.contains_key(first.id) {
            osm.ways[first.id]
        } else {
            first
        },
{
}

/// Of two relations of one identifier the first stays: adding the second changes nothing.
pub proof fn lemma_first_relation_stays(osm: OsmView, first: RelationView, second: RelationView)
    requires
        first.id == second.id,
    ensures
        osm.add_relation(first).add_relation(second) == osm.add_relation(first),
        osm.add_relation(first).relations[first.id] == if osm.relations.contains_key(first.id) {
            osm.relations[first.id]
        } else {
            first
        },
{
}

/// One of the elements that a document declares at its top level.
pub enum Item {
    Node(NodeView),
    Way(WayView),
    Relation(RelationView),
}

/// The data set with `item` added, unless an element of its kind and identifier is there
/// already.
pub open spec fn add_item(osm: OsmView, item: Item) -> OsmView {
    match item {
        Item::Node(node) => osm.add_node(node),
        Item::Way(way) => osm.add_way(way),
        Item::Relation(relation) => osm.add_relation(relation),
    }
}

/// The data set that `osm` becomes when each of `items` is added in turn.
pub open spec fn gather(osm: OsmView, items: Seq<Item>) -> OsmView
    decreases items.len(),
{
    if items.len() == 0 {
        osm
    } else {
        gather(add_item(osm, items[0]), items.skip(1))
    }
}

/// The identifiers of the nodes among `items`, in order.
pub open spec fn node_ids(items: Seq<Item>) -> Seq<i64>
    decreases items.len(),
{
    if items.len() == 0 {
        Seq::empty()
    } else {
        match items[0] {
            Item::Node(node) => seq![node.id] + node_ids(items.skip(1)),
            _ => node_ids(items.skip(1)),
        }
    }
}

/// The nodes, ways and relations that the top-level elements before the reader declare, in
/// the order of the elements, as far as the reader gets: to the end of the document, or to
/// the first failure.
pub open spec fn declared(s: EventsView) -> Seq<Item>
    decreases s.pending.len(),
    via declared_decreases
{
    match s.head() {
        EventView::StartElement { name, attributes } => if name == "node"@ {
            match node_element(attributes, s.advance()) {
                (Ok(node), rest) => seq![Item::Node(node)] + declared(rest),
                _ => Seq::empty(),
            }
        } else if name == "way"@ {
            match way_element(attributes, s.advance()) {
                (Ok(way), rest) => seq![Item::Way(way)] + declared(rest),
                _ => Seq::empty(),
            }
        } else if name == "relation"@ {
            match relation_element(attributes, s.advance()) {
                (Ok(relation), rest) => seq![Item::Relation(relation)] + declared(rest),
                _ => Seq::empty(),
            }
        } else {
            match skip_element(s.advance()) {
                (Ok(_), rest) => declared(rest),
                _ => Seq::empty(),
            }
        },
        _ => Seq::empty(),
    }
}

#[via_fn]
proof fn declared_decreases(s: EventsView) {
    if let EventView::StartElement { name, attributes } = s.head() {
        lemma_element_consumes(attributes, s.advance());
        lemma_skip_consumes(s.advance(), 0);
    }
}

/// Where a document is read to its end, the data set is what its top-level elements
/// declare, added in the order in which they stand.
pub proof fn lemma_document_gathers(osm: OsmView, s: EventsView)
    requires
        document(osm, s).0 is Ok,
    ensures
        document(osm, s).0->Ok_0 == gather(osm, declared(s)),
    decreases s.pending.len(),
{
    if let EventView::StartElement { name, attributes } = s.head() {
        let inner = s.advance();
        lemma_element_consumes(attributes, inner);
        lemma_skip_consumes(inner, 0);
        if name == "node"@ {
            let (r, rest) = node_element(attributes, inner);
            lemma_document_gathers(osm.add_node(r->Ok_0), rest);
            assert(declared(s).skip(1) =~= declared(rest));
        } else if name == "way"@ {
            let (r, rest) = way_element(attributes, inner);
            lemma_document_gathers(osm.add_way(r->Ok_0), rest);
            assert(declared(s).skip(1) =~= declared(rest));
        } else if name == "relation"@ {
            let (r, rest) = relation_element(attributes, inner);
            lemma_document_gathers(osm.add_relation(r->Ok_0), rest);
            assert(declared(s).skip(1) =~= declared(rest));
        } else {
            lemma_document_gathers(osm, skip_element(inner).1);
        }
    }
}

/// Adding elements keeps every element under its own identifier.
pub proof fn lemma_gather_keeps_keys(osm: OsmView, items: Seq<Item>)
    requires
        osm.keyed(),
    ensures
        gather(osm, items).keyed(),
    decreases items.len(),
{
    if items.len() > 0 {
        lemma_gather_keeps_keys(add_item(osm, items[0]), items.skip(1));
    }
}

/// Adding elements other than nodes leaves the nodes as they are, and adding nodes whose
/// identifiers differ from each other and from those that are there adds every one of them.
pub proof fn lemma_gather_counts_nodes(osm: OsmView, items: Seq<Item>)
    requires
        osm.nodes.dom().finite(),
        node_ids(items).no_duplicates(),
        forall|i: int| 0 <= i < node_ids(items).len() ==> !osm.nodes.contains_key(
            #[trigger] node_ids(items)[i],
        ),
    ensures
        gather(osm, items).nodes.dom().finite(),
        gather(osm, items).nodes.len() == osm.nodes.len() + node_ids(items).len(),
    decreases items.len(),
{
    if items.len() > 0 {
        let next = add_item(osm, items[0]);
        let rest = items.skip(1);
        let ids = node_ids(items);
        match items[0] {
            Item::Node(node) => {
                assert(ids[0] == node.id);
                assert forall|i: int| 0 <= i < node_ids(rest).len() implies !next.nodes.contains_key(
                    #[trigger] node_ids(rest)[i],
                ) by {
                    assert(node_ids(rest)[i] == ids[i + 1]);
                }
                assert(node_ids(rest).no_duplicates()) by {
                    assert forall|i: int, j: int|
                        0 <= i < node_ids(rest).len() && 0 <= j < node_ids(rest).len() && i
                            != j implies node_ids(rest)[i] != node_ids(rest)[j] by {
                        assert(node_ids(rest)[i] == ids[i + 1]);
                        assert(node_ids(rest)[j] == ids[j + 1]);
                    }
                }
                lemma_gather_counts_nodes(next, rest);
            },
            _ => {
                lemma_gather_counts_nodes(next, rest);
            },
        }
    }
}

/// The state of the reader of a whole document where it turns to the top-level elements:
/// behind the opening tag of the root element.
pub open spec fn body(tokens: Seq<TokenView>) -> EventsView {
    prologue(fresh(tokens)).advance()
}

/// A document that is read to its end and whose nodes all differ in their identifiers gives
/// a data set with as many nodes as the document declares.
pub proof fn lemma_distinct_nodes_all_kept(tokens: Seq<TokenView>)
    requires
        read_result(tokens) is Ok,
        node_ids(declared(body(tokens))).no_duplicates(),
    ensures
        read_result(tokens)->Ok_0 == gather(OsmView::empty(), declared(body(tokens))),
        read_result(tokens)->Ok_0.nodes.dom().finite(),
        read_result(tokens)->Ok_0.nodes.len() == node_ids(declared(body(tokens))).len(),
{
    lemma_document_gathers(OsmView::empty(), body(tokens));
    lemma_gather_counts_nodes(OsmView::empty(), declared(body(tokens)));
}

/// In a data set that was read from a document every element is found under its own
/// identifier.
pub proof fn lemma_read_result_keyed(tokens: Seq<TokenView>)
    requires
        read_result(tokens) is Ok,
    ensures
        read_result(tokens)->Ok_0.keyed(),
{
    lemma_document_gathers(OsmView::empty(), body(tokens));
    lemma_gather_keeps_keys(OsmView::empty(), declared(body(tokens)));
}

} // verus!
