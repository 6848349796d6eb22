//! The elements of an OpenStreetMap data set: nodes, ways and relations, each with its tags.

use std::collections::HashMap;
use vstd::prelude::*;
use vstd::hash_map::StringHashMap;
use vstd::string::*;
use crate::coordinate::Coordinate;
use crate::text::same_text;

verus! {

broadcast use vstd::std_specs::hash::group_hash_axioms;

//------------ Tags ----------------------------------------------------------

/// The tags of one element: a value for each key, and no key twice.
pub struct Tags(StringHashMap<String>);

impl View for Tags {
    type V = Map<Seq<char>, Seq<char>>;

    closed spec fn view(&self) -> Map<Seq<char>, Seq<char>> {
        self.0@.map_values(|value: String| value@)
    }
}

impl Tags {
    /// No tags.
    pub fn new() -> (tags: Tags)
        ensures
            tags@ == Map::<Seq<char>, Seq<char>>::empty(),
    {
        let tags = Tags(StringHashMap::new());
        tags
    }

    /// Gives `key` the value `value`, in place of the one it had, if any.
    pub fn insert(&mut self, key: String, value: String)
        ensures
            final(self)@ == old(self)@.insert(key@, value@),
    {
        self.0.insert(key, value);
    }

    /// Takes `key` out and returns the value it had, if any.
    pub fn remove(&mut self, key: &str) -> (previous: Option<String>)
        ensures
            final(self)@ == old(self)@.remove(key@),
            match previous {
                Some(value) => old(self)@.contains_key(key@) && value@ == old(self)@[key@],
                None => !old(self)@.contains_key(key@),
            },
    {
        let previous = match self.0.get(key) {
            Some(value) => Some(value.clone()),
            None => None,
        };
        self.0.remove(key);
        previous
    }

    /// Whether `key` has a value.
    pub fn has(&self, key: &str) -> (present: bool)
        ensures
            present == self@.contains_key(key@),
    {
        self.0.contains_key(key)
    }

    /// The value of `key`, if it has one.
    pub fn get(&self, key: &str) -> (value: Option<&str>)
        ensures
            match value {
                Some(text) => self@.contains_key(key@) && text@ == self@[key@],
                None => !self@.contains_key(key@),
            },
    {
        match self.0.get(key) {
            Some(value) => Some(value.as_str()),
            None => None,
        }
    }
}

//------------ MemberType ----------------------------------------------------

/// The kind of element that a member of a relation refers to.
#[derive(Clone, Copy, Debug, Eq, PartialEq, Structural)]
pub enum MemberType {
    Way,
    Node,
    Relation,
}

impl View for MemberType {
    type V = MemberType;

    open spec fn view(&self) -> MemberType {
        *self
    }
}

/// The kind that `raw` names: `way`, `node` or `relation`, and nothing else.
pub open spec fn member_type_of(raw: Seq<char>) -> Option<MemberType> {
    if raw == "way"@ {
        Some(MemberType::Way)
    } else if raw == "node"@ {
        Some(MemberType::Node)
    } else if raw == "relation"@ {
        Some(MemberType::Relation)
    } else {
        None
    }
}

impl MemberType {
    /// Reads a kind out of attribute text. Text that names no kind comes back in a message.
    pub fn from_str(s: &str) -> (r: Result<MemberType, String>)
        ensures
            match r {
                Ok(mtype) => member_type_of(s@) == Some(mtype),
                Err(message) => member_type_of(s@) is None && message@ == "invalid member type '"@
                    + s@ + "'"@,
            },
    {
        if same_text(s, "way") {
            Ok(MemberType::Way)
        } else if same_text(s, "node") {
            Ok(MemberType::Node)
        } else if same_text(s, "relation") {
            Ok(MemberType::Relation)
        } else {
            let mut message = "invalid member type '".to_owned();
            message.append(s);
            message.append("'");
            Err(message)
        }
    }
}

impl core::str::FromStr for MemberType {
    type Err = String;

    /// Reads a kind out of attribute text, as [`MemberType::from_str`] does.
    fn from_str(s: &str) -> (r: Result<MemberType, String>)
        ensures
            match r {
                Ok(mtype) => member_type_of(s@) == Some(mtype),
                Err(message) => member_type_of(s@) is None && message@ == "invalid member type '"@
                    + s@ + "'"@,
            },
    {
        MemberType::from_str(s)
    }
}

//------------ Member --------------------------------------------------------

/// One entry of a relation: the kind and identifier of an element, and the role it plays.
#[derive(Clone, Debug, PartialEq, Eq)]
pub struct Member {
    mtype: MemberType,
    id: i64,
    role: String,
}

/// The mathematical content of a [`Member`].
pub struct MemberView {
    pub mtype: MemberType,
    pub id: i64,
    pub role: Seq<char>,
}

impl View for Member {
    type V = MemberView;

    closed spec fn view(&self) -> MemberView {
        MemberView { mtype: self.mtype, id: self.id, role: self.role@ }
    }
}

/// The contents of a list of members, in order.
pub open spec fn member_views(members: Seq<Member>) -> Seq<MemberView> {
    members.map_values(|m: Member| m@)
}

impl Member {
    pub fn new(mtype: MemberType, id: i64, role: String) -> (member: Member)
        ensures
            member@ == (MemberView { mtype, id, role: role@ }),
    {
        Member { mtype, id, role }
    }

    pub fn mtype(&self) -> (mtype: MemberType)
        ensures
            mtype == self@.mtype,
    {
        self.mtype
    }

    pub fn id(&self) -> (id: i64)
        ensures
            id == self@.id,
    {
        self.id
    }

    pub fn role(&self) -> (role: &str)
        ensures
            role@ == self@.role,
    {
        self.role.as_str()
    }
}

//------------ Node ----------------------------------------------------------

/// A point on the map.
pub struct Node {
    id: i64,
    lat: Coordinate,
    lon: Coordinate,
    tags: Tags,
}

/// The mathematical content of a [`Node`].
pub struct NodeView {
    pub id: i64,
    pub lat: Seq<char>,
    pub lon: Seq<char>,
    pub tags: Map<Seq<char>, Seq<char>>,
}

impl NodeView {
    /// A node without tags.
    pub open spec fn new(id: i64, lat: Seq<char>, lon: Seq<char>) -> NodeView {
        NodeView { id, lat, lon, tags: Map::empty() }
    }

    pub open spec fn insert_tag(self, key: Seq<char>, value: Seq<char>) -> NodeView {
        NodeView { tags: self.tags.insert(key, value), ..self }
    }
}

impl View for Node {
    type V = NodeView;

    closed spec fn view(&self) -> NodeView {
        NodeView { id: self.id, lat: self.lat@, lon: self.lon@, tags: self.tags@ }
    }
}

impl Node {
    pub fn new(id: i64, lat: Coordinate, lon: Coordinate) -> (node: Node)
        ensures
            node@ == NodeView::new(id, lat@, lon@),
    {
        Node { id, lat, lon, tags: Tags::new() }
    }

    pub fn set_lat(&mut self, lat: Coordinate)
        ensures
            final(self)@ == (NodeView { lat: lat@, ..old(self)@ }),
    {
        self.lat = lat
    }

    pub fn set_lon(&mut self, lon: Coordinate)
        ensures
            final(self)@ == (NodeView { lon: lon@, ..old(self)@ }),
    {
        self.lon = lon
    }

    pub fn insert_tag(&mut self, key: String, value: String)
        ensures
            final(self)@ == old(self)@.insert_tag(key@, value@),
    {
        self.tags.insert(key, value);
    }

    pub fn id(&self) -> (id: i64)
        ensures
            id == self@.id,
    {
        self.id
    }

    pub fn lat(&self) -> (lat: &Coordinate)
        ensures
            lat@ == self@.lat,
    {
        &self.lat
    }

    pub fn lon(&self) -> (lon: &Coordinate)
        ensures
            lon@ == self@.lon,
    {
        &self.lon
    }

    pub fn tags(&self) -> (tags: &Tags)
        ensures
            tags@ == self@.tags,
    {
        &self.tags
    }
}

//------------ Way -----------------------------------------------------------

/// A path through nodes, which it names by their identifiers, in order.
pub struct Way {
    id: i64,
    nodes: Vec<i64>,
    tags: Tags,
}

/// The mathematical content of a [`Way`].
pub struct WayView {
    pub id: i64,
    pub nodes: Seq<i64>,
    pub tags: Map<Seq<char>, Seq<char>>,
}

impl WayView {
    /// A way without nodes and without tags.
    pub open spec fn new(id: i64) -> WayView {
        WayView { id, nodes: Seq::empty(), tags: Map::empty() }
    }

    pub open spec fn push_node(self, id: i64) -> WayView {
        WayView { nodes: self.nodes.push(id), ..self }
    }

    pub open spec fn insert_tag(self, key: Seq<char>, value: Seq<char>) -> WayView {
        WayView { tags: self.tags.insert(key, value), ..self }
    }
}

impl View for Way {
    type V = WayView;

    closed spec fn view(&self) -> WayView {
        WayView { id: self.id, nodes: self.nodes@, tags: self.tags@ }
    }
}

impl Way {
    pub fn new(id: i64) -> (way: Way)
        ensures
            way@ == WayView::new(id),
    {
        Way { id, nodes: Vec::new(), tags: Tags::new() }
    }

    pub fn push_node(&mut self, id: i64)
        ensures
            final(self)@ == old(self)@.push_node(id),
    {
        self.nodes.push(id)
    }

    pub fn insert_tag(&mut self, key: String, value: String)
        ensures
            final(self)@ == old(self)@.insert_tag(key@, value@),
    {
        self.tags.insert(key, value);
    }

    pub fn id(&self) -> (id: i64)
        ensures
            id == self@.id,
    {
        self.id
    }

    pub fn nodes(&self) -> (nodes: &[i64])
        ensures
            nodes@ == self@.nodes,
    {
        self.nodes.as_slice()
    }

    pub fn tags(&self) -> (tags: &Tags)
        ensures
            tags@ == self@.tags,
    {
        &self.tags
    }
}

//------------ Relation ------------------------------------------------------

/// A group of elements, each in a role, in order.
pub struct Relation {
    id: i64,
    members: Vec<Member>,
    tags: Tags,
}

/// The mathematical content of a [`Relation`].
pub struct RelationView {
    pub id: i64,
    pub members: Seq<MemberView>,
    pub tags: Map<Seq<char>, Seq<char>>,
}

impl RelationView {
    /// A relation without members and without tags.
    pub open spec fn new(id: i64) -> RelationView {
        RelationView { id, members: Seq::empty(), tags: Map::empty() }
    }

    pub open spec fn push_member(self, member: MemberView) -> RelationView {
        RelationView { members: self.members.push(member), ..self }
    }

    pub open spec fn insert_tag(self, key: Seq<char>, value: Seq<char>) -> RelationView {
        RelationView { tags: self.tags.insert(key, value), ..self }
    }
}

impl View for Relation {
    type V = RelationView;

    closed spec fn view(&self) -> RelationView {
        RelationView { id: self.id, members: member_views(self.members@), tags: self.tags@ }
    }
}

impl Relation {
    pub fn new(id: i64) -> (relation: Relation)
        ensures
            relation@ == RelationView::new(id),
    {
        let relation = Relation { id, members: Vec::new(), tags: Tags::new() };
        assert(relation@.members =~= Seq::<MemberView>::empty());
        relation
    }

    pub fn push_member(&mut self, member: Member)
        ensures
            final(self)@ == old(self)@.push_member(member@),
    {
        self.members.push(member);
        assert(self@.members =~= old(self)@.members.push(member@));
    }

    pub fn insert_tag(&mut self, key: String, value: String)
        ensures
            final(self)@ == old(self)@.insert_tag(key@, value@),
    {
        self.tags.insert(key, value)
    }

    pub fn id(&self) -> (id: i64)
        ensures
            id == self@.id,
    {
        self.id
    }

    pub fn members(&self) -> (members: &[Member])
        ensures
            member_views(members@) == self@.members,
    {
        self.members.as_slice()
    }

    pub fn tags(&self) -> (tags: &Tags)
        ensures
            tags@ == self@.tags,
    {
        &self.tags
    }

    pub fn tags_mut(&mut self) -> (tags: &mut Tags)
        ensures
            tags@ == old(self)@.tags,
            final(self)@ == (RelationView { tags: final(tags)@, ..old(self)@ }),
    {
        &mut self.tags
    }
}

//------------ Osm -----------------------------------------------------------

/// A data set: nodes, ways and relations, each kind keyed by identifier.
pub struct Osm {
    nodes: HashMap<i64, Node>,
    ways: HashMap<i64, Way>,
    relations: HashMap<i64, Relation>,
}

/// The mathematical content of an [`Osm`].
pub struct OsmView {
    pub nodes: Map<i64, NodeView>,
    pub ways: Map<i64, WayView>,
    pub relations: Map<i64, RelationView>,
}

/// The contents of a collection of nodes.
pub open spec fn node_views(nodes: Map<i64, Node>) -> Map<i64, NodeView> {
    nodes.map_values(|n: Node| n@)
}

/// The contents of a collection of ways.
pub open spec fn way_views(ways: Map<i64, Way>) -> Map<i64, WayView> {
    ways.map_values(|w: Way| w@)
}

/// The contents of a collection of relations.
pub open spec fn relation_views(relations: Map<i64, Relation>) -> Map<i64, RelationView> {
    relations.map_values(|r: Relation| r@)
}

impl OsmView {
    /// The data set that holds nothing.
    pub open spec fn empty() -> OsmView {
        OsmView { nodes: Map::empty(), ways: Map::empty(), relations: Map::empty() }
    }

    /// The data set with `node` added, unless a node of that identifier is there already.
    pub open spec fn add_node(self, node: NodeView) -> OsmView {
        if self.nodes.contains_key(node.id) {
            self
        } else {
            OsmView { nodes: self.nodes.insert(node.id, node), ..self }
        }
    }

    /// The data set with `way` added, unless a way of that identifier is there already.
    pub open spec fn add_way(self, way: WayView) -> OsmView {
        if self.ways.contains_key(way.id) {
            self
        } else {
            OsmView { ways: self.ways.insert(way.id, way), ..self }
        }
    }

    /// The data set with `relation` added, unless a relation of that identifier is there
    /// already.
    pub open spec fn add_relation(self, relation: RelationView) -> OsmView {
        if self.relations.contains_key(relation.id) {
            self
        } else {
            OsmView { relations: self.relations.insert(relation.id, relation), ..self }
        }
    }

    /// Whether every element is found under its own identifier.
    pub open spec fn keyed(self) -> bool {
        &&& forall|id: i64| #[trigger] self.nodes.contains_key(id) ==> self.nodes[id].id == id
        &&& forall|id: i64| #[trigger] self.ways.contains_key(id) ==> self.ways[id].id == id
        &&& forall|id: i64| #[trigger]
            self.relations.contains_key(id) ==> self.relations[id].id == id
    }
}

impl View for Osm {
    type V = OsmView;

    closed spec fn view(&self) -> OsmView {
        OsmView {
            nodes: node_views(self.nodes@),
            ways: way_views(self.ways@),
            relations: relation_views(self.relations@),
        }
    }
}

impl Osm {
    pub fn new() -> (osm: Osm)
        ensures
            osm@ == OsmView::empty(),
    {
        let osm = Osm { nodes: HashMap::new(), ways: HashMap::new(), relations: HashMap::new() };
        assert(osm@.nodes =~= Map::<i64, NodeView>::empty());
        assert(osm@.ways =~= Map::<i64, WayView>::empty());
        assert(osm@.relations =~= Map::<i64, RelationView>::empty());
        osm
    }

    /// Adds `node` unless a node of its identifier is there already, in which case the data
    /// set stays as it is. Returns whether the node was added.
    pub fn add_node(&mut self, node: Node) -> (added: bool)
        ensures
            added == !old(self)@.nodes.contains_key(node@.id),
            final(self)@ == old(self)@.add_node(node@),
    {
        let id = node.id();
        if self.nodes.contains_key(&id) {
            false
        } else {
            self.nodes.insert(id, node);
            assert(self@.nodes =~= old(self)@.nodes.insert(id, node@));
            true
        }
    }

    /// Adds `way` unless a way of its identifier is there already, in which case the data set
    /// stays as it is. Returns whether the way was added.
    pub fn add_way(&mut self, way: Way) -> (added: bool)
        ensures
            added == !old(self)@.ways.contains_key(way@.id),
            final(self)@ == old(self)@.add_way(way@),
    {
        let id = way.id();
        if self.ways.contains_key(&id) {
            false
        } else {
            self.ways.insert(id, way);
            assert(self@.ways =~= old(self)@.ways.insert(id, way@));
            true
        }
    }

    /// Adds `rel` unless a relation of its identifier is there already, in which case the
    /// data set stays as it is. Returns whether the relation was added.
    pub fn add_relation(&mut self, rel: Relation) -> (added: bool)
        ensures
            added == !old(self)@.relations.contains_key(rel@.id),
            final(self)@ == old(self)@.add_relation(rel@),
    {
        let id = rel.id();
        if self.relations.contains_key(&id) {
            false
        } else {
            self.relations.insert(id, rel);
            assert(self@.relations =~= old(self)@.relations.insert(id, rel@));
            true
        }
    }

    /// Takes the data set apart into its three collections.
    pub fn into_inner(self) -> (parts: (HashMap<i64, Node>, HashMap<i64, Way>, HashMap<i64, Relation>))
        ensures
            node_views(parts.0@) == self@.nodes,
            way_views(parts.1@) == self@.ways,
            relation_views(parts.2@) == self@.relations,
    {
        (self.nodes, self.ways, self.relations)
    }

    pub fn nodes(&self) -> (nodes: &HashMap<i64, Node>)
        ensures
            node_views(nodes@) == self@.nodes,
    {
        &self.nodes
    }

    pub fn has_node(&self, id: i64) -> (present: bool)
        ensures
            present == self@.nodes.contains_key(id),
    {
        self.nodes.contains_key(&id)
    }

    pub fn get_node(&self, id: i64) -> (node: Option<&Node>)
        ensures
            match node {
                Some(n) => self@.nodes.contains_key(id) && n@ == self@.nodes[id],
                None => !self@.nodes.contains_key(id),
            },
    {
        self.nodes.get(&id)
    }

    pub fn ways(&self) -> (ways: &HashMap<i64, Way>)
        ensures
            way_views(ways@) == self@.ways,
    {
        &self.ways
    }

    pub fn has_way(&self, id: i64) -> (present: bool)
        ensures
            present == self@.ways.contains_key(id),
    {
        self.ways.contains_key(&id)
    }

    pub fn get_way(&self, id: i64) -> (way: Option<&Way>)
        ensures
            match way {
                Some(w) => self@.ways.contains_key(id) && w@ == self@.ways[id],
                None => !self@.ways.contains_key(id),
            },
    {
        self.ways.get(&id)
    }

    pub fn relations(&self) -> (relations: &HashMap<i64, Relation>)
        ensures
            relation_views(relations@) == self@.relations,
    {
        &self.relations
    }

    /// The relations, open to change. What is done to them is done to the data set.
    pub fn relations_mut(&mut self) -> (relations: &mut HashMap<i64, Relation>)
        ensures
            relation_views(relations@) == old(self)@.relations,
            final(self)@ == (OsmView {
                relations: relation_views(final(relations)@),
                ..old(self)@
            }),
    {
        &mut self.relations
    }

    pub fn has_relation(&self, id: i64) -> (present: bool)
        ensures
            present == self@.relations.contains_key(id),
    {
        self.relations.contains_key(&id)
    }

    pub fn get_relation(&self, id: i64) -> (relation: Option<&Relation>)
        ensures
            match relation {
                Some(r) => self@.relations.contains_key(id) && r@ == self@.relations[id],
                None => !self@.relations.contains_key(id),
            },
    {
        self.relations.get(&id)
    }
}

} // verus!
