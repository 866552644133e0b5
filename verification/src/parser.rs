use vstd::prelude::*;
use vstd::utf8::encode_utf8;
use vstd::utf8::encode_utf8_decode_utf8;
use crate::attributes::blank_header;
use crate::attributes::blank_member;
use crate::attributes::header_from;
use crate::attributes::is_word;
use crate::attributes::lemma_header_has_coordinates;
use crate::attributes::member_from;
use crate::attributes::named;
use crate::attributes::node_ref_from;
use crate::attributes::read_header;
use crate::attributes::read_member;
use crate::attributes::read_node_ref;
use crate::attributes::read_tag;
use crate::attributes::tag_from;
use crate::attributes::HeaderView;
use crate::attributes::MemberDraft;
use crate::attributes::MemberDraftView;
use crate::member::member_id;
use crate::member::Member;
use crate::member::MemberView;
use crate::node::Node;
use crate::node::NodeView;
use crate::relation::Relation;
use crate::relation::RelationView;
use crate::tag::Tag;
use crate::tag::TagView;
use crate::utils::result_view;
use crate::utils::views;
use crate::utils::MapsType;
use crate::utils::ParseError;
use crate::way::Way;
use crate::way::WayView;
use crate::xml::is_event_stream;
use crate::xml::lemma_rest_is_event_stream;
use crate::xml::next_event;
use crate::xml::open_reader;
use crate::xml::pending;
use crate::xml::xml_events;
use crate::xml::Element;
use crate::xml::ElementView;
use crate::xml::XmlEvent;
use crate::xml::XmlEventView;

verus! {

/// The three kinds of entity that a document holds.
#[derive(Debug, Clone, Copy, PartialEq, Eq, Structural)]
pub enum EntityKind {
    Node,
    Way,
    Relation,
}

/// The entities of a document, each kind in document order.
#[derive(Debug)]
pub struct OsmData {
    pub nodes: Vec<Node>,
    pub ways: Vec<Way>,
    pub relations: Vec<Relation>,
}

/// What an `OsmData` stands for.
pub struct OsmDataView {
    pub nodes: Seq<NodeView>,
    pub ways: Seq<WayView>,
    pub relations: Seq<RelationView>,
}

impl View for OsmData {
    type V = OsmDataView;

    open spec fn view(&self) -> OsmDataView {
        OsmDataView {
            nodes: views(self.nodes@),
            ways: views(self.ways@),
            relations: views(self.relations@),
        }
    }
}

/// The state of a reading: the entities found so far, and the kind of the
/// entity that is open, to which a tag belongs: the one that was opened
/// last, unless its closing tag was read since.
#[derive(Debug)]
pub struct Parser {
    pub data: OsmData,
    pub current: Option<EntityKind>,
}

/// What a `Parser` stands for.
pub struct ParserView {
    pub data: OsmDataView,
    pub current: Option<EntityKind>,
}

impl View for Parser {
    type V = ParserView;

    open spec fn view(&self) -> ParserView {
        ParserView { data: self.data@, current: self.current }
    }
}

/// The node that a header describes, without tags yet.
pub open spec fn node_of(header: HeaderView) -> NodeView {
    NodeView {
        id: header.id,
        lat: header.lat,
        lon: header.lon,
        version: header.version,
        timestamp: header.timestamp,
        changeset: header.changeset,
        uid: header.uid,
        user: header.user,
        tags: Seq::empty(),
    }
}

/// The way that a header describes, without node references or tags yet.
pub open spec fn way_of(header: HeaderView) -> WayView {
    WayView {
        id: header.id,
        version: header.version,
        timestamp: header.timestamp,
        changeset: header.changeset,
        uid: header.uid,
        user: header.user,
        node_refs: Seq::empty(),
        tags: Seq::empty(),
    }
}

/// The relation that a header describes, without members or tags yet.
pub open spec fn relation_of(header: HeaderView) -> RelationView {
    RelationView {
        id: header.id,
        version: header.version,
        timestamp: header.timestamp,
        changeset: header.changeset,
        uid: header.uid,
        user: header.user,
        members: Seq::empty(),
        tags: Seq::empty(),
    }
}

/// The member of relation `relation_id` that a complete draft describes.
pub open spec fn member_of(relation_id: i64, draft: MemberDraftView) -> MemberView {
    let kind = draft.kind.unwrap();
    let ref_id = draft.ref_id.unwrap();
    let role = draft.role.unwrap();
    MemberView { id: member_id(relation_id, ref_id, kind.name(), role), ref_id, maps_type: kind, role }
}

impl ParserView {
    /// The state before anything is read.
    pub open spec fn start() -> ParserView {
        ParserView {
            data: OsmDataView { nodes: Seq::empty(), ways: Seq::empty(), relations: Seq::empty() },
            current: None,
        }
    }

    /// The state once a node is opened.
    pub open spec fn with_node(self, node: NodeView) -> ParserView {
        ParserView {
            data: OsmDataView { nodes: self.data.nodes.push(node), ..self.data },
            current: Some(EntityKind::Node),
        }
    }

    /// The state once a way is opened.
    pub open spec fn with_way(self, way: WayView) -> ParserView {
        ParserView {
            data: OsmDataView { ways: self.data.ways.push(way), ..self.data },
            current: Some(EntityKind::Way),
        }
    }

    /// The state once a relation is opened.
    pub open spec fn with_relation(self, relation: RelationView) -> ParserView {
        ParserView {
            data: OsmDataView { relations: self.data.relations.push(relation), ..self.data },
            current: Some(EntityKind::Relation),
        }
    }

    /// The state once a tag is added to the entity that is open: the one
    /// that was opened last, of whichever kind it is, unless it is closed
    /// since. Where no entity is open a tag is dropped.
    pub open spec fn with_tag(self, tag: TagView) -> ParserView {
        let data = self.data;
        match self.current {
            Some(EntityKind::Node) if data.nodes.len() > 0 => {
                let node = data.nodes.last();
                let tagged = NodeView { tags: node.tags.push(tag), ..node };
                ParserView {
                    data: OsmDataView { nodes: data.nodes.drop_last().push(tagged), ..data },
                    ..self
                }
            },
            Some(EntityKind::Way) if data.ways.len() > 0 => {
                let way = data.ways.last();
                let tagged = WayView { tags: way.tags.push(tag), ..way };
                ParserView {
                    data: OsmDataView { ways: data.ways.drop_last().push(tagged), ..data },
                    ..self
                }
            },
            Some(EntityKind::Relation) if data.relations.len() > 0 => {
                let relation = data.relations.last();
                let tagged = RelationView { tags: relation.tags.push(tag), ..relation };
                ParserView {
                    data: OsmDataView {
                        relations: data.relations.drop_last().push(tagged),
                        ..data
                    },
                    ..self
                }
            },
            _ => self,
        }
    }

    /// The state once a node reference is added to the way that was opened
    /// last. Before any way is opened a node reference is dropped.
    pub open spec fn with_node_ref(self, node_ref: i64) -> ParserView {
        let data = self.data;
        if data.ways.len() > 0 {
            let way = data.ways.last();
            let longer = WayView { node_refs: way.node_refs.push(node_ref), ..way };
            ParserView {
                data: OsmDataView { ways: data.ways.drop_last().push(longer), ..data },
                ..self
            }
        } else {
            self
        }
    }

    /// The state once a member is added to the relation that was opened
    /// last. A member is added only where its kind, its target and its role
    /// are all given and the kind is node, way or relation: any other is
    /// dropped, and so is any member before a relation is opened.
    pub open spec fn with_member(self, draft: MemberDraftView) -> ParserView {
        let data = self.data;
        if data.relations.len() > 0 && draft.is_complete() {
            let relation = data.relations.last();
            let member = member_of(relation.id, draft);
            let longer = RelationView { members: relation.members.push(member), ..relation };
            ParserView {
                data: OsmDataView { relations: data.relations.drop_last().push(longer), ..data },
                ..self
            }
        } else {
            self
        }
    }

    /// The state once the opening tag of an element is read. A `node`, a
    /// `way` or a `relation` opens an entity. A `tag`, an `nd` or a `member`
    /// without content adds to the entity that it belongs to. Any other
    /// element changes nothing.
    #[verifier::opaque]
    pub open spec fn with_element(self, element: ElementView) -> Result<ParserView, ParseError> {
        if is_word(element.name, "node"@) {
            match header_from(blank_header(), element.attributes, true) {
                Ok(header) => Ok(self.with_node(node_of(header))),
                Err(e) => Err(e),
            }
        } else if is_word(element.name, "way"@) {
            match header_from(blank_header(), element.attributes, false) {
                Ok(header) => Ok(self.with_way(way_of(header))),
                Err(e) => Err(e),
            }
        } else if is_word(element.name, "relation"@) {
            match header_from(blank_header(), element.attributes, false) {
                Ok(header) => Ok(self.with_relation(relation_of(header))),
                Err(e) => Err(e),
            }
        } else if element.empty && is_word(element.name, "tag"@) {
            if self.current is None {
                Ok(self)
            } else {
                match tag_from(
                    TagView { key: Seq::empty(), value: Seq::empty() },
                    element.attributes,
                ) {
                    Ok(tag) => Ok(self.with_tag(tag)),
                    Err(e) => Err(e),
                }
            }
        } else if element.empty && is_word(element.name, "nd"@) {
            if self.data.ways.len() == 0 {
                Ok(self)
            } else {
                match node_ref_from(None, element.attributes) {
                    Ok(Some(node_ref)) => Ok(self.with_node_ref(node_ref)),
                    Ok(None) => Ok(self),
                    Err(e) => Err(e),
                }
            }
        } else if element.empty && is_word(element.name, "member"@) {
            if self.data.relations.len() == 0 {
                Ok(self)
            } else {
                match member_from(blank_member(), element.attributes) {
                    Ok(draft) => Ok(self.with_member(draft)),
                    Err(e) => Err(e),
                }
            }
        } else {
            Ok(self)
        }
    }

    /// The state once the closing tag of an element is read: that of a
    /// node, a way or a relation leaves no entity open, any other changes
    /// nothing.
    pub open spec fn with_end(self, name: Seq<u8>) -> ParserView {
        if is_word(name, "node"@) || is_word(name, "way"@) || is_word(name, "relation"@) {
            ParserView { current: None, ..self }
        } else {
            self
        }
    }

    /// The state once one more event is read. Malformed markup fails the
    /// reading; what is neither an opening nor a closing tag changes nothing.
    pub open spec fn advance(self, event: XmlEventView) -> Result<ParserView, ParseError> {
        match event {
            XmlEventView::Element(element) => self.with_element(element),
            XmlEventView::End(name) => Ok(self.with_end(name)),
            XmlEventView::Malformed => Err(ParseError::XmlError),
            _ => Ok(self),
        }
    }

    /// The state once all the events are read, in their order, or the first
    /// failure among them.
    pub open spec fn advance_all(self, events: Seq<XmlEventView>) -> Result<ParserView, ParseError>
        decreases events.len(),
    {
        if events.len() == 0 {
            Ok(self)
        } else {
            match self.advance(events[0]) {
                Ok(next) => next.advance_all(events.drop_first()),
                Err(e) => Err(e),
            }
        }
    }
}

impl OsmDataView {
    /// Whether every member of every relation is of a known kind.
    pub open spec fn members_known(self) -> bool {
        forall|r: int, m: int|
            0 <= r < self.relations.len() && 0 <= m < self.relations[r].members.len() ==> (
            #[trigger] self.relations[r].members[m]).maps_type.is_known()
    }

    /// Whether both coordinates of every node are decimal numbers.
    pub open spec fn has_coordinates(self) -> bool {
        forall|n: int| 0 <= n < self.nodes.len() ==> (#[trigger] self.nodes[n]).has_coordinates()
    }

    /// What holds of the entities of every document that is read: members
    /// are of known kinds, and coordinates are decimal numbers.
    pub open spec fn well_formed(self) -> bool {
        self.members_known() && self.has_coordinates()
    }
}

/// Reading a run of events is reading the first, then the others.
pub proof fn lemma_advance_all_step(state: ParserView, events: Seq<XmlEventView>)
    requires
        events.len() > 0,
    ensures
        state.advance_all(events) == match state.advance(events[0]) {
            Ok(next) => next.advance_all(events.drop_first()),
            Err(e) => Err(e),
        },
{
}

/// A member that lacks its kind, its target or its role, or that names no
/// known kind, leaves the relations as they were: it is kept under no other
/// kind, with no other target and with no other role.
pub proof fn lemma_incomplete_member_is_dropped(state: ParserView, draft: MemberDraftView)
    requires
        !draft.is_complete(),
    ensures
        state.with_member(draft) == state,
{
}

/// The names of the elements that the reading knows are all different.
pub proof fn lemma_element_names_differ()
    ensures
        encode_utf8("member"@) != encode_utf8("node"@),
        encode_utf8("member"@) != encode_utf8("way"@),
        encode_utf8("member"@) != encode_utf8("relation"@),
        encode_utf8("member"@) != encode_utf8("tag"@),
        encode_utf8("member"@) != encode_utf8("nd"@),
{
    reveal_strlit("member");
    reveal_strlit("node");
    reveal_strlit("way");
    reveal_strlit("relation");
    reveal_strlit("tag");
    reveal_strlit("nd");
    assert("member"@.len() == 6);
    assert("node"@.len() == 4);
    assert("way"@.len() == 3);
    assert("relation"@.len() == 8);
    assert("tag"@.len() == 3);
    assert("nd"@.len() == 2);
    encode_utf8_decode_utf8("member"@);
    encode_utf8_decode_utf8("node"@);
    encode_utf8_decode_utf8("way"@);
    encode_utf8_decode_utf8("relation"@);
    encode_utf8_decode_utf8("tag"@);
    encode_utf8_decode_utf8("nd"@);
}

/// A `member` element whose `type` names none of node, way and relation,
/// or that has no `type`, no `ref` or no `role`, changes nothing: the
/// relation that it stands in has no member for it.
pub proof fn lemma_incomplete_member_is_absent(state: ParserView, element: ElementView)
    requires
        element.empty,
        is_word(element.name, "member"@),
        member_from(blank_member(), element.attributes) is Ok,
        !member_from(blank_member(), element.attributes).unwrap().is_complete(),
    ensures
        state.with_element(element) == Ok::<ParserView, ParseError>(state),
{
    reveal(ParserView::with_element);
    lemma_element_names_differ();
}

/// One more event leaves the entities well formed.
pub proof fn lemma_advance_well_formed(state: ParserView, event: XmlEventView)
    requires
        state.data.well_formed(),
    ensures
        state.advance(event) is Ok ==> state.advance(event).unwrap().data.well_formed(),
{
    reveal(ParserView::with_element);
    if let XmlEventView::Element(element) = event {
        if let Ok(next) = state.with_element(element) {
            let old_relations = state.data.relations;
            let old_nodes = state.data.nodes;
            lemma_header_has_coordinates(element.attributes, true);
            assert(next.data.has_coordinates()) by {
                assert forall|n: int| 0 <= n < next.data.nodes.len() implies (
                #[trigger] next.data.nodes[n]).has_coordinates() by {
                    if n < old_nodes.len() - 1 {
                        assert(old_nodes[n].has_coordinates());
                    } else if n < old_nodes.len() {
                        assert(old_nodes[n].has_coordinates());
                    }
                }
            }
            assert(next.data.members_known()) by {
                assert forall|r: int, m: int|
                    0 <= r < next.data.relations.len() && 0 <= m
                        < next.data.relations[r].members.len() implies (
                #[trigger] next.data.relations[r].members[m]).maps_type.is_known() by {
                    if r < old_relations.len() {
                        if m < old_relations[r].members.len() {
                            assert(old_relations[r].members[m].maps_type.is_known());
                        }
                    }
                }
            }
        }
    }
}

/// Any run of events leaves the entities well formed.
pub proof fn lemma_advance_all_well_formed(state: ParserView, events: Seq<XmlEventView>)
    requires
        state.data.well_formed(),
    ensures
        state.advance_all(events) is Ok ==> state.advance_all(events).unwrap().data.well_formed(),
    decreases events.len(),
{
    if events.len() > 0 {
        lemma_advance_well_formed(state, events[0]);
        if let Ok(next) = state.advance(events[0]) {
            lemma_advance_all_well_formed(next, events.drop_first());
        }
    }
}

/// What is read from a document is well formed: no relation holds a member
/// of a kind other than node, way or relation, and every node has decimal
/// coordinates.
pub proof fn lemma_parse_well_formed(events: Seq<XmlEventView>)
    ensures
        parse(events) is Ok ==> parse(events).unwrap().well_formed(),
{
    lemma_advance_all_well_formed(ParserView::start(), events);
}

/// The entities that a run of events describes, or why the run is rejected.
pub open spec fn parse(events: Seq<XmlEventView>) -> Result<OsmDataView, ParseError> {
    match ParserView::start().advance_all(events) {
        Ok(state) => Ok(state.data),
        Err(e) => Err(e),
    }
}

impl Parser {
    /// A reading that has found nothing yet.
    pub fn new() -> (parser: Self)
        ensures
            parser@ == ParserView::start(),
    {
        let parser = Parser {
            data: OsmData { nodes: Vec::new(), ways: Vec::new(), relations: Vec::new() },
            current: None,
        };
        assert(parser@.data.nodes =~= Seq::<NodeView>::empty());
        assert(parser@.data.ways =~= Seq::<WayView>::empty());
        assert(parser@.data.relations =~= Seq::<RelationView>::empty());
        parser
    }

    /// Adds a tag to the entity that was opened last.
    fn add_tag(&mut self, tag: Tag)
        ensures
            final(self)@ == old(self)@.with_tag(tag@),
    {
        let ghost before = self@;
        match self.current {
            Some(EntityKind::Node) => {
                if let Some(mut node) = self.data.nodes.pop() {
                    let ghost tags = views(node.tags@);
                    node.tags.push(tag);
                    assert(views(node.tags@) =~= tags.push(tag@));
                    self.data.nodes.push(node);
                    assert(self@.data.nodes =~= before.data.nodes.drop_last().push(node@));
                }
            },
            Some(EntityKind::Way) => {
                if let Some(mut way) = self.data.ways.pop() {
                    let ghost tags = views(way.tags@);
                    way.tags.push(tag);
                    assert(views(way.tags@) =~= tags.push(tag@));
                    self.data.ways.push(way);
                    assert(self@.data.ways =~= before.data.ways.drop_last().push(way@));
                }
            },
            Some(EntityKind::Relation) => {
                if let Some(mut relation) = self.data.relations.pop() {
                    let ghost tags = views(relation.tags@);
                    relation.tags.push(tag);
                    assert(views(relation.tags@) =~= tags.push(tag@));
                    self.data.relations.push(relation);
                    assert(self@.data.relations =~= before.data.relations.drop_last().push(
                        relation@,
                    ));
                }
            },
            None => {},
        }
    }

    /// Adds a node reference to the way that was opened last.
    fn add_node_ref(&mut self, node_ref: i64)
        ensures
            final(self)@ == old(self)@.with_node_ref(node_ref),
    {
        let ghost before = self@;
        if let Some(mut way) = self.data.ways.pop() {
            way.node_refs.push(node_ref);
            self.data.ways.push(way);
            assert(self@.data.ways =~= before.data.ways.drop_last().push(way@));
        }
    }

    /// Adds a member to the relation that was opened last, where its kind,
    /// its target and its role are all given and the kind is known.
    fn add_member(&mut self, draft: MemberDraft)
        ensures
            final(self)@ == old(self)@.with_member(draft@),
    {
        let ghost before = self@;
        match (draft.kind, draft.ref_id, draft.role) {
            (Some(kind), Some(ref_id), Some(role)) => {
                let known = match kind {
                    MapsType::Other(_) => false,
                    _ => true,
                };
                if known {
                    if let Some(mut relation) = self.data.relations.pop() {
                        let ghost members = views(relation.members@);
                        let member = Member::new(relation.id, ref_id, kind, role);
                        relation.members.push(member);
                        assert(views(relation.members@) =~= members.push(member@));
                        self.data.relations.push(relation);
                        assert(self@.data.relations =~= before.data.relations.drop_last().push(
                            relation@,
                        ));
                    }
                }
            },
            _ => {},
        }
    }

    /// Takes in the opening tag of an element.
    fn open(&mut self, element: &Element) -> (done: Result<(), ParseError>)
        ensures
            match done {
                Ok(()) => old(self)@.with_element(element@) == Ok::<ParserView, ParseError>(
                    final(self)@,
                ),
                Err(e) => old(self)@.with_element(element@) == Err::<ParserView, ParseError>(e),
            },
    {
        let ghost before = self@;
        proof {
            reveal(ParserView::with_element);
        }
        let name = element.name.as_slice();
        if named(name, "node") {
            match read_header(&element.attributes, true) {
                Ok(header) => {
                    let node = Node {
                        id: header.id,
                        lat: header.lat,
                        lon: header.lon,
                        version: header.version,
                        timestamp: header.timestamp,
                        changeset: header.changeset,
                        uid: header.uid,
                        user: header.user,
                        tags: Vec::new(),
                    };
                    assert(node@.tags =~= Seq::<TagView>::empty());
                    self.data.nodes.push(node);
                    self.current = Some(EntityKind::Node);
                    assert(self@.data.nodes =~= before.data.nodes.push(node@));
                    Ok(())
                },
                Err(e) => Err(e),
            }
        } else if named(name, "way") {
            match read_header(&element.attributes, false) {
                Ok(header) => {
                    let way = Way {
                        id: header.id,
                        version: header.version,
                        timestamp: header.timestamp,
                        changeset: header.changeset,
                        uid: header.uid,
                        user: header.user,
                        node_refs: Vec::new(),
                        tags: Vec::new(),
                    };
                    assert(way@.tags =~= Seq::<TagView>::empty());
                    assert(way@.node_refs =~= Seq::<i64>::empty());
                    self.data.ways.push(way);
                    self.current = Some(EntityKind::Way);
                    assert(self@.data.ways =~= before.data.ways.push(way@));
                    Ok(())
                },
                Err(e) => Err(e),
            }
        } else if named(name, "relation") {
            match read_header(&element.attributes, false) {
                Ok(header) => {
                    let relation = Relation {
                        id: header.id,
                        version: header.version,
                        timestamp: header.timestamp,
                        changeset: header.changeset,
                        uid: header.uid,
                        user: header.user,
                        members: Vec::new(),
                        tags: Vec::new(),
                    };
                    assert(relation@.tags =~= Seq::<TagView>::empty());
                    assert(relation@.members =~= Seq::<MemberView>::empty());
                    self.data.relations.push(relation);
                    self.current = Some(EntityKind::Relation);
                    assert(self@.data.relations =~= before.data.relations.push(relation@));
                    Ok(())
                },
                Err(e) => Err(e),
            }
        } else if element.empty && named(name, "tag") {
            if self.current.is_none() {
                Ok(())
            } else {
                match read_tag(&element.attributes) {
                    Ok(tag) => {
                        self.add_tag(tag);
                        Ok(())
                    },
                    Err(e) => Err(e),
                }
            }
        } else if element.empty && named(name, "nd") {
            if self.data.ways.len() == 0 {
                Ok(())
            } else {
                match read_node_ref(&element.attributes) {
                    Ok(Some(node_ref)) => {
                        self.add_node_ref(node_ref);
                        Ok(())
                    },
                    Ok(None) => Ok(()),
                    Err(e) => Err(e),
                }
            }
        } else if element.empty && named(name, "member") {
            if self.data.relations.len() == 0 {
                Ok(())
            } else {
                match read_member(&element.attributes) {
                    Ok(draft) => {
                        self.add_member(draft);
                        Ok(())
                    },
                    Err(e) => Err(e),
                }
            }
        } else {
            Ok(())
        }
    }

    /// Takes in one more event of the document.
    pub fn feed(&mut self, event: &XmlEvent) -> (done: Result<(), ParseError>)
        ensures
            match done {
                Ok(()) => old(self)@.advance(event@) == Ok::<ParserView, ParseError>(final(self)@),
                Err(e) => old(self)@.advance(event@) == Err::<ParserView, ParseError>(e),
            },
    {
        match event {
            XmlEvent::Element(element) => self.open(element),
            XmlEvent::End(name) => {
                let name = name.as_slice();
                if named(name, "node") || named(name, "way") || named(name, "relation") {
                    self.current = None;
                }
                Ok(())
            },
            XmlEvent::Malformed => Err(ParseError::XmlError),
            _ => Ok(()),
        }
    }

    /// The entities found.
    pub fn finish(self) -> (data: OsmData)
        ensures
            data@ == self@.data,
    {
        self.data
    }
}

/// Reads the entities that a run of events describes.
pub fn parse_events(events: &Vec<XmlEvent>) -> (data: Result<OsmData, ParseError>)
    ensures
        result_view(data) == parse(views(events@)),
        data is Ok ==> data.unwrap()@.well_formed(),
{
    proof {
        lemma_parse_well_formed(views(events@));
    }
    let mut parser = Parser::new();
    let ghost all = views(events@);
    let mut i: usize = 0;
    assert(all.skip(0) =~= all);
    while i < events.len()
        invariant
            i <= events.len(),
            all == views(events@),
            ParserView::start().advance_all(all) == parser@.advance_all(all.skip(i as int)),
        decreases events.len() - i,
    {
        proof {
            assert(all.skip(i as int).drop_first() =~= all.skip(i + 1));
            assert(all.skip(i as int)[0] == events@[i as int]@);
            lemma_advance_all_step(parser@, all.skip(i as int));
        }
        match parser.feed(&events[i]) {
            Ok(()) => {},
            Err(e) => {
                return Err(e);
            },
        }
        i += 1;
    }
    Ok(parser.finish())
}

/// Reads the entities of a document in one pass from its first byte to its last.
pub fn parse_document(document: &[u8]) -> (data: Result<OsmData, ParseError>)
    ensures
        result_view(data) == parse(xml_events(document@)),
        data is Ok ==> data.unwrap()@.well_formed(),
{
    proof {
        lemma_parse_well_formed(xml_events(document@));
    }
    let mut reader = open_reader(document);
    let mut parser = Parser::new();
    let ghost all = xml_events(document@);
    loop
        invariant_except_break
            is_event_stream(pending(reader)),
            ParserView::start().advance_all(all) == parser@.advance_all(pending(reader)),
        invariant
            all == xml_events(document@),
        ensures
            ParserView::start().advance_all(all) == Ok::<ParserView, ParseError>(parser@),
        decreases pending(reader).len(),
    {
        let ghost rest = pending(reader);
        proof {
            lemma_advance_all_step(parser@, rest);
        }
        let event = next_event(&mut reader);
        let last = match event {
            XmlEvent::Eof => true,
            XmlEvent::Malformed => true,
            _ => false,
        };
        match parser.feed(&event) {
            Ok(()) => {},
            Err(e) => {
                return Err(e);
            },
        }
        proof {
            if last {
                assert(rest.drop_first().len() == 0);
            } else {
                lemma_rest_is_event_stream(rest);
            }
        }
        if last {
            break;
        }
    }
    Ok(parser.finish())
}

} // verus!
