use vstd::prelude::*;
use crate::tag::Tag;
use crate::tag::TagView;
use crate::decode::decode_tags;
use crate::decode::tags_of;
use crate::text::chars_of;
use crate::text::is_decimal;
use crate::text::is_decimal_text;
use crate::utils::all_or_failure;
use crate::utils::clone_tags;
use crate::utils::flat_rows;
use crate::utils::lemma_flat_rows_step;
use crate::utils::push_tag_rows;
use crate::utils::result_view;
use crate::utils::results_view;
use crate::utils::tag_rows;
use crate::utils::text_view;
use crate::utils::views;
use crate::utils::MapsTag;
use crate::utils::MapsTagView;
use crate::utils::ParseError;

verus! {

/// A point on the map. Its two coordinates are kept as the decimal numbers
/// that the source wrote, digit for digit.
#[derive(Debug)]
pub struct Node {
    pub id: i64,
    pub lat: String,
    pub lon: String,
    pub version: i32,
    pub timestamp: String,
    pub changeset: i64,
    pub uid: i64,
    pub user: String,
    pub tags: Vec<Tag>,
}

/// What a `Node` stands for.
pub struct NodeView {
    pub id: i64,
    pub lat: Seq<char>,
    pub lon: Seq<char>,
    pub version: i32,
    pub timestamp: Seq<char>,
    pub changeset: i64,
    pub uid: i64,
    pub user: Seq<char>,
    pub tags: Seq<TagView>,
}

impl View for Node {
    type V = NodeView;

    open spec fn view(&self) -> NodeView {
        NodeView {
            id: self.id,
            lat: self.lat@,
            lon: self.lon@,
            version: self.version,
            timestamp: self.timestamp@,
            changeset: self.changeset,
            uid: self.uid,
            user: self.user@,
            tags: views(self.tags@),
        }
    }
}

/// One row of the query that fetches nodes: the columns of the node, any
/// of which may be absent, and the column into which the store folds the
/// node's tags. The coordinates come as decimal numbers.
#[derive(Debug)]
pub struct NodeRow {
    pub id: Option<i64>,
    pub lat: Option<String>,
    pub lon: Option<String>,
    pub version: Option<i32>,
    pub timestamp: Option<String>,
    pub changeset: Option<i64>,
    pub uid: Option<i64>,
    pub user: Option<String>,
    pub tags: Option<String>,
}

/// What a `NodeRow` stands for.
pub struct NodeRowView {
    pub id: Option<i64>,
    pub lat: Option<Seq<char>>,
    pub lon: Option<Seq<char>>,
    pub version: Option<i32>,
    pub timestamp: Option<Seq<char>>,
    pub changeset: Option<i64>,
    pub uid: Option<i64>,
    pub user: Option<Seq<char>>,
    pub tags: Option<Seq<char>>,
}

impl View for NodeRow {
    type V = NodeRowView;

    open spec fn view(&self) -> NodeRowView {
        NodeRowView {
            id: self.id,
            lat: text_view(self.lat),
            lon: text_view(self.lon),
            version: self.version,
            timestamp: text_view(self.timestamp),
            changeset: self.changeset,
            uid: self.uid,
            user: text_view(self.user),
            tags: text_view(self.tags),
        }
    }
}

impl Clone for Node {
    fn clone(&self) -> (copy: Self)
        ensures
            copy@ == self@,
    {
        Node {
            id: self.id,
            lat: self.lat.clone(),
            lon: self.lon.clone(),
            version: self.version,
            timestamp: self.timestamp.clone(),
            changeset: self.changeset,
            uid: self.uid,
            user: self.user.clone(),
            tags: clone_tags(&self.tags),
        }
    }
}

impl NodeRowView {
    /// Whether a column that a node cannot do without is absent.
    pub open spec fn lacks_data(self) -> bool {
        self.id is None || self.lat is None || self.lon is None || self.version is None
            || self.timestamp is None || self.changeset is None || self.uid is None
            || self.user is None
    }

    /// The node that the row holds. A row that lacks a column of the node
    /// itself holds none, nor does one with a coordinate that is no decimal
    /// number; a tag column that is absent holds no tag.
    pub open spec fn node(self) -> Result<NodeView, ParseError> {
        if self.lacks_data() {
            Err(ParseError::NoDataError)
        } else if !is_decimal(self.lat.unwrap()) || !is_decimal(self.lon.unwrap()) {
            Err(ParseError::FloatError)
        } else {
            Ok(
                NodeView {
                    id: self.id.unwrap(),
                    lat: self.lat.unwrap(),
                    lon: self.lon.unwrap(),
                    version: self.version.unwrap(),
                    timestamp: self.timestamp.unwrap(),
                    changeset: self.changeset.unwrap(),
                    uid: self.uid.unwrap(),
                    user: self.user.unwrap(),
                    tags: match self.tags {
                        Some(column) => tags_of(column),
                        None => Seq::empty(),
                    },
                },
            )
        }
    }
}

/// The function that gives the node that a row holds.
pub open spec fn node_of_row() -> spec_fn(NodeRowView) -> Result<NodeView, ParseError> {
    |row: NodeRowView| row.node()
}

impl NodeView {
    /// Whether both coordinates are decimal numbers.
    pub open spec fn has_coordinates(self) -> bool {
        is_decimal(self.lat) && is_decimal(self.lon)
    }

    /// The rows of the tag table that the node gives.
    pub open spec fn tag_rows(self) -> Seq<MapsTagView> {
        tag_rows(self.id, self.tags)
    }
}

/// The function that gives a node's tag rows.
pub open spec fn tag_rows_of() -> spec_fn(NodeView) -> Seq<MapsTagView> {
    |node: NodeView| node.tag_rows()
}

impl Node {
    /// Builds a node from its fields.
    pub fn new(
        id: i64,
        lat: String,
        lon: String,
        version: i32,
        timestamp: String,
        changeset: i64,
        uid: i64,
        user: String,
        tags: Vec<Tag>,
    ) -> (node: Self)
        ensures
            node == (Node { id, lat, lon, version, timestamp, changeset, uid, user, tags }),
    {
        Node { id, lat, lon, version, timestamp, changeset, uid, user, tags }
    }

    /// Rebuilds the node that a fetched row holds.
    pub fn from_row(row: NodeRow) -> (node: Result<Node, ParseError>)
        ensures
            result_view(node) == row@.node(),
            node is Ok ==> node.unwrap()@.has_coordinates(),
    {
        match (
            row.id,
            row.lat,
            row.lon,
            row.version,
            row.timestamp,
            row.changeset,
            row.uid,
            row.user,
        ) {
            (
                Some(id),
                Some(lat),
                Some(lon),
                Some(version),
                Some(timestamp),
                Some(changeset),
                Some(uid),
                Some(user),
            ) => {
                let lat_chars = chars_of(lat.as_str());
                let lon_chars = chars_of(lon.as_str());
                if !is_decimal_text(lat_chars.as_slice()) || !is_decimal_text(
                    lon_chars.as_slice(),
                ) {
                    return Err(ParseError::FloatError);
                }
                let tags = match row.tags {
                    Some(column) => decode_tags(column.as_str()),
                    None => Vec::new(),
                };
                let node = Node { id, lat, lon, version, timestamp, changeset, uid, user, tags };
                assert(node@.tags =~= row@.node().unwrap().tags);
                Ok(node)
            },
            _ => Err(ParseError::NoDataError),
        }
    }

    /// Rebuilds the nodes that fetched rows hold, in the order of the rows.
    /// A row that holds no node fails the whole fetch.
    pub fn from_rows(rows: Vec<NodeRow>) -> (nodes: Result<Vec<Node>, ParseError>)
        ensures
            results_view(nodes) == all_or_failure(Seq::empty(), views(rows@), node_of_row()),
    {
        let ghost all = views(rows@);
        let mut nodes: Vec<Node> = Vec::new();
        assert(views(nodes@) =~= Seq::<NodeView>::empty());
        assert(all.skip(0) =~= all);
        for row in it: rows.into_iter()
            invariant
                views(it.seq()) == all,
                all_or_failure(Seq::empty(), all, node_of_row()) == all_or_failure(
                    views(nodes@),
                    all.skip(it.index() as int),
                    node_of_row(),
                ),
        {
            let ghost before = views(nodes@);
            proof {
                assert(all.skip(it.index() as int).drop_first() =~= all.skip(it.index() + 1));
                assert(all.skip(it.index() as int)[0] == row@);
            }
            match Node::from_row(row) {
                Ok(node) => {
                    nodes.push(node);
                    assert(views(nodes@) =~= before.push(node@));
                },
                Err(e) => {
                    return Err(e);
                },
            }
        }
        assert(all.skip(all.len() as int) =~= Seq::<NodeRowView>::empty());
        Ok(nodes)
    }

    /// What `extractor` picks from each node, in the order of the nodes.
    pub fn extract<'a, T>(
        nodes: &'a [Self],
        extractor: impl Fn(&'a Node) -> &'a T,
    ) -> (picked: Vec<&'a T>)
        requires
            forall|i: int| 0 <= i < nodes@.len() ==> call_requires(extractor, (&nodes@[i],)),
        ensures
            picked@.len() == nodes@.len(),
            forall|i: int|
                0 <= i < nodes@.len() ==> call_ensures(
                    extractor,
                    (&nodes@[i],),
                    #[trigger] picked@[i],
                ),
    {
        let mut picked: Vec<&'a T> = Vec::new();
        let mut i: usize = 0;
        while i < nodes.len()
            invariant
                i <= nodes.len(),
                picked@.len() == i,
                forall|k: int| 0 <= k < nodes@.len() ==> call_requires(extractor, (&nodes@[k],)),
                forall|k: int|
                    0 <= k < i ==> call_ensures(extractor, (&nodes@[k],), #[trigger] picked@[k]),
            decreases nodes.len() - i,
        {
            picked.push(extractor(&nodes[i]));
            i += 1;
        }
        picked
    }

    /// The rows of the tag table for a run of nodes.
    pub fn extract_node_tags(nodes: &[Self]) -> (rows: Vec<MapsTag>)
        ensures
            views(rows@) == flat_rows(views(nodes@), tag_rows_of()),
    {
        let mut rows: Vec<MapsTag> = Vec::new();
        let mut i: usize = 0;
        assert(views(nodes@).take(0) =~= Seq::<NodeView>::empty());
        assert(views(rows@) =~= Seq::<MapsTagView>::empty());
        while i < nodes.len()
            invariant
                i <= nodes.len(),
                views(rows@) == flat_rows(views(nodes@).take(i as int), tag_rows_of()),
            decreases nodes.len() - i,
        {
            push_tag_rows(&mut rows, nodes[i].id, &nodes[i].tags);
            proof {
                lemma_flat_rows_step(views(nodes@), tag_rows_of(), i as int);
            }
            i += 1;
        }
        assert(views(nodes@).take(i as int) =~= views(nodes@));
        rows
    }
}

/// A tag together with the id of the node that carries it.
#[derive(Debug)]
pub struct NodeTag {
    pub node_id: i64,
    pub tag: Tag,
}

impl Clone for NodeTag {
    fn clone(&self) -> (copy: Self)
        ensures
            copy.node_id == self.node_id,
            copy.tag@ == self.tag@,
    {
        NodeTag { node_id: self.node_id, tag: self.tag.clone() }
    }
}

impl NodeTag {
    /// Splits node tag rows into their three columns: node ids, keys and values.
    pub fn collect_tag_data(node_tags: &[NodeTag]) -> (columns: (Vec<i64>, Vec<&str>, Vec<&str>))
        ensures
            columns.0@ == node_tags@.map_values(|row: NodeTag| row.node_id),
            columns.1@.len() == node_tags@.len(),
            columns.2@.len() == node_tags@.len(),
            forall|i: int|
                0 <= i < node_tags@.len() ==> (#[trigger] columns.1@[i])@ == node_tags@[i].tag.key@,
            forall|i: int|
                0 <= i < node_tags@.len() ==> (#[trigger] columns.2@[i])@
                    == node_tags@[i].tag.value@,
    {
        let mut ids: Vec<i64> = Vec::new();
        let mut keys: Vec<&str> = Vec::new();
        let mut values: Vec<&str> = Vec::new();
        let mut i: usize = 0;
        while i < node_tags.len()
            invariant
                i <= node_tags.len(),
                ids@ == node_tags@.take(i as int).map_values(|row: NodeTag| row.node_id),
                keys@.len() == i,
                values@.len() == i,
                forall|k: int| 0 <= k < i ==> (#[trigger] keys@[k])@ == node_tags@[k].tag.key@,
                forall|k: int| 0 <= k < i ==> (#[trigger] values@[k])@ == node_tags@[k].tag.value@,
            decreases node_tags.len() - i,
        {
            let row = &node_tags[i];
            ids.push(row.node_id);
            keys.push(row.tag.key.as_str());
            values.push(row.tag.value.as_str());
            proof {
                assert(node_tags@.take(i + 1).map_values(|row: NodeTag| row.node_id)
                    =~= node_tags@.take(i as int).map_values(|row: NodeTag| row.node_id).push(
                    row.node_id,
                ));
            }
            i += 1;
        }
        assert(node_tags@.take(i as int) =~= node_tags@);
        (ids, keys, values)
    }
}

} // verus!
