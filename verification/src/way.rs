use vstd::prelude::*;
use crate::tag::Tag;
use crate::tag::TagView;
use crate::decode::decode_node_refs;
use crate::decode::decode_tags;
use crate::decode::node_refs_of;
use crate::decode::tags_of;
use crate::utils::all_or_failure;
use crate::utils::clone_tags;
use crate::utils::flat_rows;
use crate::utils::lemma_flat_rows_step;
use crate::utils::push_tag_rows;
use crate::utils::result_view;
use crate::utils::results_view;
use crate::utils::tag_rows;
use crate::utils::text_view;
use crate::utils::views;
use crate::utils::MapsTag;
use crate::utils::MapsTagView;
use crate::utils::ParseError;

verus! {

/// An ordered path through nodes, which it names by id.
#[derive(Debug)]
pub struct Way {
    pub id: i64,
    pub version: i32,
    pub timestamp: String,
    pub changeset: i64,
    pub uid: i64,
    pub user: String,
    pub node_refs: Vec<i64>,
    pub tags: Vec<Tag>,
}

/// What a `Way` stands for.
pub struct WayView {
    pub id: i64,
    pub version: i32,
    pub timestamp: Seq<char>,
    pub changeset: i64,
    pub uid: i64,
    pub user: Seq<char>,
    pub node_refs: Seq<i64>,
    pub tags: Seq<TagView>,
}

impl View for Way {
    type V = WayView;

    open spec fn view(&self) -> WayView {
        WayView {
            id: self.id,
            version: self.version,
            timestamp: self.timestamp@,
            changeset: self.changeset,
            uid: self.uid,
            user: self.user@,
            node_refs: self.node_refs@,
            tags: views(self.tags@),
        }
    }
}

/// One row of the query that fetches ways: the columns of the way, any of
/// which may be absent, and the two columns into which the store folds the
/// way's node references and its tags.
#[derive(Debug)]
pub struct WayRow {
    pub id: Option<i64>,
    pub version: Option<i32>,
    pub timestamp: Option<String>,
    pub changeset: Option<i64>,
    pub uid: Option<i64>,
    pub user: Option<String>,
    pub node_refs: Option<String>,
    pub tags: Option<String>,
}

/// What a `WayRow` stands for.
pub struct WayRowView {
    pub id: Option<i64>,
    pub version: Option<i32>,
    pub timestamp: Option<Seq<char>>,
    pub changeset: Option<i64>,
    pub uid: Option<i64>,
    pub user: Option<Seq<char>>,
    pub node_refs: Option<Seq<char>>,
    pub tags: Option<Seq<char>>,
}

impl View for WayRow {
    type V = WayRowView;

    open spec fn view(&self) -> WayRowView {
        WayRowView {
            id: self.id,
            version: self.version,
            timestamp: text_view(self.timestamp),
            changeset: self.changeset,
            uid: self.uid,
            user: text_view(self.user),
            node_refs: text_view(self.node_refs),
            tags: text_view(self.tags),
        }
    }
}

impl Clone for Way {
    fn clone(&self) -> (copy: Self)
        ensures
            copy@ == self@,
    {
        let mut node_refs: Vec<i64> = Vec::new();
        let mut i: usize = 0;
        while i < self.node_refs.len()
            invariant
                i <= self.node_refs.len(),
                node_refs@ == self.node_refs@.take(i as int),
            decreases self.node_refs.len() - i,
        {
            node_refs.push(self.node_refs[i]);
            proof {
                assert(self.node_refs@.take(i + 1) =~= self.node_refs@.take(i as int).push(
                    self.node_refs@[i as int],
                ));
            }
            i += 1;
        }
        assert(self.node_refs@.take(i as int) =~= self.node_refs@);
        Way {
            id: self.id,
            version: self.version,
            timestamp: self.timestamp.clone(),
            changeset: self.changeset,
            uid: self.uid,
            user: self.user.clone(),
            node_refs,
            tags: clone_tags(&self.tags),
        }
    }
}

impl WayRowView {
    /// Whether a column that a way cannot do without is absent.
    pub open spec fn lacks_data(self) -> bool {
        self.id is None || self.version is None || self.timestamp is None || self.changeset is None
            || self.uid is None || self.user is None
    }

    /// The node references that the row holds: none where their column is
    /// absent, a failure where it holds a piece that is no integer.
    pub open spec fn node_refs_held(self) -> Result<Seq<i64>, ParseError> {
        match self.node_refs {
            Some(column) => node_refs_of(column),
            None => Ok(Seq::empty()),
        }
    }

    /// The way that the row holds. A row that lacks a column of the way
    /// itself holds none, nor does one whose node references cannot be
    /// read; a folded column that is absent holds nothing.
    pub open spec fn way(self) -> Result<WayView, ParseError> {
        if self.lacks_data() {
            Err(ParseError::NoDataError)
        } else {
            match self.node_refs_held() {
                Err(e) => Err(e),
                Ok(node_refs) => Ok(
                    WayView {
                        id: self.id.unwrap(),
                        version: self.version.unwrap(),
                        timestamp: self.timestamp.unwrap(),
                        changeset: self.changeset.unwrap(),
                        uid: self.uid.unwrap(),
                        user: self.user.unwrap(),
                        node_refs,
                        tags: match self.tags {
                            Some(column) => tags_of(column),
                            None => Seq::empty(),
                        },
                    },
                ),
            }
        }
    }
}

/// The function that gives the way that a row holds.
pub open spec fn way_of_row() -> spec_fn(WayRowView) -> Result<WayView, ParseError> {
    |row: WayRowView| row.way()
}

impl WayView {
    /// The rows of the node-reference table that the way gives: its id with
    /// each node that it passes, in the order of the path.
    pub open spec fn node_rows(self) -> Seq<(i64, i64)> {
        self.node_refs.map_values(|node_ref: i64| (self.id, node_ref))
    }

    /// The rows of the tag table that the way gives.
    pub open spec fn tag_rows(self) -> Seq<MapsTagView> {
        tag_rows(self.id, self.tags)
    }
}

/// The function that gives a way's node-reference rows.
pub open spec fn node_rows_of() -> spec_fn(WayView) -> Seq<(i64, i64)> {
    |way: WayView| way.node_rows()
}

/// The function that gives a way's tag rows.
pub open spec fn tag_rows_of() -> spec_fn(WayView) -> Seq<MapsTagView> {
    |way: WayView| way.tag_rows()
}

impl Way {
    /// Builds a way from its fields.
    pub fn new(
        id: i64,
        version: i32,
        timestamp: String,
        changeset: i64,
        uid: i64,
        user: String,
        node_ids: Vec<i64>,
        tags: Vec<Tag>,
    ) -> (way: Self)
        ensures
            way == (Way { id, version, timestamp, changeset, uid, user, node_refs: node_ids, tags }),
    {
        Way { id, version, timestamp, changeset, uid, user, node_refs: node_ids, tags }
    }

    /// Rebuilds the way that a fetched row holds. A row that lacks a column
    /// of the way gives `NoDataError`; one whose node references hold a
    /// piece that is no integer gives `IntError`.
    pub fn from_row(row: WayRow) -> (way: Result<Way, ParseError>)
        ensures
            result_view(way) == row@.way(),
    {
        match (row.id, row.version, row.timestamp, row.changeset, row.uid, row.user) {
            (Some(id), Some(version), Some(timestamp), Some(changeset), Some(uid), Some(user)) => {
                let node_refs = match row.node_refs {
                    Some(column) => match decode_node_refs(column.as_str()) {
                        Ok(node_refs) => node_refs,
                        Err(e) => {
                            return Err(e);
                        },
                    },
                    None => Vec::new(),
                };
                let tags = match row.tags {
                    Some(column) => decode_tags(column.as_str()),
                    None => Vec::new(),
                };
                let way = Way { id, version, timestamp, changeset, uid, user, node_refs, tags };
                assert(way@.tags =~= row@.way().unwrap().tags);
                assert(way@.node_refs =~= row@.way().unwrap().node_refs);
                Ok(way)
            },
            _ => Err(ParseError::NoDataError),
        }
    }

    /// Rebuilds the ways that fetched rows hold, in the order of the rows.
    /// A row that holds no way fails the whole fetch.
    pub fn from_rows(rows: Vec<WayRow>) -> (ways: Result<Vec<Way>, ParseError>)
        ensures
            results_view(ways) == all_or_failure(Seq::empty(), views(rows@), way_of_row()),
    {
        let ghost all = views(rows@);
        let mut ways: Vec<Way> = Vec::new();
        assert(views(ways@) =~= Seq::<WayView>::empty());
        assert(all.skip(0) =~= all);
        for row in it: rows.into_iter()
            invariant
                views(it.seq()) == all,
                all_or_failure(Seq::empty(), all, way_of_row()) == all_or_failure(
                    views(ways@),
                    all.skip(it.index() as int),
                    way_of_row(),
                ),
        {
            let ghost before = views(ways@);
            proof {
                assert(all.skip(it.index() as int).drop_first() =~= all.skip(it.index() + 1));
                assert(all.skip(it.index() as int)[0] == row@);
            }
            match Way::from_row(row) {
                Ok(way) => {
                    ways.push(way);
                    assert(views(ways@) =~= before.push(way@));
                },
                Err(e) => {
                    return Err(e);
                },
            }
        }
        assert(all.skip(all.len() as int) =~= Seq::<WayRowView>::empty());
        Ok(ways)
    }

    /// What `extractor` picks from each way, in the order of the ways.
    pub fn extract<'a, T>(
        ways: &'a [Self],
        extractor: impl Fn(&'a Way) -> &'a T,
    ) -> (picked: Vec<&'a T>)
        requires
            forall|i: int| 0 <= i < ways@.len() ==> call_requires(extractor, (&ways@[i],)),
        ensures
            picked@.len() == ways@.len(),
            forall|i: int|
                0 <= i < ways@.len() ==> call_ensures(extractor, (&ways@[i],), #[trigger] picked@[i]),
    {
        let mut picked: Vec<&'a T> = Vec::new();
        let mut i: usize = 0;
        while i < ways.len()
            invariant
                i <= ways.len(),
                picked@.len() == i,
                forall|k: int| 0 <= k < ways@.len() ==> call_requires(extractor, (&ways@[k],)),
                forall|k: int|
                    0 <= k < i ==> call_ensures(extractor, (&ways@[k],), #[trigger] picked@[k]),
            decreases ways.len() - i,
        {
            picked.push(extractor(&ways[i]));
            i += 1;
        }
        picked
    }

    /// What `extractor` picks from each way, in the order of the ways.
    pub fn extract_node_ref<'a, T>(
        ways: &'a [Self],
        extractor: impl Fn(&'a Way) -> &'a T,
    ) -> (picked: Vec<&'a T>)
        requires
            forall|i: int| 0 <= i < ways@.len() ==> call_requires(extractor, (&ways@[i],)),
        ensures
            picked@.len() == ways@.len(),
            forall|i: int|
                0 <= i < ways@.len() ==> call_ensures(extractor, (&ways@[i],), #[trigger] picked@[i]),
    {
        Way::extract(ways, extractor)
    }

    /// The rows of the node-reference table for a run of ways: each way's id
    /// with each of its node references, way after way, in path order.
    pub fn extract_way_node_refs(ways: &[Self]) -> (rows: Vec<(i64, i64)>)
        ensures
            rows@ == flat_rows(views(ways@), node_rows_of()),
    {
        let mut rows: Vec<(i64, i64)> = Vec::new();
        let mut i: usize = 0;
        assert(views(ways@).take(0) =~= Seq::<WayView>::empty());
        while i < ways.len()
            invariant
                i <= ways.len(),
                rows@ == flat_rows(views(ways@).take(i as int), node_rows_of()),
            decreases ways.len() - i,
        {
            let way = &ways[i];
            let ghost before = rows@;
            let mut j: usize = 0;
            while j < way.node_refs.len()
                invariant
                    j <= way.node_refs.len(),
                    rows@ == before + way@.node_rows().take(j as int),
                decreases way.node_refs.len() - j,
            {
                rows.push((way.id, way.node_refs[j]));
                proof {
                    assert(way@.node_rows().take(j + 1) =~= way@.node_rows().take(j as int).push(
                        (way.id, way.node_refs@[j as int]),
                    ));
                }
                j += 1;
            }
            proof {
                assert(way@.node_rows().take(j as int) =~= way@.node_rows());
                lemma_flat_rows_step(views(ways@), node_rows_of(), i as int);
            }
            i += 1;
        }
        assert(views(ways@).take(i as int) =~= views(ways@));
        rows
    }

    /// The rows of the tag table for a run of ways.
    pub fn extract_way_tags(ways: &[Self]) -> (rows: Vec<MapsTag>)
        ensures
            views(rows@) == flat_rows(views(ways@), tag_rows_of()),
    {
        let mut rows: Vec<MapsTag> = Vec::new();
        let mut i: usize = 0;
        assert(views(ways@).take(0) =~= Seq::<WayView>::empty());
        assert(views(rows@) =~= Seq::<MapsTagView>::empty());
        while i < ways.len()
            invariant
                i <= ways.len(),
                views(rows@) == flat_rows(views(ways@).take(i as int), tag_rows_of()),
            decreases ways.len() - i,
        {
            push_tag_rows(&mut rows, ways[i].id, &ways[i].tags);
            proof {
                lemma_flat_rows_step(views(ways@), tag_rows_of(), i as int);
            }
            i += 1;
        }
        assert(views(ways@).take(i as int) =~= views(ways@));
        rows
    }
}

} // verus!
