use vstd::prelude::*;
use crate::member::Member;
use crate::member::MemberView;
use crate::tag::Tag;
use crate::tag::TagView;
use crate::decode::decode_members;
use crate::decode::decode_tags;
use crate::decode::members_of;
use crate::decode::tags_of;
use crate::utils::all_or_failure;
use crate::utils::clone_tags;
use crate::utils::flat_rows;
use crate::utils::lemma_flat_rows_step;
use crate::utils::push_tag_rows;
use crate::utils::result_view;
use crate::utils::results_view;
use crate::utils::tag_rows;
use crate::utils::text_view;
use crate::utils::views;
use crate::utils::MapsTag;
use crate::utils::MapsTagView;
use crate::utils::ParseError;

verus! {

/// A group of nodes, ways and other relations, each in a role.
#[derive(Debug)]
pub struct Relation {
    pub id: i64,
    pub version: i32,
    pub timestamp: String,
    pub changeset: i64,
    pub uid: i64,
    pub user: String,
    pub members: Vec<Member>,
    pub tags: Vec<Tag>,
}

/// What a `Relation` stands for.
pub struct RelationView {
    pub id: i64,
    pub version: i32,
    pub timestamp: Seq<char>,
    pub changeset: i64,
    pub uid: i64,
    pub user: Seq<char>,
    pub members: Seq<MemberView>,
    pub tags: Seq<TagView>,
}

impl View for Relation {
    type V = RelationView;

    open spec fn view(&self) -> RelationView {
        RelationView {
            id: self.id,
            version: self.version,
            timestamp: self.timestamp@,
            changeset: self.changeset,
            uid: self.uid,
            user: self.user@,
            members: views(self.members@),
            tags: views(self.tags@),
        }
    }
}

/// One row of the query that fetches relations: the columns of the
/// relation, any of which may be absent, and the two columns into which the
/// store folds the relation's tags and its members.
#[derive(Debug)]
pub struct RelationRow {
    pub id: Option<i64>,
    pub version: Option<i32>,
    pub timestamp: Option<String>,
    pub changeset: Option<i64>,
    pub uid: Option<i64>,
    pub user: Option<String>,
    pub tags: Option<String>,
    pub members: Option<String>,
}

/// What a `RelationRow` stands for.
pub struct RelationRowView {
    pub id: Option<i64>,
    pub version: Option<i32>,
    pub timestamp: Option<Seq<char>>,
    pub changeset: Option<i64>,
    pub uid: Option<i64>,
    pub user: Option<Seq<char>>,
    pub tags: Option<Seq<char>>,
    pub members: Option<Seq<char>>,
}

impl View for RelationRow {
    type V = RelationRowView;

    open spec fn view(&self) -> RelationRowView {
        RelationRowView {
            id: self.id,
            version: self.version,
            timestamp: text_view(self.timestamp),
            changeset: self.changeset,
            uid: self.uid,
            user: text_view(self.user),
            tags: text_view(self.tags),
            members: text_view(self.members),
        }
    }
}

impl Clone for Relation {
    fn clone(&self) -> (copy: Self)
        ensures
            copy@ == self@,
    {
        let mut members: Vec<Member> = Vec::new();
        let mut i: usize = 0;
        assert(views(members@) =~= views(self.members@).take(0));
        while i < self.members.len()
            invariant
                i <= self.members.len(),
                views(members@) == views(self.members@).take(i as int),
            decreases self.members.len() - i,
        {
            let ghost before = views(members@);
            members.push(self.members[i].clone());
            proof {
                assert(views(members@) =~= before.push(self.members@[i as int]@));
                assert(views(self.members@).take(i + 1) =~= views(self.members@).take(
                    i as int,
                ).push(self.members@[i as int]@));
            }
            i += 1;
        }
        assert(views(self.members@).take(i as int) =~= views(self.members@));
        Relation {
            id: self.id,
            version: self.version,
            timestamp: self.timestamp.clone(),
            changeset: self.changeset,
            uid: self.uid,
            user: self.user.clone(),
            members,
            tags: clone_tags(&self.tags),
        }
    }
}

impl RelationRowView {
    /// Whether a column that a relation cannot do without is absent.
    pub open spec fn lacks_data(self) -> bool {
        self.id is None || self.version is None || self.timestamp is None || self.changeset is None
            || self.uid is None || self.user is None
    }

    /// The members that the row holds: none where their column is absent, a
    /// failure where it holds a member whose id or target is no integer.
    pub open spec fn members_held(self) -> Result<Seq<MemberView>, ParseError> {
        match self.members {
            Some(column) => members_of(column),
            None => Ok(Seq::empty()),
        }
    }

    /// The relation that the row holds. A row that lacks a column of the
    /// relation itself holds none, nor does one whose members cannot be
    /// read; a folded column that is absent holds nothing.
    pub open spec fn relation(self) -> Result<RelationView, ParseError> {
        if self.lacks_data() {
            Err(ParseError::NoDataError)
        } else {
            match self.members_held() {
                Err(e) => Err(e),
                Ok(members) => Ok(
                    RelationView {
                        id: self.id.unwrap(),
                        version: self.version.unwrap(),
                        timestamp: self.timestamp.unwrap(),
                        changeset: self.changeset.unwrap(),
                        uid: self.uid.unwrap(),
                        user: self.user.unwrap(),
                        members,
                        tags: match self.tags {
                            Some(column) => tags_of(column),
                            None => Seq::empty(),
                        },
                    },
                ),
            }
        }
    }
}

/// The function that gives the relation that a row holds.
pub open spec fn relation_of_row() -> spec_fn(RelationRowView) -> Result<RelationView, ParseError> {
    |row: RelationRowView| row.relation()
}

impl RelationView {
    /// Whether every member is of a known kind.
    pub open spec fn members_known(self) -> bool {
        forall|m: int| 0 <= m < self.members.len() ==> (#[trigger] self.members[m]).maps_type.is_known()
    }

    /// The rows of the member table that the relation gives: its id with
    /// each of its members of a known kind, in their order. A member of
    /// another kind gives no row: the store never holds one.
    pub open spec fn member_rows(self) -> Seq<(i64, MemberView)> {
        self.members.filter_map(member_row(self.id))
    }

    /// The rows of the tag table that the relation gives.
    pub open spec fn tag_rows(self) -> Seq<MapsTagView> {
        tag_rows(self.id, self.tags)
    }
}

/// The function that gives the row of a member of relation `id`: the id
/// with the member where the member is of a known kind, and no row where
/// it is of another.
pub open spec fn member_row(id: i64) -> spec_fn(MemberView) -> Option<(i64, MemberView)> {
    |member: MemberView|
        if member.maps_type.is_known() {
            Some((id, member))
        } else {
            None
        }
}

/// Every member row of a relation holds the relation's id and a member of a
/// known kind: no member of another kind is sent to the store.
pub proof fn lemma_member_rows_known(relation: RelationView)
    ensures
        forall|i: int|
            0 <= i < relation.member_rows().len() ==> (#[trigger] relation.member_rows()[i]).0
                == relation.id && relation.member_rows()[i].1.maps_type.is_known(),
{
    let rows = relation.member_rows();
    assert forall|i: int| 0 <= i < rows.len() implies (#[trigger] rows[i]).0 == relation.id
        && rows[i].1.maps_type.is_known() by {
        assert(rows.contains(rows[i]));
        relation.members.lemma_filter_map_contains(member_row(relation.id), rows[i]);
    }
}

/// The function that gives a relation's member rows.
pub open spec fn member_rows_of() -> spec_fn(RelationView) -> Seq<(i64, MemberView)> {
    |relation: RelationView| relation.member_rows()
}

/// The function that gives a relation's tag rows.
pub open spec fn tag_rows_of() -> spec_fn(RelationView) -> Seq<MapsTagView> {
    |relation: RelationView| relation.tag_rows()
}

impl Relation {
    /// Builds a relation from its fields.
    pub fn new(
        id: i64,
        version: i32,
        timestamp: String,
        changeset: i64,
        uid: i64,
        user: String,
        members: Vec<Member>,
        tags: Vec<Tag>,
    ) -> (relation: Self)
        ensures
            relation == (Relation { id, version, timestamp, changeset, uid, user, members, tags }),
    {
        Relation { id, version, timestamp, changeset, uid, user, members, tags }
    }

    /// Rebuilds the relation that a fetched row holds. A row that lacks a
    /// column of the relation gives `NoDataError`; one whose members hold an
    /// id or a target that is no integer gives `IntError`.
    pub fn from_row(row: RelationRow) -> (relation: Result<Relation, ParseError>)
        ensures
            result_view(relation) == row@.relation(),
            relation is Ok ==> relation.unwrap()@.members_known(),
    {
        match (row.id, row.version, row.timestamp, row.changeset, row.uid, row.user) {
            (Some(id), Some(version), Some(timestamp), Some(changeset), Some(uid), Some(user)) => {
                let tags = match row.tags {
                    Some(column) => decode_tags(column.as_str()),
                    None => Vec::new(),
                };
                let members = match row.members {
                    Some(column) => match decode_members(column.as_str()) {
                        Ok(members) => members,
                        Err(e) => {
                            return Err(e);
                        },
                    },
                    None => Vec::new(),
                };
                let relation = Relation {
                    id,
                    version,
                    timestamp,
                    changeset,
                    uid,
                    user,
                    members,
                    tags,
                };
                assert(relation@.tags =~= row@.relation().unwrap().tags);
                assert(relation@.members =~= row@.relation().unwrap().members);
                assert forall|m: int| 0 <= m < relation@.members.len() implies (
                #[trigger] relation@.members[m]).maps_type.is_known() by {
                    assert(relation@.members[m] == relation.members@[m]@);
                }
                Ok(relation)
            },
            _ => Err(ParseError::NoDataError),
        }
    }

    /// Rebuilds the relations that fetched rows hold, in the order of the
    /// rows. A row that holds no relation fails the whole fetch.
    pub fn from_rows(rows: Vec<RelationRow>) -> (relations: Result<Vec<Relation>, ParseError>)
        ensures
            results_view(relations) == all_or_failure(
                Seq::empty(),
                views(rows@),
                relation_of_row(),
            ),
    {
        let ghost all = views(rows@);
        let mut relations: Vec<Relation> = Vec::new();
        assert(views(relations@) =~= Seq::<RelationView>::empty());
        assert(all.skip(0) =~= all);
        for row in it: rows.into_iter()
            invariant
                views(it.seq()) == all,
                all_or_failure(Seq::empty(), all, relation_of_row()) == all_or_failure(
                    views(relations@),
                    all.skip(it.index() as int),
                    relation_of_row(),
                ),
        {
            let ghost before = views(relations@);
            proof {
                assert(all.skip(it.index() as int).drop_first() =~= all.skip(it.index() + 1));
                assert(all.skip(it.index() as int)[0] == row@);
            }
            match Relation::from_row(row) {
                Ok(relation) => {
                    relations.push(relation);
                    assert(views(relations@) =~= before.push(relation@));
                },
                Err(e) => {
                    return Err(e);
                },
            }
        }
        assert(all.skip(all.len() as int) =~= Seq::<RelationRowView>::empty());
        Ok(relations)
    }

    /// What `extractor` picks from each relation, in the order of the relations.
    pub fn extract<'a, T>(
        relations: &'a [Self],
        extractor: impl Fn(&'a Relation) -> &'a T,
    ) -> (picked: Vec<&'a T>)
        requires
            forall|i: int| 0 <= i < relations@.len() ==> call_requires(extractor, (&relations@[i],)),
        ensures
            picked@.len() == relations@.len(),
            forall|i: int|
                0 <= i < relations@.len() ==> call_ensures(
                    extractor,
                    (&relations@[i],),
                    #[trigger] picked@[i],
                ),
    {
        let mut picked: Vec<&'a T> = Vec::new();
        let mut i: usize = 0;
        while i < relations.len()
            invariant
                i <= relations.len(),
                picked@.len() == i,
                forall|k: int| 0 <= k < relations@.len() ==> call_requires(extractor, (&relations@[k],)),
                forall|k: int|
                    0 <= k < i ==> call_ensures(extractor, (&relations@[k],), #[trigger] picked@[k]),
            decreases relations.len() - i,
        {
            picked.push(extractor(&relations[i]));
            i += 1;
        }
        picked
    }

    /// The rows of the tag table for a run of relations.
    pub fn extract_relation_tags(relations: &[Self]) -> (rows: Vec<MapsTag>)
        ensures
            views(rows@) == flat_rows(views(relations@), tag_rows_of()),
    {
        let mut rows: Vec<MapsTag> = Vec::new();
        let mut i: usize = 0;
        assert(views(relations@).take(0) =~= Seq::<RelationView>::empty());
        assert(views(rows@) =~= Seq::<MapsTagView>::empty());
        while i < relations.len()
            invariant
                i <= relations.len(),
                views(rows@) == flat_rows(views(relations@).take(i as int), tag_rows_of()),
            decreases relations.len() - i,
        {
            push_tag_rows(&mut rows, relations[i].id, &relations[i].tags);
            proof {
                lemma_flat_rows_step(views(relations@), tag_rows_of(), i as int);
            }
            i += 1;
        }
        assert(views(relations@).take(i as int) =~= views(relations@));
        rows
    }

    /// The rows of the member table for a run of relations: each relation's
    /// id with each of its members of a known kind, relation after relation,
    /// members in order. Members of another kind are left out.
    pub fn extract_members(relations: &[Relation]) -> (rows: Vec<(i64, Member)>)
        ensures
            views(rows@) == flat_rows(views(relations@), member_rows_of()),
    {
        let mut rows: Vec<(i64, Member)> = Vec::new();
        let mut i: usize = 0;
        assert(views(relations@).take(0) =~= Seq::<RelationView>::empty());
        assert(views(rows@) =~= Seq::<(i64, MemberView)>::empty());
        while i < relations.len()
            invariant
                i <= relations.len(),
                views(rows@) == flat_rows(views(relations@).take(i as int), member_rows_of()),
            decreases relations.len() - i,
        {
            let relation = &relations[i];
            let ghost before = views(rows@);
            let ghost members = relation@.members;
            let mut j: usize = 0;
            assert(members.take(0).filter_map(member_row(relation.id)) =~= Seq::<
                (i64, MemberView),
            >::empty());
            while j < relation.members.len()
                invariant
                    j <= relation.members.len(),
                    members == relation@.members,
                    views(rows@) == before + members.take(j as int).filter_map(
                        member_row(relation.id),
                    ),
                decreases relation.members.len() - j,
            {
                let ghost so_far = views(rows@);
                proof {
                    assert(members.take(j + 1).drop_last() =~= members.take(j as int));
                    assert(members.take(j + 1).last() == relation.members@[j as int]@);
                }
                if relation.members[j].maps_type.is_known() {
                    rows.push((relation.id, relation.members[j].clone()));
                    proof {
                        let row = (relation.id, relation.members@[j as int]@);
                        assert(views(rows@) =~= so_far.push(row));
                    }
                }
                j += 1;
            }
            proof {
                assert(members.take(j as int) =~= members);
                lemma_flat_rows_step(views(relations@), member_rows_of(), i as int);
            }
            i += 1;
        }
        assert(views(relations@).take(i as int) =~= views(relations@));
        rows
    }
}

} // verus!
