use vstd::prelude::*;
use vstd::std_specs::cmp::PartialEqSpecImpl;
use crate::tag::Tag;
use crate::tag::TagView;
use crate::text::same_text;

verus! {

/// Why a document or a fetched row was rejected.
#[derive(Debug, Clone, Copy, PartialEq, Eq, Structural)]
pub enum ParseError {
    /// A text attribute does not hold UTF-8.
    Utf8Error,
    /// An integer attribute does not hold a decimal integer of its width.
    IntError,
    /// A coordinate attribute does not hold a decimal number.
    FloatError,
    /// A mandatory column of a fetched row is absent.
    NoDataError,
    /// A member kind other than node, way or relation where one is required.
    InvalidMapsTypeError,
    /// The markup of the document is not well formed.
    XmlError,
}

impl ParseError {
    /// What the error says, in words.
    pub open spec fn words(self) -> Seq<char> {
        match self {
            ParseError::Utf8Error => "UTF-8 decoding error"@,
            ParseError::IntError => "Integer parsing error"@,
            ParseError::FloatError => "Floating point parsing error"@,
            ParseError::NoDataError => "No data available"@,
            ParseError::InvalidMapsTypeError => "Invalid MapsType"@,
            ParseError::XmlError => "XML syntax error"@,
        }
    }

    /// What the error says, in words.
    pub fn message(&self) -> (message: &'static str)
        ensures
            message@ == self.words(),
    {
        match self {
            ParseError::Utf8Error => "UTF-8 decoding error",
            ParseError::IntError => "Integer parsing error",
            ParseError::FloatError => "Floating point parsing error",
            ParseError::NoDataError => "No data available",
            ParseError::InvalidMapsTypeError => "Invalid MapsType",
            ParseError::XmlError => "XML syntax error",
        }
    }
}

/// The kind of entity that a relation member refers to.
#[derive(Debug)]
pub enum MapsType {
    Node,
    Way,
    Relation,
    Other(String),
}

/// What a `MapsType` stands for.
pub enum MapsTypeView {
    Node,
    Way,
    Relation,
    Other(Seq<char>),
}

impl View for MapsType {
    type V = MapsTypeView;

    open spec fn view(&self) -> MapsTypeView {
        match self {
            MapsType::Node => MapsTypeView::Node,
            MapsType::Way => MapsTypeView::Way,
            MapsType::Relation => MapsTypeView::Relation,
            MapsType::Other(name) => MapsTypeView::Other(name@),
        }
    }
}

impl Clone for MapsType {
    fn clone(&self) -> (copy: Self)
        ensures
            copy@ == self@,
    {
        match self {
            MapsType::Node => MapsType::Node,
            MapsType::Way => MapsType::Way,
            MapsType::Relation => MapsType::Relation,
            MapsType::Other(name) => MapsType::Other(name.clone()),
        }
    }
}

impl PartialEq for MapsType {
    fn eq(&self, other: &Self) -> (same: bool) {
        match (self, other) {
            (MapsType::Node, MapsType::Node) => true,
            (MapsType::Way, MapsType::Way) => true,
            (MapsType::Relation, MapsType::Relation) => true,
            (MapsType::Other(a), MapsType::Other(b)) => same_text(a.as_str(), b.as_str()),
            _ => false,
        }
    }
}

impl PartialEqSpecImpl for MapsType {
    open spec fn obeys_eq_spec() -> bool {
        true
    }

    open spec fn eq_spec(&self, other: &Self) -> bool {
        self@ == other@
    }
}

impl MapsTypeView {
    /// The name under which the kind is written in documents and in the store.
    pub open spec fn name(self) -> Seq<char> {
        match self {
            MapsTypeView::Node => "node"@,
            MapsTypeView::Way => "way"@,
            MapsTypeView::Relation => "relation"@,
            MapsTypeView::Other(name) => name,
        }
    }

    /// The kind that a name stands for.
    pub open spec fn from_name(name: Seq<char>) -> MapsTypeView {
        if name == "node"@ {
            MapsTypeView::Node
        } else if name == "way"@ {
            MapsTypeView::Way
        } else if name == "relation"@ {
            MapsTypeView::Relation
        } else {
            MapsTypeView::Other(name)
        }
    }

    /// Whether the kind is one of the three that the store holds.
    pub open spec fn is_known(self) -> bool {
        !(self is Other)
    }
}

impl MapsType {
    /// Whether the kind is one of the three that the store holds.
    pub fn is_known(&self) -> (known: bool)
        ensures
            known == self@.is_known(),
    {
        match self {
            MapsType::Other(_) => false,
            _ => true,
        }
    }

    /// The name under which the kind is written in documents and in the store.
    pub fn as_str(&self) -> (name: &str)
        ensures
            name@ == self@.name(),
    {
        match self {
            MapsType::Node => "node",
            MapsType::Way => "way",
            MapsType::Relation => "relation",
            MapsType::Other(s) => s.as_str(),
        }
    }

    /// The kind that a name stands for. Every name stands for one: a name
    /// other than `node`, `way` and `relation` for a kind of its own.
    pub fn from_str(s: &str) -> (kind: Result<MapsType, ParseError>)
        ensures
            kind is Ok,
            kind.unwrap()@ == MapsTypeView::from_name(s@),
    {
        if same_text(s, "node") {
            Ok(MapsType::Node)
        } else if same_text(s, "way") {
            Ok(MapsType::Way)
        } else if same_text(s, "relation") {
            Ok(MapsType::Relation)
        } else {
            Ok(MapsType::Other(s.to_owned()))
        }
    }
}

/// The views of the items of a sequence, in the same order.
pub open spec fn views<T: View>(items: Seq<T>) -> Seq<T::V> {
    items.map_values(|item: T| item@)
}

/// A result with the view of what it holds in place of the value itself.
pub open spec fn result_view<T: View>(result: Result<T, ParseError>) -> Result<T::V, ParseError> {
    match result {
        Ok(value) => Ok(value@),
        Err(e) => Err(e),
    }
}

/// What a kind that may be absent stands for.
pub open spec fn kind_view(kind: Option<MapsType>) -> Option<MapsTypeView> {
    match kind {
        Some(k) => Some(k@),
        None => None,
    }
}

/// The characters of a text that may be absent.
pub open spec fn text_view(text: Option<String>) -> Option<Seq<char>> {
    match text {
        Some(t) => Some(t@),
        None => None,
    }
}

/// A result with the views of the items that it holds in place of the items.
pub open spec fn results_view<T: View>(result: Result<Vec<T>, ParseError>) -> Result<
    Seq<T::V>,
    ParseError,
> {
    match result {
        Ok(items) => Ok(views(items@)),
        Err(e) => Err(e),
    }
}

/// What each item gives, added to `done` in the order of the items, or the
/// failure of the first item that fails: one failure fails them all.
pub open spec fn all_or_failure<A, B>(
    done: Seq<B>,
    items: Seq<A>,
    each: spec_fn(A) -> Result<B, ParseError>,
) -> Result<Seq<B>, ParseError>
    decreases items.len(),
{
    if items.len() == 0 {
        Ok(done)
    } else {
        match each(items[0]) {
            Ok(one) => all_or_failure(done.push(one), items.drop_first(), each),
            Err(e) => Err(e),
        }
    }
}

/// What the items give, added to `done` in the order of the items, where an
/// item may give nothing; or the failure of the first item that fails.
pub open spec fn kept_or_failure<A, B>(
    done: Seq<B>,
    items: Seq<A>,
    each: spec_fn(A) -> Result<Option<B>, ParseError>,
) -> Result<Seq<B>, ParseError>
    decreases items.len(),
{
    if items.len() == 0 {
        Ok(done)
    } else {
        match each(items[0]) {
            Ok(Some(one)) => kept_or_failure(done.push(one), items.drop_first(), each),
            Ok(None) => kept_or_failure(done, items.drop_first(), each),
            Err(e) => Err(e),
        }
    }
}

/// The rows that `rows` gives for each item, one item after the other.
pub open spec fn flat_rows<A, B>(items: Seq<A>, rows: spec_fn(A) -> Seq<B>) -> Seq<B> {
    items.map_values(rows).flatten()
}

/// The rows of one more item are those of the items before it, then its own.
pub proof fn lemma_flat_rows_step<A, B>(items: Seq<A>, rows: spec_fn(A) -> Seq<B>, i: int)
    requires
        0 <= i < items.len(),
    ensures
        flat_rows(items.take(i + 1), rows) == flat_rows(items.take(i), rows) + rows(items[i]),
{
    let before = items.take(i).map_values(rows);
    assert(items.take(i + 1).map_values(rows) =~= before.push(rows(items[i])));
    before.lemma_flatten_push(rows(items[i]));
}

/// The rows of two runs of items are those of the first, then those of the second.
pub proof fn lemma_flat_rows_concat<A, B>(first: Seq<A>, second: Seq<A>, rows: spec_fn(A) -> Seq<B>)
    ensures
        flat_rows(first + second, rows) == flat_rows(first, rows) + flat_rows(second, rows),
{
    assert((first + second).map_values(rows) =~= first.map_values(rows) + second.map_values(rows));
    vstd::seq_lib::lemma_flatten_concat(first.map_values(rows), second.map_values(rows));
}

/// The rows of a single item are its own.
pub proof fn lemma_flat_rows_one<A, B>(item: A, rows: spec_fn(A) -> Seq<B>)
    ensures
        flat_rows(seq![item], rows) == rows(item),
{
    let mapped = seq![item].map_values(rows);
    assert(mapped =~= seq![rows(item)]);
    assert(mapped.drop_first() =~= Seq::<Seq<B>>::empty());
    assert(mapped.drop_first().flatten() =~= Seq::<B>::empty());
    assert(mapped.flatten() =~= rows(item));
}

/// The rows that tags give when each is paired with the id of its entity.
pub open spec fn tag_rows(id: i64, tags: Seq<TagView>) -> Seq<MapsTagView> {
    tags.map_values(|tag: TagView| MapsTagView { id, tag })
}

/// Pairs each tag with the id of the entity that carries it.
pub fn push_tag_rows(rows: &mut Vec<MapsTag>, id: i64, tags: &Vec<Tag>)
    ensures
        views(final(rows)@) == views(old(rows)@) + tag_rows(id, views(tags@)),
{
    let mut j: usize = 0;
    while j < tags.len()
        invariant
            j <= tags.len(),
            views(rows@) == views(old(rows)@) + tag_rows(id, views(tags@)).take(j as int),
        decreases tags.len() - j,
    {
        let ghost before = views(rows@);
        rows.push(MapsTag { id, tag: tags[j].clone() });
        proof {
            assert(views(rows@) =~= before.push(MapsTagView { id, tag: tags@[j as int]@ }));
            assert(tag_rows(id, views(tags@)).take(j + 1) =~= tag_rows(id, views(tags@)).take(
                j as int,
            ).push(MapsTagView { id, tag: tags@[j as int]@ }));
        }
        j += 1;
    }
    assert(tag_rows(id, views(tags@)).take(j as int) =~= tag_rows(id, views(tags@)));
}

/// A copy of each tag, in the same order.
pub fn clone_tags(tags: &Vec<Tag>) -> (copy: Vec<Tag>)
    ensures
        views(copy@) == views(tags@),
{
    let mut copy: Vec<Tag> = Vec::new();
    let mut i: usize = 0;
    while i < tags.len()
        invariant
            i <= tags.len(),
            views(copy@) == views(tags@).take(i as int),
        decreases tags.len() - i,
    {
        let ghost before = views(copy@);
        copy.push(tags[i].clone());
        proof {
            assert(views(copy@) =~= before.push(tags@[i as int]@));
            assert(views(tags@).take(i + 1) =~= views(tags@).take(i as int).push(tags@[i as int]@));
        }
        i += 1;
    }
    assert(views(tags@).take(i as int) =~= views(tags@));
    copy
}

/// A tag together with the id of the entity that carries it: one row of a tag table.
#[derive(Debug)]
pub struct MapsTag {
    pub id: i64,
    pub tag: Tag,
}

/// What a `MapsTag` stands for.
pub struct MapsTagView {
    pub id: i64,
    pub tag: TagView,
}

impl View for MapsTag {
    type V = MapsTagView;

    open spec fn view(&self) -> MapsTagView {
        MapsTagView { id: self.id, tag: self.tag@ }
    }
}

impl Clone for MapsTag {
    fn clone(&self) -> (copy: Self)
        ensures
            copy@ == self@,
    {
        MapsTag { id: self.id, tag: self.tag.clone() }
    }
}

impl MapsTag {
    /// Splits tag rows into their three columns: entity ids, keys and values.
    pub fn collect_tag_data(maps_tags: &[MapsTag]) -> (columns: (Vec<i64>, Vec<&str>, Vec<&str>))
        ensures
            columns.0@ == maps_tags@.map_values(|row: MapsTag| row.id),
            columns.1@.len() == maps_tags@.len(),
            columns.2@.len() == maps_tags@.len(),
            forall|i: int|
                0 <= i < maps_tags@.len() ==> (#[trigger] columns.1@[i])@ == maps_tags@[i].tag.key@,
            forall|i: int|
                0 <= i < maps_tags@.len() ==> (#[trigger] columns.2@[i])@
                    == maps_tags@[i].tag.value@,
    {
        let mut ids: Vec<i64> = Vec::new();
        let mut keys: Vec<&str> = Vec::new();
        let mut values: Vec<&str> = Vec::new();
        let mut i: usize = 0;
        while i < maps_tags.len()
            invariant
                i <= maps_tags.len(),
                ids@ == maps_tags@.take(i as int).map_values(|row: MapsTag| row.id),
                keys@.len() == i,
                values@.len() == i,
                forall|k: int| 0 <= k < i ==> (#[trigger] keys@[k])@ == maps_tags@[k].tag.key@,
                forall|k: int| 0 <= k < i ==> (#[trigger] values@[k])@ == maps_tags@[k].tag.value@,
            decreases maps_tags.len() - i,
        {
            let row = &maps_tags[i];
            ids.push(row.id);
            keys.push(row.tag.key.as_str());
            values.push(row.tag.value.as_str());
            proof {
                assert(maps_tags@.take(i + 1).map_values(|row: MapsTag| row.id) =~= maps_tags@.take(
                    i as int,
                ).map_values(|row: MapsTag| row.id).push(row.id));
            }
            i += 1;
        }
        assert(maps_tags@.take(i as int) =~= maps_tags@);
        (ids, keys, values)
    }
}

} // verus!
