use vstd::prelude::*;
use vstd::slice::slice_subrange;
use crate::member::Member;
use crate::member::MemberView;
use crate::tag::Tag;
use crate::tag::TagView;
use crate::text::chars_of;
use crate::text::i64_of;
use crate::text::parse_i64;
use crate::text::spans_of;
use crate::text::split;
use crate::text::split_at_most;
use crate::text::split_spans;
use crate::utils::all_or_failure;
use crate::utils::kept_or_failure;
use crate::utils::results_view;
use crate::utils::views;
use crate::utils::ParseError;
use crate::utils::MapsType;
use crate::utils::MapsTypeView;

verus! {

/// The tag that one piece of a tag column holds: the key up to the first
/// colon and the value after it, further colons included. A piece without
/// a colon holds no tag.
pub open spec fn tag_of(piece: Seq<char>) -> Option<TagView> {
    let parts = split_at_most(piece, ':', 2);
    if parts.len() == 2 {
        Some(TagView { key: parts[0], value: parts[1] })
    } else {
        None
    }
}

/// The function that gives the tag of a piece.
pub open spec fn tag_of_piece() -> spec_fn(Seq<char>) -> Option<TagView> {
    |piece: Seq<char>| tag_of(piece)
}

/// The tags that a tag column holds: one for each piece between commas that
/// holds a tag, in the order of the pieces.
pub open spec fn tags_of(column: Seq<char>) -> Seq<TagView> {
    split(column, ',').filter_map(tag_of_piece())
}

/// The node reference that one piece of a column holds: the integer that
/// the piece denotes. A piece that denotes none is a failure.
pub open spec fn node_ref_of(piece: Seq<char>) -> Result<i64, ParseError> {
    match i64_of(piece) {
        Some(node_ref) => Ok(node_ref),
        None => Err(ParseError::IntError),
    }
}

/// The function that gives the node reference of a piece.
pub open spec fn node_ref_of_piece() -> spec_fn(Seq<char>) -> Result<i64, ParseError> {
    |piece: Seq<char>| node_ref_of(piece)
}

/// The node references that a column holds: one for each piece between
/// commas, in the order of the pieces. An empty column holds none. A piece
/// that is no integer fails the whole column.
pub open spec fn node_refs_of(column: Seq<char>) -> Result<Seq<i64>, ParseError> {
    if column.len() == 0 {
        Ok(Seq::empty())
    } else {
        all_or_failure(Seq::empty(), split(column, ','), node_ref_of_piece())
    }
}

/// The member that one piece of a member column holds. The piece has six
/// parts between colons: the id, the three columns for a target that is a
/// node, a way or a relation, the kind, and the role, which may itself hold
/// colons. The kind says which of the three columns holds the target; the
/// other two are not read. A piece with fewer parts, or with a kind other
/// than node, way or relation, holds no member. One of a known kind whose
/// id or target is no integer is a failure.
pub open spec fn member_of(piece: Seq<char>) -> Result<Option<MemberView>, ParseError> {
    let parts = split_at_most(piece, ':', 6);
    if parts.len() < 6 {
        Ok(None)
    } else {
        let kind = MapsTypeView::from_name(parts[4]);
        let target = match kind {
            MapsTypeView::Node => i64_of(parts[1]),
            MapsTypeView::Way => i64_of(parts[2]),
            MapsTypeView::Relation => i64_of(parts[3]),
            MapsTypeView::Other(_) => None,
        };
        if !kind.is_known() {
            Ok(None)
        } else {
            match (i64_of(parts[0]), target) {
                (Some(id), Some(ref_id)) => Ok(
                    Some(MemberView { id, ref_id, maps_type: kind, role: parts[5] }),
                ),
                _ => Err(ParseError::IntError),
            }
        }
    }
}

/// The function that gives the member of a piece.
pub open spec fn member_of_piece() -> spec_fn(Seq<char>) -> Result<Option<MemberView>, ParseError> {
    |piece: Seq<char>| member_of(piece)
}

/// The members that a member column holds: one for each piece between
/// commas that holds a member, in the order of the pieces. A piece whose
/// id or target is no integer fails the whole column.
pub open spec fn members_of(column: Seq<char>) -> Result<Seq<MemberView>, ParseError> {
    kept_or_failure(Seq::empty(), split(column, ','), member_of_piece())
}

/// Whether every member is of a known kind.
pub open spec fn all_known(members: Seq<MemberView>) -> bool {
    forall|i: int| 0 <= i < members.len() ==> (#[trigger] members[i]).maps_type.is_known()
}

/// Pieces add only members of known kinds to members of known kinds.
pub proof fn lemma_kept_members_known(done: Seq<MemberView>, pieces: Seq<Seq<char>>)
    requires
        all_known(done),
    ensures
        kept_or_failure(done, pieces, member_of_piece()) is Ok ==> all_known(
            kept_or_failure(done, pieces, member_of_piece()).unwrap(),
        ),
    decreases pieces.len(),
{
    if pieces.len() > 0 {
        match member_of(pieces[0]) {
            Ok(Some(member)) => {
                let longer = done.push(member);
                assert forall|i: int| 0 <= i < longer.len() implies (
                #[trigger] longer[i]).maps_type.is_known() by {
                    if i < done.len() {
                        assert(longer[i] == done[i]);
                    }
                }
                lemma_kept_members_known(longer, pieces.drop_first());
            },
            Ok(None) => {
                lemma_kept_members_known(done, pieces.drop_first());
            },
            Err(_) => {},
        }
    }
}

/// Every member that a member column holds is of a known kind: a piece
/// that names another kind holds no member.
pub proof fn lemma_members_of_known(column: Seq<char>)
    ensures
        members_of(column) is Ok ==> all_known(members_of(column).unwrap()),
{
    lemma_kept_members_known(Seq::empty(), split(column, ','));
}

/// Calls `String::from_iter` on the characters. Claimed: the text holds
/// these characters, in this order.
#[verifier::external_body]
pub(crate) fn text_from(chars: &[char]) -> (text: String)
    ensures
        text@ == chars@,
{
    String::from_iter(chars)
}

/// Decodes the tag that one piece of a tag column holds.
pub fn decode_tag(piece: &[char]) -> (tag: Option<Tag>)
    ensures
        match tag {
            Some(t) => tag_of(piece@) == Some(t@),
            None => tag_of(piece@) is None,
        },
{
    let parts = split_spans(piece, ':', Some(2));
    assert(spans_of(parts@, piece@).len() == parts@.len());
    if parts.len() == 2 {
        let key = text_from(slice_subrange(piece, parts[0].start, parts[0].end));
        let value = text_from(slice_subrange(piece, parts[1].start, parts[1].end));
        assert(spans_of(parts@, piece@)[0] == key@);
        assert(spans_of(parts@, piece@)[1] == value@);
        Some(Tag { key, value })
    } else {
        None
    }
}

/// Decodes the tags that a tag column holds.
pub fn decode_tags(column: &str) -> (tags: Vec<Tag>)
    ensures
        views(tags@) == tags_of(column@),
{
    let chars = chars_of(column);
    let pieces = split_spans(chars.as_slice(), ',', None);
    let ghost all = spans_of(pieces@, chars@);
    let mut tags: Vec<Tag> = Vec::new();
    let mut i: usize = 0;
    assert(all.take(0) =~= Seq::<Seq<char>>::empty());
    assert(views(tags@) =~= all.take(0).filter_map(tag_of_piece()));
    while i < pieces.len()
        invariant
            i <= pieces.len(),
            all == spans_of(pieces@, chars@),
            forall|k: int| 0 <= k < pieces@.len() ==> (#[trigger] pieces@[k]).fits(chars@.len()),
            views(tags@) == all.take(i as int).filter_map(tag_of_piece()),
        decreases pieces.len() - i,
    {
        let piece = slice_subrange(chars.as_slice(), pieces[i].start, pieces[i].end);
        let ghost before = views(tags@);
        proof {
            assert(all.take(i + 1).drop_last() =~= all.take(i as int));
            assert(all.take(i + 1).last() == piece@);
        }
        match decode_tag(piece) {
            Some(tag) => {
                tags.push(tag);
                assert(views(tags@) =~= before + seq![tag@]);
            },
            None => {},
        }
        i += 1;
    }
    assert(all.take(i as int) =~= all);
    tags
}

/// Decodes the node references that a column holds.
pub fn decode_node_refs(column: &str) -> (node_refs: Result<Vec<i64>, ParseError>)
    ensures
        match node_refs {
            Ok(all) => node_refs_of(column@) == Ok::<Seq<i64>, ParseError>(all@),
            Err(e) => node_refs_of(column@) == Err::<Seq<i64>, ParseError>(e),
        },
{
    let chars = chars_of(column);
    let mut node_refs: Vec<i64> = Vec::new();
    if chars.len() == 0 {
        assert(node_refs@ =~= Seq::<i64>::empty());
        return Ok(node_refs);
    }
    let pieces = split_spans(chars.as_slice(), ',', None);
    let ghost all = spans_of(pieces@, chars@);
    let mut i: usize = 0;
    assert(all.skip(0) =~= all);
    assert(node_refs@ =~= Seq::<i64>::empty());
    while i < pieces.len()
        invariant
            i <= pieces.len(),
            all == spans_of(pieces@, chars@),
            all == split(column@, ','),
            column@.len() > 0,
            forall|k: int| 0 <= k < pieces@.len() ==> (#[trigger] pieces@[k]).fits(chars@.len()),
            all_or_failure(Seq::empty(), all, node_ref_of_piece()) == all_or_failure(
                node_refs@,
                all.skip(i as int),
                node_ref_of_piece(),
            ),
        decreases pieces.len() - i,
    {
        let piece = slice_subrange(chars.as_slice(), pieces[i].start, pieces[i].end);
        proof {
            assert(all.skip(i as int).drop_first() =~= all.skip(i + 1));
            assert(all.skip(i as int)[0] == piece@);
        }
        match parse_i64(piece) {
            Some(node_ref) => {
                node_refs.push(node_ref);
            },
            None => {
                return Err(ParseError::IntError);
            },
        }
        i += 1;
    }
    Ok(node_refs)
}

/// Decodes the member that one piece of a member column holds.
pub fn decode_member(piece: &[char]) -> (member: Result<Option<Member>, ParseError>)
    ensures
        match member {
            Ok(Some(m)) => member_of(piece@) == Ok::<Option<MemberView>, ParseError>(Some(m@)),
            Ok(None) => member_of(piece@) == Ok::<Option<MemberView>, ParseError>(None),
            Err(e) => member_of(piece@) == Err::<Option<MemberView>, ParseError>(e),
        },
{
    let parts = split_spans(piece, ':', Some(6));
    let ghost texts = spans_of(parts@, piece@);
    assert(texts.len() == parts@.len());
    if parts.len() < 6 {
        return Ok(None);
    }
    let name = text_from(slice_subrange(piece, parts[4].start, parts[4].end));
    assert(name@ == texts[4]);
    let kind = match MapsType::from_str(name.as_str()) {
        Ok(kind) => kind,
        Err(e) => {
            return Err(e);
        },
    };
    let slot: usize = match kind {
        MapsType::Node => 1,
        MapsType::Way => 2,
        MapsType::Relation => 3,
        MapsType::Other(_) => {
            return Ok(None);
        },
    };
    let id = parse_i64(slice_subrange(piece, parts[0].start, parts[0].end));
    let target = parse_i64(slice_subrange(piece, parts[slot].start, parts[slot].end));
    assert(id == i64_of(texts[0]));
    assert(target == i64_of(texts[slot as int]));
    match (id, target) {
        (Some(id), Some(ref_id)) => {
            let role = text_from(slice_subrange(piece, parts[5].start, parts[5].end));
            assert(role@ == texts[5]);
            Ok(Some(Member { id, ref_id, maps_type: kind, role }))
        },
        _ => Err(ParseError::IntError),
    }
}

/// Decodes the members that a member column holds.
pub fn decode_members(column: &str) -> (members: Result<Vec<Member>, ParseError>)
    ensures
        results_view(members) == members_of(column@),
        members is Ok ==> all_known(views(members.unwrap()@)),
{
    proof {
        lemma_members_of_known(column@);
    }
    let chars = chars_of(column);
    let pieces = split_spans(chars.as_slice(), ',', None);
    let ghost all = spans_of(pieces@, chars@);
    let mut members: Vec<Member> = Vec::new();
    let mut i: usize = 0;
    assert(all.skip(0) =~= all);
    assert(views(members@) =~= Seq::<MemberView>::empty());
    while i < pieces.len()
        invariant
            i <= pieces.len(),
            all == spans_of(pieces@, chars@),
            all == split(column@, ','),
            forall|k: int| 0 <= k < pieces@.len() ==> (#[trigger] pieces@[k]).fits(chars@.len()),
            kept_or_failure(Seq::empty(), all, member_of_piece()) == kept_or_failure(
                views(members@),
                all.skip(i as int),
                member_of_piece(),
            ),
        decreases pieces.len() - i,
    {
        let piece = slice_subrange(chars.as_slice(), pieces[i].start, pieces[i].end);
        let ghost before = views(members@);
        proof {
            assert(all.skip(i as int).drop_first() =~= all.skip(i + 1));
            assert(all.skip(i as int)[0] == piece@);
        }
        match decode_member(piece) {
            Ok(Some(member)) => {
                members.push(member);
                assert(views(members@) =~= before.push(member@));
            },
            Ok(None) => {},
            Err(e) => {
                return Err(e);
            },
        }
        i += 1;
    }
    Ok(members)
}

} // verus!
