use vstd::prelude::*;
use crate::decode::member_of;
use crate::decode::member_of_piece;
use crate::decode::members_of;
use crate::decode::node_ref_of_piece;
use crate::decode::node_refs_of;
use crate::decode::tag_of;
use crate::decode::tag_of_piece;
use crate::decode::tags_of;
use crate::member::MemberView;
use crate::node::NodeRowView;
use crate::node::NodeView;
use crate::relation::RelationRowView;
use crate::relation::RelationView;
use crate::tag::TagView;
use crate::text::all_digits;
use crate::text::digit_value;
use crate::text::digits_value;
use crate::text::has_sign;
use crate::text::i64_of;
use crate::text::integer_of;
use crate::text::is_digit;
use crate::text::lemma_digits_value_push;
use crate::text::lemma_position_is;
use crate::text::lemma_split_room;
use crate::text::split;
use crate::text::split_at_most;
use crate::text::unsigned_part;
use crate::utils::all_or_failure;
use crate::utils::kept_or_failure;
use crate::utils::MapsTypeView;
use crate::utils::ParseError;
use crate::way::WayRowView;
use crate::way::WayView;

verus! {

/// The character for a digit below ten.
pub open spec fn digit_char(d: nat) -> char {
    ('0' as u32 + d) as char
}

/// The digits of a natural number, without leading zeros.
pub open spec fn digits_of(n: nat) -> Seq<char>
    decreases n,
{
    if n < 10 {
        seq![digit_char(n)]
    } else {
        digits_of(n / 10).push(digit_char(n % 10))
    }
}

/// An integer as the store writes it into a folded column: its digits, with
/// a minus sign before them where it is negative.
pub open spec fn decimal(v: int) -> Seq<char> {
    if v < 0 {
        seq!['-'] + digits_of((-v) as nat)
    } else {
        digits_of(v as nat)
    }
}

/// The pieces with the delimiter between each two of them.
pub open spec fn join(pieces: Seq<Seq<char>>, d: char) -> Seq<char>
    decreases pieces.len(),
{
    if pieces.len() == 0 {
        Seq::empty()
    } else if pieces.len() == 1 {
        pieces[0]
    } else {
        pieces[0] + seq![d] + join(pieces.drop_first(), d)
    }
}

/// Whether a text holds the character nowhere.
pub open spec fn free_of(s: Seq<char>, d: char) -> bool {
    forall|i: int| 0 <= i < s.len() ==> s[i] != d
}

/// A tag as the store folds it: key, colon, value.
pub open spec fn tag_text(tag: TagView) -> Seq<char> {
    tag.key + seq![':'] + tag.value
}

/// The function that folds a tag.
pub open spec fn tag_text_of() -> spec_fn(TagView) -> Seq<char> {
    |tag: TagView| tag_text(tag)
}

/// The tag column that the store folds from the tags of one entity.
pub open spec fn tags_text(tags: Seq<TagView>) -> Seq<char> {
    join(tags.map_values(tag_text_of()), ',')
}

/// The function that writes a node reference.
pub open spec fn node_ref_text_of() -> spec_fn(i64) -> Seq<char> {
    |node_ref: i64| decimal(node_ref as int)
}

/// The column that the store folds from the node references of one way.
pub open spec fn node_refs_text(node_refs: Seq<i64>) -> Seq<char> {
    join(node_refs.map_values(node_ref_text_of()), ',')
}

/// A column that may be empty, as the store writes it into a folded column.
pub open spec fn slot_text(slot: Option<i64>) -> Seq<char> {
    match slot {
        Some(v) => decimal(v as int),
        None => Seq::empty(),
    }
}

/// A member as the store folds it: the id, the three columns for the
/// target, of which the member's kind fills one, the kind and the role,
/// with colons between them.
pub open spec fn member_text(member: MemberView) -> Seq<char> {
    let keys = member.foreign_keys();
    decimal(member.id as int) + seq![':'] + slot_text(keys.node_id) + seq![':'] + slot_text(
        keys.way_id,
    ) + seq![':'] + slot_text(keys.relation_ref_id) + seq![':'] + member.maps_type.name() + seq![
        ':',
    ] + member.role
}

/// The function that folds a member.
pub open spec fn member_text_of() -> spec_fn(MemberView) -> Seq<char> {
    |member: MemberView| member_text(member)
}

/// The member column that the store folds from the members of one relation.
pub open spec fn members_text(members: Seq<MemberView>) -> Seq<char> {
    join(members.map_values(member_text_of()), ',')
}

/// The digits of a number are digits, and they stand for the number.
pub proof fn lemma_digits_of(n: nat)
    ensures
        digits_of(n).len() > 0,
        all_digits(digits_of(n)),
        digits_value(digits_of(n)) == n,
    decreases n,
{
    if n < 10 {
        let s = digits_of(n);
        assert(is_digit(digit_char(n)) && digit_value(digit_char(n)) == n);
        assert(s.drop_last() =~= Seq::<char>::empty());
        assert(digits_value(s.drop_last()) == 0);
    } else {
        lemma_digits_of(n / 10);
        let d = digit_char(n % 10);
        assert(is_digit(d) && digit_value(d) == n % 10);
        lemma_digits_value_push(digits_of(n / 10), d);
    }
}

/// An integer written in decimal reads back as itself, and holds neither a
/// comma nor a colon.
pub proof fn lemma_decimal(v: int)
    ensures
        integer_of(decimal(v)) == Some(v),
        free_of(decimal(v), ','),
        free_of(decimal(v), ':'),
        decimal(v).len() > 0,
{
    let n = if v < 0 {
        (-v) as nat
    } else {
        v as nat
    };
    lemma_digits_of(n);
    let s = decimal(v);
    if v < 0 {
        assert(s[0] == '-');
        assert(unsigned_part(s) =~= digits_of(n));
        assert forall|i: int| 0 <= i < s.len() implies s[i] != ',' && s[i] != ':' by {
            if i > 0 {
                assert(is_digit(digits_of(n)[i - 1]));
            }
        }
    } else {
        assert(is_digit(s[0]));
        assert(!has_sign(s));
        assert forall|i: int| 0 <= i < s.len() implies s[i] != ',' && s[i] != ':' by {
            assert(is_digit(s[i]));
        }
    }
}

/// A text that holds no delimiter is one piece.
pub proof fn lemma_split_whole(s: Seq<char>, d: char, n: nat)
    requires
        free_of(s, d),
        n >= 1,
    ensures
        split_at_most(s, d, n) == seq![s],
{
    lemma_position_is(s, d, s.len() as int);
}

/// A text that starts with a piece free of the delimiter, then the
/// delimiter, is cut after that piece.
pub proof fn lemma_split_first(head: Seq<char>, tail: Seq<char>, d: char, n: nat)
    requires
        free_of(head, d),
        n >= 2,
    ensures
        split_at_most(head + seq![d] + tail, d, n) == seq![head] + split_at_most(
            tail,
            d,
            (n - 1) as nat,
        ),
{
    let s = head + seq![d] + tail;
    assert forall|k: int| 0 <= k < head.len() implies s[k] != d by {
        assert(s[k] == head[k]);
    }
    assert(s[head.len() as int] == d);
    lemma_position_is(s, d, head.len() as int);
    assert(s.take(head.len() as int) =~= head);
    assert(s.skip(head.len() as int + 1) =~= tail);
}

/// Cutting what was joined gives the pieces back, where there is at least
/// one piece and none holds the delimiter.
pub proof fn lemma_split_join(pieces: Seq<Seq<char>>, d: char)
    requires
        pieces.len() > 0,
        forall|i: int| 0 <= i < pieces.len() ==> free_of(#[trigger] pieces[i], d),
    ensures
        split(join(pieces, d), d) == pieces,
    decreases pieces.len(),
{
    let joined = join(pieces, d);
    if pieces.len() == 1 {
        lemma_split_whole(pieces[0], d, joined.len() + 1);
        assert(pieces =~= seq![pieces[0]]);
    } else {
        let rest = pieces.drop_first();
        let tail = join(rest, d);
        assert forall|i: int| 0 <= i < rest.len() implies free_of(#[trigger] rest[i], d) by {
            assert(rest[i] == pieces[i + 1]);
        }
        lemma_split_join(rest, d);
        lemma_split_first(pieces[0], tail, d, joined.len() + 1);
        lemma_split_room(tail, d, joined.len() as nat);
        assert(pieces =~= seq![pieces[0]] + rest);
    }
}

/// Decoding each encoded item gives the items back, where decoding undoes
/// encoding on each of them.
pub proof fn lemma_filter_map_undoes<A, B>(
    items: Seq<A>,
    encode: spec_fn(A) -> B,
    decode: spec_fn(B) -> Option<A>,
)
    requires
        forall|i: int| 0 <= i < items.len() ==> decode(encode(#[trigger] items[i])) == Some(items[i]),
    ensures
        items.map_values(encode).filter_map(decode) == items,
    decreases items.len(),
{
    let encoded = items.map_values(encode);
    if items.len() == 0 {
        assert(encoded.filter_map(decode) =~= items);
    } else {
        let shorter = items.drop_last();
        assert forall|i: int| 0 <= i < shorter.len() implies decode(encode(#[trigger] shorter[i]))
            == Some(shorter[i]) by {
            assert(shorter[i] == items[i]);
        }
        lemma_filter_map_undoes(shorter, encode, decode);
        assert(encoded.drop_last() =~= shorter.map_values(encode));
        assert(encoded.last() == encode(items.last()));
        assert(shorter + seq![items.last()] =~= items);
    }
}

/// A tag reads back from its text, where its key holds no colon.
pub proof fn lemma_tag_round_trip(tag: TagView)
    requires
        free_of(tag.key, ':'),
    ensures
        tag_of(tag_text(tag)) == Some(tag),
{
    lemma_split_first(tag.key, tag.value, ':', 2);
    assert(split_at_most(tag.value, ':', 1) =~= seq![tag.value]);
}

/// The tags of an entity read back from the column into which the store
/// folds them, each with its key and its value, in the order in which they
/// were folded. This holds where there is at least one tag, no key holds a
/// colon, and neither key nor value holds a comma.
pub proof fn lemma_tags_round_trip(tags: Seq<TagView>)
    requires
        tags.len() > 0,
        forall|i: int|
            0 <= i < tags.len() ==> free_of((#[trigger] tags[i]).key, ':') && free_of(
                tags[i].key,
                ',',
            ) && free_of(tags[i].value, ','),
    ensures
        tags_of(tags_text(tags)) == tags,
{
    let pieces = tags.map_values(tag_text_of());
    assert forall|i: int| 0 <= i < pieces.len() implies free_of(#[trigger] pieces[i], ',') by {
        let tag = tags[i];
        assert(free_of(tag.key, ',') && free_of(tag.value, ','));
        let text = tag_text(tag);
        assert forall|k: int| 0 <= k < text.len() implies text[k] != ',' by {
            if k < tag.key.len() {
                assert(text[k] == tag.key[k]);
            } else if k > tag.key.len() {
                assert(text[k] == tag.value[k - tag.key.len() - 1]);
            }
        }
    }
    lemma_split_join(pieces, ',');
    assert forall|i: int| 0 <= i < tags.len() implies tag_of_piece()(
        tag_text_of()(#[trigger] tags[i]),
    ) == Some(tags[i]) by {
        lemma_tag_round_trip(tags[i]);
    }
    lemma_filter_map_undoes(tags, tag_text_of(), tag_of_piece());
}

/// Decoding each encoded item, one failure failing all, gives the items
/// back after those that were there, where decoding undoes encoding on
/// each of them.
pub proof fn lemma_all_undoes<A, B>(
    done: Seq<A>,
    items: Seq<A>,
    encode: spec_fn(A) -> B,
    decode: spec_fn(B) -> Result<A, ParseError>,
)
    requires
        forall|i: int|
            0 <= i < items.len() ==> decode(encode(#[trigger] items[i])) == Ok::<A, ParseError>(
                items[i],
            ),
    ensures
        all_or_failure(done, items.map_values(encode), decode) == Ok::<Seq<A>, ParseError>(
            done + items,
        ),
    decreases items.len(),
{
    let encoded = items.map_values(encode);
    if items.len() == 0 {
        assert(done + items =~= done);
    } else {
        let rest = items.drop_first();
        assert(encoded[0] == encode(items[0]));
        assert(encoded.drop_first() =~= rest.map_values(encode));
        assert forall|i: int| 0 <= i < rest.len() implies decode(encode(#[trigger] rest[i]))
            == Ok::<A, ParseError>(rest[i]) by {
            assert(rest[i] == items[i + 1]);
        }
        lemma_all_undoes(done.push(items[0]), rest, encode, decode);
        assert(done.push(items[0]) + rest =~= done + items);
    }
}

/// Decoding each encoded item, where a piece may hold nothing and one
/// failure fails all, gives the items back after those that were there,
/// where decoding undoes encoding on each of them.
pub proof fn lemma_kept_undoes<A, B>(
    done: Seq<A>,
    items: Seq<A>,
    encode: spec_fn(A) -> B,
    decode: spec_fn(B) -> Result<Option<A>, ParseError>,
)
    requires
        forall|i: int|
            0 <= i < items.len() ==> decode(encode(#[trigger] items[i])) == Ok::<
                Option<A>,
                ParseError,
            >(Some(items[i])),
    ensures
        kept_or_failure(done, items.map_values(encode), decode) == Ok::<Seq<A>, ParseError>(
            done + items,
        ),
    decreases items.len(),
{
    let encoded = items.map_values(encode);
    if items.len() == 0 {
        assert(done + items =~= done);
    } else {
        let rest = items.drop_first();
        assert(encoded[0] == encode(items[0]));
        assert(encoded.drop_first() =~= rest.map_values(encode));
        assert forall|i: int| 0 <= i < rest.len() implies decode(encode(#[trigger] rest[i]))
            == Ok::<Option<A>, ParseError>(Some(rest[i])) by {
            assert(rest[i] == items[i + 1]);
        }
        lemma_kept_undoes(done.push(items[0]), rest, encode, decode);
        assert(done.push(items[0]) + rest =~= done + items);
    }
}

/// The node references of a way read back from the column into which the
/// store folds them, in the order in which they were folded, where there
/// is at least one.
pub proof fn lemma_node_refs_round_trip(node_refs: Seq<i64>)
    requires
        node_refs.len() > 0,
    ensures
        node_refs_of(node_refs_text(node_refs)) == Ok::<Seq<i64>, ParseError>(node_refs),
{
    let pieces = node_refs.map_values(node_ref_text_of());
    assert forall|i: int| 0 <= i < pieces.len() implies free_of(#[trigger] pieces[i], ',') by {
        lemma_decimal(node_refs[i] as int);
    }
    lemma_split_join(pieces, ',');
    assert forall|i: int| 0 <= i < node_refs.len() implies node_ref_of_piece()(
        node_ref_text_of()(#[trigger] node_refs[i]),
    ) == Ok::<i64, ParseError>(node_refs[i]) by {
        lemma_decimal(node_refs[i] as int);
    }
    lemma_all_undoes(Seq::empty(), node_refs, node_ref_text_of(), node_ref_of_piece());
    assert(Seq::<i64>::empty() + node_refs =~= node_refs);
    assert(node_refs_text(node_refs).len() > 0) by {
        lemma_decimal(node_refs[0] as int);
        assert(pieces[0] == decimal(node_refs[0] as int));
    }
}

/// The names of the three known kinds hold neither a colon nor a comma,
/// and each stands for its own kind.
pub proof fn lemma_kind_names(kind: MapsTypeView)
    requires
        kind.is_known(),
    ensures
        free_of(kind.name(), ':'),
        free_of(kind.name(), ','),
        MapsTypeView::from_name(kind.name()) == kind,
{
    reveal_strlit("node");
    reveal_strlit("way");
    reveal_strlit("relation");
    assert("node"@.len() == 4);
    assert("way"@.len() == 3);
    assert("relation"@.len() == 8);
}

/// A column that may be empty holds neither a colon nor a comma.
pub proof fn lemma_slot_text(slot: Option<i64>)
    ensures
        free_of(slot_text(slot), ':'),
        free_of(slot_text(slot), ','),
        slot is Some ==> i64_of(slot_text(slot)) == slot,
{
    if let Some(v) = slot {
        lemma_decimal(v as int);
    }
}

/// Two texts free of a character, with another character between them, are
/// free of it together.
pub proof fn lemma_free_of_joined(head: Seq<char>, between: char, tail: Seq<char>, d: char)
    requires
        free_of(head, d),
        free_of(tail, d),
        between != d,
    ensures
        free_of(head + seq![between] + tail, d),
{
    let s = head + seq![between] + tail;
    assert forall|k: int| 0 <= k < s.len() implies s[k] != d by {
        if k < head.len() {
            assert(s[k] == head[k]);
        } else if k > head.len() {
            assert(s[k] == tail[k - head.len() - 1]);
        }
    }
}

/// A member of a known kind reads back from its text: with its id, its
/// target in the column that its kind selects, its kind and its role,
/// whatever the role holds, the empty role and a role with colons too.
pub proof fn lemma_member_round_trip(member: MemberView)
    requires
        member.maps_type.is_known(),
    ensures
        member_of(member_text(member)) == Ok::<Option<MemberView>, ParseError>(Some(member)),
{
    let keys = member.foreign_keys();
    let id = decimal(member.id as int);
    let node = slot_text(keys.node_id);
    let way = slot_text(keys.way_id);
    let relation = slot_text(keys.relation_ref_id);
    let kind = member.maps_type.name();
    let role = member.role;
    let from_kind = kind + seq![':'] + role;
    let from_relation = relation + seq![':'] + from_kind;
    let from_way = way + seq![':'] + from_relation;
    let from_node = node + seq![':'] + from_way;
    let text = id + seq![':'] + from_node;
    assert(member_text(member) =~= text);
    lemma_decimal(member.id as int);
    lemma_slot_text(keys.node_id);
    lemma_slot_text(keys.way_id);
    lemma_slot_text(keys.relation_ref_id);
    lemma_kind_names(member.maps_type);
    lemma_split_first(id, from_node, ':', 6);
    lemma_split_first(node, from_way, ':', 5);
    lemma_split_first(way, from_relation, ':', 4);
    lemma_split_first(relation, from_kind, ':', 3);
    lemma_split_first(kind, role, ':', 2);
    assert(split_at_most(role, ':', 1) =~= seq![role]);
    let parts = split_at_most(text, ':', 6);
    assert(parts =~= seq![id, node, way, relation, kind, role]);
}

/// A member's text holds no comma where its role holds none.
pub proof fn lemma_member_text_free_of_comma(member: MemberView)
    requires
        member.maps_type.is_known(),
        free_of(member.role, ','),
    ensures
        free_of(member_text(member), ','),
{
    let keys = member.foreign_keys();
    let id = decimal(member.id as int);
    let node = slot_text(keys.node_id);
    let way = slot_text(keys.way_id);
    let relation = slot_text(keys.relation_ref_id);
    let kind = member.maps_type.name();
    let role = member.role;
    let from_kind = kind + seq![':'] + role;
    let from_relation = relation + seq![':'] + from_kind;
    let from_way = way + seq![':'] + from_relation;
    let from_node = node + seq![':'] + from_way;
    let text = id + seq![':'] + from_node;
    assert(member_text(member) =~= text);
    lemma_decimal(member.id as int);
    lemma_slot_text(keys.node_id);
    lemma_slot_text(keys.way_id);
    lemma_slot_text(keys.relation_ref_id);
    lemma_kind_names(member.maps_type);
    lemma_free_of_joined(kind, ':', role, ',');
    lemma_free_of_joined(relation, ':', from_kind, ',');
    lemma_free_of_joined(way, ':', from_relation, ',');
    lemma_free_of_joined(node, ':', from_way, ',');
    lemma_free_of_joined(id, ':', from_node, ',');
}

/// The members of a relation read back from the column into which the store
/// folds them, each with its id, its target, its kind and its role exactly,
/// in the order in which they were folded. This holds where there is at
/// least one member, every member is of a known kind, and no role holds a
/// comma.
pub proof fn lemma_members_round_trip(members: Seq<MemberView>)
    requires
        members.len() > 0,
        forall|i: int|
            0 <= i < members.len() ==> (#[trigger] members[i]).maps_type.is_known() && free_of(
                members[i].role,
                ',',
            ),
    ensures
        members_of(members_text(members)) == Ok::<Seq<MemberView>, ParseError>(members),
{
    let pieces = members.map_values(member_text_of());
    assert forall|i: int| 0 <= i < pieces.len() implies free_of(#[trigger] pieces[i], ',') by {
        lemma_member_text_free_of_comma(members[i]);
    }
    lemma_split_join(pieces, ',');
    assert forall|i: int| 0 <= i < members.len() implies member_of_piece()(
        member_text_of()(#[trigger] members[i]),
    ) == Ok::<Option<MemberView>, ParseError>(Some(members[i])) by {
        lemma_member_round_trip(members[i]);
    }
    lemma_kept_undoes(Seq::empty(), members, member_text_of(), member_of_piece());
    assert(Seq::<MemberView>::empty() + members =~= members);
}

/// The store keeps the target of a member in exactly one of three columns:
/// the one that the member's kind selects holds the target, and the other
/// two are empty.
pub proof fn lemma_one_foreign_key(member: MemberView)
    requires
        member.maps_type.is_known(),
    ensures
        member.maps_type is Node ==> member.foreign_keys().node_id == Some(member.ref_id)
            && member.foreign_keys().way_id is None && member.foreign_keys().relation_ref_id
            is None,
        member.maps_type is Way ==> member.foreign_keys().way_id == Some(member.ref_id)
            && member.foreign_keys().node_id is None && member.foreign_keys().relation_ref_id
            is None,
        member.maps_type is Relation ==> member.foreign_keys().relation_ref_id == Some(
            member.ref_id,
        ) && member.foreign_keys().node_id is None && member.foreign_keys().way_id is None,
{
}

/// Whether tags can be told apart again once they are folded: no key holds
/// a colon, and neither key nor value holds a comma.
pub open spec fn tags_foldable(tags: Seq<TagView>) -> bool {
    forall|i: int|
        0 <= i < tags.len() ==> free_of((#[trigger] tags[i]).key, ':') && free_of(tags[i].key, ',')
            && free_of(tags[i].value, ',')
}

/// Whether members can be told apart again once they are folded: each is of
/// a known kind, and no role holds a comma.
pub open spec fn members_foldable(members: Seq<MemberView>) -> bool {
    forall|i: int|
        0 <= i < members.len() ==> (#[trigger] members[i]).maps_type.is_known() && free_of(
            members[i].role,
            ',',
        )
}

/// The tag column of the row that the store hands back for an entity with
/// these tags, where it holds them all and folds them in their order:
/// absent where there is none. The store keeps one tag for each key of an
/// entity: of tags that share a key this is not the column.
pub open spec fn tags_column(tags: Seq<TagView>) -> Option<Seq<char>> {
    if tags.len() == 0 {
        None
    } else {
        Some(tags_text(tags))
    }
}

/// The row that the store hands back for a node that it holds.
pub open spec fn node_row(node: NodeView) -> NodeRowView {
    NodeRowView {
        id: Some(node.id),
        lat: Some(node.lat),
        lon: Some(node.lon),
        version: Some(node.version),
        timestamp: Some(node.timestamp),
        changeset: Some(node.changeset),
        uid: Some(node.uid),
        user: Some(node.user),
        tags: tags_column(node.tags),
    }
}

/// The row that the store hands back for a way, where it holds every node
/// reference of the way and folds them in the order of the path. A store
/// that keeps one row for each pair of way and node holds a reference that
/// the path repeats only once: of such a way this is not the row.
pub open spec fn way_row(way: WayView) -> WayRowView {
    WayRowView {
        id: Some(way.id),
        version: Some(way.version),
        timestamp: Some(way.timestamp),
        changeset: Some(way.changeset),
        uid: Some(way.uid),
        user: Some(way.user),
        node_refs: if way.node_refs.len() == 0 {
            None
        } else {
            Some(node_refs_text(way.node_refs))
        },
        tags: tags_column(way.tags),
    }
}

/// The function that keeps a member of a known kind and drops any other.
pub open spec fn known_member() -> spec_fn(MemberView) -> Option<MemberView> {
    |member: MemberView|
        if member.maps_type.is_known() {
            Some(member)
        } else {
            None
        }
}

/// The members that the store holds of these: those of a known kind, in
/// their order. Members of another kind are dropped before they are stored.
pub open spec fn stored_members(members: Seq<MemberView>) -> Seq<MemberView> {
    members.filter_map(known_member())
}

/// The row that the store hands back for a relation that was loaded, where
/// it folds the members that it holds in their order.
pub open spec fn relation_row(relation: RelationView) -> RelationRowView {
    RelationRowView {
        id: Some(relation.id),
        version: Some(relation.version),
        timestamp: Some(relation.timestamp),
        changeset: Some(relation.changeset),
        uid: Some(relation.uid),
        user: Some(relation.user),
        tags: tags_column(relation.tags),
        members: if stored_members(relation.members).len() == 0 {
            None
        } else {
            Some(members_text(stored_members(relation.members)))
        },
    }
}

/// The members that the store holds are of known kinds, and each is one of
/// the members that were given.
pub proof fn lemma_stored_members(members: Seq<MemberView>)
    ensures
        forall|i: int|
            0 <= i < stored_members(members).len() ==> (#[trigger] stored_members(
                members,
            )[i]).maps_type.is_known() && members.contains(stored_members(members)[i]),
{
    let stored = stored_members(members);
    assert forall|i: int| 0 <= i < stored.len() implies (#[trigger] stored[i]).maps_type.is_known()
        && members.contains(stored[i]) by {
        assert(stored.contains(stored[i]));
        members.lemma_filter_map_contains(known_member(), stored[i]);
    }
}

/// Where every member is of a known kind, the store holds them all.
pub proof fn lemma_all_members_stored(members: Seq<MemberView>)
    requires
        forall|i: int| 0 <= i < members.len() ==> (#[trigger] members[i]).maps_type.is_known(),
    ensures
        stored_members(members) == members,
    decreases members.len(),
{
    if members.len() == 0 {
        assert(stored_members(members) =~= members);
    } else {
        let shorter = members.drop_last();
        assert forall|i: int| 0 <= i < shorter.len() implies (
        #[trigger] shorter[i]).maps_type.is_known() by {
            assert(shorter[i] == members[i]);
        }
        lemma_all_members_stored(shorter);
        assert(shorter + seq![members.last()] =~= members);
    }
}

/// The tags of an entity are rebuilt from its tag column as they were.
pub proof fn lemma_tags_column_round_trip(tags: Seq<TagView>)
    requires
        tags_foldable(tags),
    ensures
        match tags_column(tags) {
            Some(column) => tags_of(column) == tags,
            None => tags == Seq::<TagView>::empty(),
        },
{
    if tags.len() > 0 {
        lemma_tags_round_trip(tags);
    } else {
        assert(tags =~= Seq::<TagView>::empty());
    }
}

/// A node is rebuilt from its row as it was, tags in order, where its
/// coordinates are decimal numbers and its tags can be told apart.
pub proof fn lemma_node_round_trip(node: NodeView)
    requires
        node.has_coordinates(),
        tags_foldable(node.tags),
    ensures
        node_row(node).node() == Ok::<NodeView, ParseError>(node),
{
    lemma_tags_column_round_trip(node.tags);
}

/// A way is rebuilt from its row as it was, node references and tags in
/// order, where its tags can be told apart.
pub proof fn lemma_way_round_trip(way: WayView)
    requires
        tags_foldable(way.tags),
    ensures
        way_row(way).way() == Ok::<WayView, ParseError>(way),
{
    lemma_tags_column_round_trip(way.tags);
    if way.node_refs.len() > 0 {
        lemma_node_refs_round_trip(way.node_refs);
    } else {
        assert(way.node_refs =~= Seq::<i64>::empty());
    }
}

/// A relation is rebuilt from its row with the members that the store
/// holds of it: those of a known kind, in order and every role exactly,
/// and with its tags in order. This holds where its tags can be told apart
/// and no role holds a comma.
pub proof fn lemma_stored_relation_round_trip(relation: RelationView)
    requires
        tags_foldable(relation.tags),
        forall|i: int|
            0 <= i < relation.members.len() ==> free_of((#[trigger] relation.members[i]).role, ','),
    ensures
        relation_row(relation).relation() == Ok::<RelationView, ParseError>(
            RelationView { members: stored_members(relation.members), ..relation },
        ),
{
    let stored = stored_members(relation.members);
    lemma_tags_column_round_trip(relation.tags);
    lemma_stored_members(relation.members);
    if stored.len() > 0 {
        assert forall|i: int| 0 <= i < stored.len() implies (#[trigger] stored[i]).maps_type.is_known()
            && free_of(stored[i].role, ',') by {
            let k = choose|k: int| 0 <= k < relation.members.len() && relation.members[k] == stored[i];
            assert(free_of(relation.members[k].role, ','));
        }
        lemma_members_round_trip(stored);
    } else {
        assert(stored =~= Seq::<MemberView>::empty());
    }
}

/// A relation is rebuilt from its row as it was, members and tags in order
/// and every role exactly, where its tags and its members can be told apart.
pub proof fn lemma_relation_round_trip(relation: RelationView)
    requires
        tags_foldable(relation.tags),
        members_foldable(relation.members),
    ensures
        relation_row(relation).relation() == Ok::<RelationView, ParseError>(relation),
{
    lemma_all_members_stored(relation.members);
    lemma_stored_relation_round_trip(relation);
}

} // verus!
