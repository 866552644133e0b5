use vstd::prelude::*;
use vstd::utf8::decode_utf8;
use vstd::utf8::encode_utf8;
use vstd::utf8::valid_utf8;
use crate::tag::Tag;
use crate::tag::TagView;
use crate::text::chars_of;
use crate::text::has_sign;
use crate::text::i32_of;
use crate::text::i64_of;
use crate::text::is_decimal;
use crate::text::is_decimal_text;
use crate::text::is_unsigned_number;
use crate::text::leading_digits;
use crate::text::parse_i32;
use crate::text::parse_i64;
use crate::text::same_bytes;
use crate::text::unsigned_part;
use crate::utils::kind_view;
use crate::utils::result_view;
use crate::utils::text_view;
use crate::utils::MapsType;
use crate::utils::MapsTypeView;
use crate::utils::ParseError;
use crate::xml::attribute_views;
use crate::xml::text_of;
use crate::xml::Attribute;
use crate::xml::AttributeView;

verus! {

/// The attributes that nodes, ways and relations have in common, and the two
/// coordinates that only nodes have.
pub struct Header {
    pub id: i64,
    pub lat: String,
    pub lon: String,
    pub version: i32,
    pub timestamp: String,
    pub changeset: i64,
    pub uid: i64,
    pub user: String,
}

/// What a `Header` stands for.
pub struct HeaderView {
    pub id: i64,
    pub lat: Seq<char>,
    pub lon: Seq<char>,
    pub version: i32,
    pub timestamp: Seq<char>,
    pub changeset: i64,
    pub uid: i64,
    pub user: Seq<char>,
}

impl View for Header {
    type V = HeaderView;

    open spec fn view(&self) -> HeaderView {
        HeaderView {
            id: self.id,
            lat: self.lat@,
            lon: self.lon@,
            version: self.version,
            timestamp: self.timestamp@,
            changeset: self.changeset,
            uid: self.uid,
            user: self.user@,
        }
    }
}

/// What is known of a member while its attributes are read: its kind, its
/// target and its role, each once the attribute that gives it is read.
pub struct MemberDraft {
    pub kind: Option<MapsType>,
    pub ref_id: Option<i64>,
    pub role: Option<String>,
}

/// What a `MemberDraft` stands for.
pub struct MemberDraftView {
    pub kind: Option<MapsTypeView>,
    pub ref_id: Option<i64>,
    pub role: Option<Seq<char>>,
}

impl View for MemberDraft {
    type V = MemberDraftView;

    open spec fn view(&self) -> MemberDraftView {
        MemberDraftView {
            kind: kind_view(self.kind),
            ref_id: self.ref_id,
            role: text_view(self.role),
        }
    }
}

impl MemberDraftView {
    /// Whether the draft describes a member: its kind, its target and its
    /// role are all given, and the kind is node, way or relation.
    pub open spec fn is_complete(self) -> bool {
        self.kind is Some && self.kind.unwrap().is_known() && self.ref_id is Some && self.role
            is Some
    }
}

/// The text that an attribute value holds: its bytes decoded as UTF-8.
pub open spec fn text_value(value: Seq<u8>) -> Result<Seq<char>, ParseError> {
    if valid_utf8(value) {
        Ok(decode_utf8(value))
    } else {
        Err(ParseError::Utf8Error)
    }
}

/// The 64-bit integer that an attribute value holds.
pub open spec fn i64_value(value: Seq<u8>) -> Result<i64, ParseError> {
    match text_value(value) {
        Err(e) => Err(e),
        Ok(text) => match i64_of(text) {
            Some(v) => Ok(v),
            None => Err(ParseError::IntError),
        },
    }
}

/// The 32-bit integer that an attribute value holds.
pub open spec fn i32_value(value: Seq<u8>) -> Result<i32, ParseError> {
    match text_value(value) {
        Err(e) => Err(e),
        Ok(text) => match i32_of(text) {
            Some(v) => Ok(v),
            None => Err(ParseError::IntError),
        },
    }
}

/// The decimal number that an attribute value holds, as it is written.
pub open spec fn decimal_value(value: Seq<u8>) -> Result<Seq<char>, ParseError> {
    match text_value(value) {
        Err(e) => Err(e),
        Ok(text) => if is_decimal(text) {
            Ok(text)
        } else {
            Err(ParseError::FloatError)
        },
    }
}

/// Whether a name, of an element or of an attribute, is the given word.
pub open spec fn is_word(name: Seq<u8>, word: Seq<char>) -> bool {
    name == encode_utf8(word)
}

/// The header before any attribute is read: numbers zero, texts empty.
pub open spec fn blank_header() -> HeaderView {
    HeaderView {
        id: 0,
        lat: "0"@,
        lon: "0"@,
        version: 0,
        timestamp: Seq::empty(),
        changeset: 0,
        uid: 0,
        user: Seq::empty(),
    }
}

/// The header once one more attribute is read. Coordinates are read only
/// where `coordinates` says so; an attribute of any other name changes nothing.
pub open spec fn header_with(header: HeaderView, attribute: AttributeView, coordinates: bool) -> Result<
    HeaderView,
    ParseError,
> {
    if is_word(attribute.key, "id"@) {
        match i64_value(attribute.value) {
            Ok(id) => Ok(HeaderView { id, ..header }),
            Err(e) => Err(e),
        }
    } else if coordinates && is_word(attribute.key, "lat"@) {
        match decimal_value(attribute.value) {
            Ok(lat) => Ok(HeaderView { lat, ..header }),
            Err(e) => Err(e),
        }
    } else if coordinates && is_word(attribute.key, "lon"@) {
        match decimal_value(attribute.value) {
            Ok(lon) => Ok(HeaderView { lon, ..header }),
            Err(e) => Err(e),
        }
    } else if is_word(attribute.key, "version"@) {
        match i32_value(attribute.value) {
            Ok(version) => Ok(HeaderView { version, ..header }),
            Err(e) => Err(e),
        }
    } else if is_word(attribute.key, "timestamp"@) {
        match text_value(attribute.value) {
            Ok(timestamp) => Ok(HeaderView { timestamp, ..header }),
            Err(e) => Err(e),
        }
    } else if is_word(attribute.key, "changeset"@) {
        match i64_value(attribute.value) {
            Ok(changeset) => Ok(HeaderView { changeset, ..header }),
            Err(e) => Err(e),
        }
    } else if is_word(attribute.key, "uid"@) {
        match i64_value(attribute.value) {
            Ok(uid) => Ok(HeaderView { uid, ..header }),
            Err(e) => Err(e),
        }
    } else if is_word(attribute.key, "user"@) {
        match text_value(attribute.value) {
            Ok(user) => Ok(HeaderView { user, ..header }),
            Err(e) => Err(e),
        }
    } else {
        Ok(header)
    }
}

/// The header once all the attributes are read, in their order. Reading
/// fails at the first attribute whose markup is not well formed or whose
/// value cannot be read.
pub open spec fn header_from(
    header: HeaderView,
    attributes: Seq<Option<AttributeView>>,
    coordinates: bool,
) -> Result<HeaderView, ParseError>
    decreases attributes.len(),
{
    if attributes.len() == 0 {
        Ok(header)
    } else {
        match attributes[0] {
            None => Err(ParseError::XmlError),
            Some(attribute) => match header_with(header, attribute, coordinates) {
                Err(e) => Err(e),
                Ok(next) => header_from(next, attributes.drop_first(), coordinates),
            },
        }
    }
}

/// A tag once one more attribute is read: `k` gives the key, `v` the value.
pub open spec fn tag_with(tag: TagView, attribute: AttributeView) -> Result<TagView, ParseError> {
    if is_word(attribute.key, "k"@) {
        match text_value(attribute.value) {
            Ok(key) => Ok(TagView { key, ..tag }),
            Err(e) => Err(e),
        }
    } else if is_word(attribute.key, "v"@) {
        match text_value(attribute.value) {
            Ok(value) => Ok(TagView { value, ..tag }),
            Err(e) => Err(e),
        }
    } else {
        Ok(tag)
    }
}

/// A tag once all the attributes are read.
pub open spec fn tag_from(tag: TagView, attributes: Seq<Option<AttributeView>>) -> Result<
    TagView,
    ParseError,
>
    decreases attributes.len(),
{
    if attributes.len() == 0 {
        Ok(tag)
    } else {
        match attributes[0] {
            None => Err(ParseError::XmlError),
            Some(attribute) => match tag_with(tag, attribute) {
                Err(e) => Err(e),
                Ok(next) => tag_from(next, attributes.drop_first()),
            },
        }
    }
}

/// The node that a way's `nd` child refers to, once all the attributes are
/// read. A `ref` that holds no integer is passed over.
pub open spec fn node_ref_from(found: Option<i64>, attributes: Seq<Option<AttributeView>>) -> Result<
    Option<i64>,
    ParseError,
>
    decreases attributes.len(),
{
    if attributes.len() == 0 {
        Ok(found)
    } else {
        match attributes[0] {
            None => Err(ParseError::XmlError),
            Some(attribute) => {
                let next = if is_word(attribute.key, "ref"@) {
                    match i64_value(attribute.value) {
                        Ok(node_ref) => Some(node_ref),
                        Err(_) => found,
                    }
                } else {
                    found
                };
                node_ref_from(next, attributes.drop_first())
            },
        }
    }
}

/// A member before any attribute is read: nothing of it is given yet.
pub open spec fn blank_member() -> MemberDraftView {
    MemberDraftView { kind: None, ref_id: None, role: None }
}

/// A member once one more attribute is read: `type` gives the kind, `ref`
/// the target, `role` the role. A `ref` that holds no integer fails the
/// reading.
pub open spec fn member_with(draft: MemberDraftView, attribute: AttributeView) -> Result<
    MemberDraftView,
    ParseError,
> {
    if is_word(attribute.key, "type"@) {
        match text_value(attribute.value) {
            Ok(name) => Ok(MemberDraftView { kind: Some(MapsTypeView::from_name(name)), ..draft }),
            Err(e) => Err(e),
        }
    } else if is_word(attribute.key, "ref"@) {
        match i64_value(attribute.value) {
            Ok(ref_id) => Ok(MemberDraftView { ref_id: Some(ref_id), ..draft }),
            Err(e) => Err(e),
        }
    } else if is_word(attribute.key, "role"@) {
        match text_value(attribute.value) {
            Ok(role) => Ok(MemberDraftView { role: Some(role), ..draft }),
            Err(e) => Err(e),
        }
    } else {
        Ok(draft)
    }
}

/// A member once all the attributes are read.
pub open spec fn member_from(draft: MemberDraftView, attributes: Seq<Option<AttributeView>>) -> Result<
    MemberDraftView,
    ParseError,
>
    decreases attributes.len(),
{
    if attributes.len() == 0 {
        Ok(draft)
    } else {
        match attributes[0] {
            None => Err(ParseError::XmlError),
            Some(attribute) => match member_with(draft, attribute) {
                Err(e) => Err(e),
                Ok(next) => member_from(next, attributes.drop_first()),
            },
        }
    }
}

/// Whether a name is the given word.
pub fn named(name: &[u8], word: &str) -> (yes: bool)
    ensures
        yes == is_word(name@, word@),
{
    same_bytes(name, word.as_bytes())
}

/// Reads the text that an attribute value holds.
pub fn read_text(value: &[u8]) -> (text: Result<String, ParseError>)
    ensures
        result_view(text) == text_value(value@),
{
    match text_of(value) {
        Some(text) => Ok(text),
        None => Err(ParseError::Utf8Error),
    }
}

/// Reads the 64-bit integer that an attribute value holds.
pub fn read_i64(value: &[u8]) -> (number: Result<i64, ParseError>)
    ensures
        number == i64_value(value@),
{
    match text_of(value) {
        None => Err(ParseError::Utf8Error),
        Some(text) => {
            let chars = chars_of(text.as_str());
            match parse_i64(chars.as_slice()) {
                Some(v) => Ok(v),
                None => Err(ParseError::IntError),
            }
        },
    }
}

/// Reads the 32-bit integer that an attribute value holds.
pub fn read_i32(value: &[u8]) -> (number: Result<i32, ParseError>)
    ensures
        number == i32_value(value@),
{
    match text_of(value) {
        None => Err(ParseError::Utf8Error),
        Some(text) => {
            let chars = chars_of(text.as_str());
            match parse_i32(chars.as_slice()) {
                Some(v) => Ok(v),
                None => Err(ParseError::IntError),
            }
        },
    }
}

/// Reads the decimal number that an attribute value holds, as it is written.
pub fn read_decimal(value: &[u8]) -> (number: Result<String, ParseError>)
    ensures
        result_view(number) == decimal_value(value@),
{
    match text_of(value) {
        None => Err(ParseError::Utf8Error),
        Some(text) => {
            let chars = chars_of(text.as_str());
            if is_decimal_text(chars.as_slice()) {
                Ok(text)
            } else {
                Err(ParseError::FloatError)
            }
        },
    }
}

/// Reads the header of a node, a way or a relation from the attributes of
/// its opening tag.
pub fn read_header(attributes: &Vec<Option<Attribute>>, coordinates: bool) -> (header: Result<
    Header,
    ParseError,
>)
    ensures
        result_view(header) == header_from(
            blank_header(),
            attribute_views(attributes@),
            coordinates,
        ),
{
    let mut header = Header {
        id: 0,
        lat: "0".to_owned(),
        lon: "0".to_owned(),
        version: 0,
        timestamp: String::new(),
        changeset: 0,
        uid: 0,
        user: String::new(),
    };
    let ghost all = attribute_views(attributes@);
    let mut i: usize = 0;
    assert(all.skip(0) =~= all);
    while i < attributes.len()
        invariant
            i <= attributes.len(),
            all == attribute_views(attributes@),
            header_from(blank_header(), all, coordinates) == header_from(
                header@,
                all.skip(i as int),
                coordinates,
            ),
        decreases attributes.len() - i,
    {
        proof {
            assert(all.skip(i as int).drop_first() =~= all.skip(i + 1));
            assert(all.skip(i as int)[0] == all[i as int]);
        }
        match &attributes[i] {
            None => {
                return Err(ParseError::XmlError);
            },
            Some(attribute) => {
                let key = attribute.key.as_slice();
                let value = attribute.value.as_slice();
                if named(key, "id") {
                    match read_i64(value) {
                        Ok(id) => header.id = id,
                        Err(e) => {
                            return Err(e);
                        },
                    }
                } else if coordinates && named(key, "lat") {
                    match read_decimal(value) {
                        Ok(lat) => header.lat = lat,
                        Err(e) => {
                            return Err(e);
                        },
                    }
                } else if coordinates && named(key, "lon") {
                    match read_decimal(value) {
                        Ok(lon) => header.lon = lon,
                        Err(e) => {
                            return Err(e);
                        },
                    }
                } else if named(key, "version") {
                    match read_i32(value) {
                        Ok(version) => header.version = version,
                        Err(e) => {
                            return Err(e);
                        },
                    }
                } else if named(key, "timestamp") {
                    match read_text(value) {
                        Ok(timestamp) => header.timestamp = timestamp,
                        Err(e) => {
                            return Err(e);
                        },
                    }
                } else if named(key, "changeset") {
                    match read_i64(value) {
                        Ok(changeset) => header.changeset = changeset,
                        Err(e) => {
                            return Err(e);
                        },
                    }
                } else if named(key, "uid") {
                    match read_i64(value) {
                        Ok(uid) => header.uid = uid,
                        Err(e) => {
                            return Err(e);
                        },
                    }
                } else if named(key, "user") {
                    match read_text(value) {
                        Ok(user) => header.user = user,
                        Err(e) => {
                            return Err(e);
                        },
                    }
                }
            },
        }
        i += 1;
    }
    Ok(header)
}

/// Reads a tag from the attributes of a `tag` element.
pub fn read_tag(attributes: &Vec<Option<Attribute>>) -> (tag: Result<Tag, ParseError>)
    ensures
        result_view(tag) == tag_from(
            TagView { key: Seq::empty(), value: Seq::empty() },
            attribute_views(attributes@),
        ),
{
    let mut tag = Tag { key: String::new(), value: String::new() };
    let ghost all = attribute_views(attributes@);
    let mut i: usize = 0;
    assert(all.skip(0) =~= all);
    while i < attributes.len()
        invariant
            i <= attributes.len(),
            all == attribute_views(attributes@),
            tag_from(TagView { key: Seq::empty(), value: Seq::empty() }, all) == tag_from(
                tag@,
                all.skip(i as int),
            ),
        decreases attributes.len() - i,
    {
        proof {
            assert(all.skip(i as int).drop_first() =~= all.skip(i + 1));
            assert(all.skip(i as int)[0] == all[i as int]);
        }
        match &attributes[i] {
            None => {
                return Err(ParseError::XmlError);
            },
            Some(attribute) => {
                let key = attribute.key.as_slice();
                let value = attribute.value.as_slice();
                if named(key, "k") {
                    match read_text(value) {
                        Ok(text) => tag.key = text,
                        Err(e) => {
                            return Err(e);
                        },
                    }
                } else if named(key, "v") {
                    match read_text(value) {
                        Ok(text) => tag.value = text,
                        Err(e) => {
                            return Err(e);
                        },
                    }
                }
            },
        }
        i += 1;
    }
    Ok(tag)
}

/// Reads the node reference from the attributes of an `nd` element.
pub fn read_node_ref(attributes: &Vec<Option<Attribute>>) -> (node_ref: Result<
    Option<i64>,
    ParseError,
>)
    ensures
        node_ref == node_ref_from(None, attribute_views(attributes@)),
{
    let mut found: Option<i64> = None;
    let ghost all = attribute_views(attributes@);
    let mut i: usize = 0;
    assert(all.skip(0) =~= all);
    while i < attributes.len()
        invariant
            i <= attributes.len(),
            all == attribute_views(attributes@),
            node_ref_from(None, all) == node_ref_from(found, all.skip(i as int)),
        decreases attributes.len() - i,
    {
        proof {
            assert(all.skip(i as int).drop_first() =~= all.skip(i + 1));
            assert(all.skip(i as int)[0] == all[i as int]);
        }
        match &attributes[i] {
            None => {
                return Err(ParseError::XmlError);
            },
            Some(attribute) => {
                if named(attribute.key.as_slice(), "ref") {
                    match read_i64(attribute.value.as_slice()) {
                        Ok(node_ref) => found = Some(node_ref),
                        Err(_) => {},
                    }
                }
            },
        }
        i += 1;
    }
    Ok(found)
}

/// Reads a member from the attributes of a `member` element.
pub fn read_member(attributes: &Vec<Option<Attribute>>) -> (draft: Result<MemberDraft, ParseError>)
    ensures
        result_view(draft) == member_from(blank_member(), attribute_views(attributes@)),
{
    let mut draft = MemberDraft { kind: None, ref_id: None, role: None };
    let ghost all = attribute_views(attributes@);
    let mut i: usize = 0;
    assert(all.skip(0) =~= all);
    while i < attributes.len()
        invariant
            i <= attributes.len(),
            all == attribute_views(attributes@),
            member_from(blank_member(), all) == member_from(draft@, all.skip(i as int)),
        decreases attributes.len() - i,
    {
        proof {
            assert(all.skip(i as int).drop_first() =~= all.skip(i + 1));
            assert(all.skip(i as int)[0] == all[i as int]);
        }
        match &attributes[i] {
            None => {
                return Err(ParseError::XmlError);
            },
            Some(attribute) => {
                let key = attribute.key.as_slice();
                let value = attribute.value.as_slice();
                if named(key, "type") {
                    match read_text(value) {
                        Ok(name) => match MapsType::from_str(name.as_str()) {
                            Ok(kind) => draft.kind = Some(kind),
                            Err(e) => {
                                return Err(e);
                            },
                        },
                        Err(e) => {
                            return Err(e);
                        },
                    }
                } else if named(key, "ref") {
                    match read_i64(value) {
                        Ok(ref_id) => draft.ref_id = Some(ref_id),
                        Err(e) => {
                            return Err(e);
                        },
                    }
                } else if named(key, "role") {
                    match read_text(value) {
                        Ok(role) => draft.role = Some(role),
                        Err(e) => {
                            return Err(e);
                        },
                    }
                }
            },
        }
        i += 1;
    }
    Ok(draft)
}

/// Reading attributes leaves a header with decimal coordinates if it had them.
pub proof fn lemma_header_keeps_coordinates(
    header: HeaderView,
    attributes: Seq<Option<AttributeView>>,
    coordinates: bool,
)
    requires
        is_decimal(header.lat),
        is_decimal(header.lon),
    ensures
        header_from(header, attributes, coordinates) is Ok ==> {
            let read = header_from(header, attributes, coordinates).unwrap();
            is_decimal(read.lat) && is_decimal(read.lon)
        },
    decreases attributes.len(),
{
    if attributes.len() > 0 {
        if let Some(attribute) = attributes[0] {
            if let Ok(next) = header_with(header, attribute, coordinates) {
                lemma_header_keeps_coordinates(next, attributes.drop_first(), coordinates);
            }
        }
    }
}

/// The header that is read from blank has decimal coordinates.
pub proof fn lemma_header_has_coordinates(
    attributes: Seq<Option<AttributeView>>,
    coordinates: bool,
)
    ensures
        header_from(blank_header(), attributes, coordinates) is Ok ==> {
            let read = header_from(blank_header(), attributes, coordinates).unwrap();
            is_decimal(read.lat) && is_decimal(read.lon)
        },
{
    reveal_strlit("0");
    let zero = "0"@;
    assert(is_decimal(zero)) by {
        assert(!has_sign(zero));
        assert(unsigned_part(zero) == zero);
        assert(leading_digits(zero.drop_first()) == 0);
        assert(leading_digits(zero) == 1);
        assert(zero.skip(1).len() == 0);
        assert(is_unsigned_number(zero));
    }
    lemma_header_keeps_coordinates(blank_header(), attributes, coordinates);
}

} // verus!
