use vstd::prelude::*;
use vstd::utf8::encode_utf8;
use sha2::Digest;
use sha2::Sha256;
use crate::utils::MapsType;
use crate::utils::MapsTypeView;

verus! {

/// A reference from a relation to a node, a way or another relation, with the
/// role that the target plays in the relation.
#[derive(Debug)]
pub struct Member {
    pub id: i64,
    pub ref_id: i64,
    pub maps_type: MapsType,
    pub role: String,
}

/// What a `Member` stands for.
pub struct MemberView {
    pub id: i64,
    pub ref_id: i64,
    pub maps_type: MapsTypeView,
    pub role: Seq<char>,
}

impl View for Member {
    type V = MemberView;

    open spec fn view(&self) -> MemberView {
        MemberView {
            id: self.id,
            ref_id: self.ref_id,
            maps_type: self.maps_type@,
            role: self.role@,
        }
    }
}

impl Clone for Member {
    fn clone(&self) -> (copy: Self)
        ensures
            copy@ == self@,
    {
        Member {
            id: self.id,
            ref_id: self.ref_id,
            maps_type: self.maps_type.clone(),
            role: self.role.clone(),
        }
    }
}

/// The three nullable columns in which the store keeps the target of a member.
pub struct ForeignKeys {
    pub node_id: Option<i64>,
    pub way_id: Option<i64>,
    pub relation_ref_id: Option<i64>,
}

impl MemberView {
    /// The columns that hold the member's target: the one that its kind
    /// selects holds the target's id, the other two are empty. A member of
    /// another kind fills none.
    pub open spec fn foreign_keys(self) -> ForeignKeys {
        ForeignKeys {
            node_id: if self.maps_type is Node {
                Some(self.ref_id)
            } else {
                None
            },
            way_id: if self.maps_type is Way {
                Some(self.ref_id)
            } else {
                None
            },
            relation_ref_id: if self.maps_type is Relation {
                Some(self.ref_id)
            } else {
                None
            },
        }
    }
}

/// The SHA-256 digest of a byte string.
pub uninterp spec fn sha256(data: Seq<u8>) -> Seq<u8>;

/// The eight bytes of a 64-bit integer in two's complement, highest first.
pub open spec fn be_bytes(x: i64) -> Seq<u8> {
    let u = x as u64;
    seq![
        (u >> 56) as u8,
        (u >> 48) as u8,
        (u >> 40) as u8,
        (u >> 32) as u8,
        (u >> 24) as u8,
        (u >> 16) as u8,
        (u >> 8) as u8,
        u as u8,
    ]
}

/// The 64-bit integer whose two's complement the first eight bytes hold, highest first.
pub open spec fn i64_of_be(bytes: Seq<u8>) -> i64 {
    ((bytes[0] as u64) << 56 | (bytes[1] as u64) << 48 | (bytes[2] as u64) << 40 | (bytes[3] as u64)
        << 32 | (bytes[4] as u64) << 24 | (bytes[5] as u64) << 16 | (bytes[6] as u64) << 8
        | bytes[7] as u64) as i64
}

/// The bytes from which the id of a member is derived: the relation's id and
/// the target's id, eight bytes each, then the name of the kind and the role
/// in UTF-8.
pub open spec fn hash_input(relation_id: i64, ref_id: i64, kind: Seq<char>, role: Seq<char>) -> Seq<
    u8,
> {
    be_bytes(relation_id) + be_bytes(ref_id) + encode_utf8(kind) + encode_utf8(role)
}

/// The id that a digest gives: its first eight bytes read as an integer, or
/// zero where it is shorter than that.
pub open spec fn id_of_digest(digest: Seq<u8>) -> i64 {
    if digest.len() >= 8 {
        i64_of_be(digest.take(8))
    } else {
        0
    }
}

/// The id of the member of relation `relation_id` that refers to `ref_id`
/// of the given kind in the given role.
pub open spec fn member_id(relation_id: i64, ref_id: i64, kind: Seq<char>, role: Seq<char>) -> i64 {
    id_of_digest(sha256(hash_input(relation_id, ref_id, kind, role)))
}

/// Calls `Sha256::digest` of the crate sha2 on `data`. Claimed: the result
/// is the SHA-256 digest of `data`, which the contract only names, and it is
/// 32 bytes long.
#[verifier::external_body]
fn sha256_digest(data: &[u8]) -> (digest: Vec<u8>)
    ensures
        digest@ == sha256(data@),
        digest@.len() == 32,
{
    Sha256::digest(data).to_vec()
}

/// Appends the eight bytes of `x`, highest first.
fn push_be_bytes(out: &mut Vec<u8>, x: i64)
    ensures
        final(out)@ == old(out)@ + be_bytes(x),
{
    let u = #[verifier::truncate] (x as u64);
    out.push(#[verifier::truncate] ((u >> 56) as u8));
    out.push(#[verifier::truncate] ((u >> 48) as u8));
    out.push(#[verifier::truncate] ((u >> 40) as u8));
    out.push(#[verifier::truncate] ((u >> 32) as u8));
    out.push(#[verifier::truncate] ((u >> 24) as u8));
    out.push(#[verifier::truncate] ((u >> 16) as u8));
    out.push(#[verifier::truncate] ((u >> 8) as u8));
    out.push(#[verifier::truncate] (u as u8));
    assert(out@ =~= old(out)@ + be_bytes(x));
}

impl Member {
    /// The bytes that are hashed to give a member its id.
    pub fn hash_input(relation_id: i64, ref_id: i64, kind: &str, role: &str) -> (input: Vec<u8>)
        ensures
            input@ == hash_input(relation_id, ref_id, kind@, role@),
    {
        let mut input: Vec<u8> = Vec::new();
        push_be_bytes(&mut input, relation_id);
        push_be_bytes(&mut input, ref_id);
        input.extend_from_slice(kind.as_bytes());
        input.extend_from_slice(role.as_bytes());
        assert(input@ =~= hash_input(relation_id, ref_id, kind@, role@));
        input
    }

    /// The id that a digest gives: its first eight bytes read as an integer,
    /// highest byte first, or zero where the digest is shorter than that.
    pub fn id_from_digest(digest: &[u8]) -> (id: i64)
        ensures
            id == id_of_digest(digest@),
    {
        if digest.len() < 8 {
            return 0;
        }
        let u: u64 = (digest[0] as u64) << 56 | (digest[1] as u64) << 48 | (digest[2] as u64) << 40
            | (digest[3] as u64) << 32 | (digest[4] as u64) << 24 | (digest[5] as u64) << 16 | (
        digest[6] as u64) << 8 | digest[7] as u64;
        #[verifier::truncate]
        (u as i64)
    }

    /// Builds the member of relation `relation_id` that refers to `ref_id`.
    /// Its id is derived from the four arguments alone, so that the same
    /// member has the same id in every load.
    pub fn new(relation_id: i64, ref_id: i64, maps_type: MapsType, role: String) -> (member: Self)
        ensures
            member@ == (MemberView {
                id: member_id(relation_id, ref_id, maps_type@.name(), role@),
                ref_id,
                maps_type: maps_type@,
                role: role@,
            }),
    {
        let input = Member::hash_input(relation_id, ref_id, maps_type.as_str(), role.as_str());
        let digest = sha256_digest(input.as_slice());
        let id = Member::id_from_digest(digest.as_slice());
        Member { id, ref_id, maps_type, role }
    }

    /// The three nullable columns that hold the member's target.
    pub fn foreign_keys(&self) -> (keys: ForeignKeys)
        ensures
            keys == self@.foreign_keys(),
    {
        ForeignKeys {
            node_id: match self.maps_type {
                MapsType::Node => Some(self.ref_id),
                _ => None,
            },
            way_id: match self.maps_type {
                MapsType::Way => Some(self.ref_id),
                _ => None,
            },
            relation_ref_id: match self.maps_type {
                MapsType::Relation => Some(self.ref_id),
                _ => None,
            },
        }
    }

    /// What `extractor` picks from each member, in the order of the members.
    pub fn extract<'a, T>(
        members: &'a [Self],
        extractor: impl Fn(&'a Member) -> &'a T,
    ) -> (picked: Vec<&'a T>)
        requires
            forall|i: int| 0 <= i < members@.len() ==> call_requires(extractor, (&members@[i],)),
        ensures
            picked@.len() == members@.len(),
            forall|i: int|
                0 <= i < members@.len() ==> call_ensures(
                    extractor,
                    (&members@[i],),
                    #[trigger] picked@[i],
                ),
    {
        let mut picked: Vec<&'a T> = Vec::new();
        let mut i: usize = 0;
        while i < members.len()
            invariant
                i <= members.len(),
                picked@.len() == i,
                forall|k: int| 0 <= k < members@.len() ==> call_requires(extractor, (&members@[k],)),
                forall|k: int|
                    0 <= k < i ==> call_ensures(extractor, (&members@[k],), #[trigger] picked@[k]),
            decreases members.len() - i,
        {
            picked.push(extractor(&members[i]));
            i += 1;
        }
        picked
    }
}

} // verus!
