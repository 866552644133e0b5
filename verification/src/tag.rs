use vstd::prelude::*;

verus! {

/// A key/value annotation attached to a node, a way or a relation.
#[derive(Debug)]
pub struct Tag {
    pub key: String,
    pub value: String,
}

/// What a `Tag` stands for: its key and its value as character sequences.
pub struct TagView {
    pub key: Seq<char>,
    pub value: Seq<char>,
}

impl View for Tag {
    type V = TagView;

    open spec fn view(&self) -> TagView {
        TagView { key: self.key@, value: self.value@ }
    }
}

impl Clone for Tag {
    fn clone(&self) -> (copy: Self)
        ensures
            copy@ == self@,
    {
        Tag { key: self.key.clone(), value: self.value.clone() }
    }
}

impl Default for Tag {
    fn default() -> (tag: Self)
        ensures
            tag@ == (TagView { key: Seq::empty(), value: Seq::empty() }),
    {
        Tag { key: String::new(), value: String::new() }
    }
}

impl Tag {
    /// Builds a tag from its key and its value.
    pub fn new(key: String, value: String) -> (tag: Self)
        ensures
            tag.key == key,
            tag.value == value,
    {
        Tag { key, value }
    }
}

} // verus!
