//! The unit of work that moves through a flow: a byte payload plus string
//! attributes, with an identity and a transformation count.

use vstd::prelude::*;
use crate::properties::PropertyMap;

verus! {

/// What a flowfile holds, as mathematical values.
pub struct FlowFileView {
    pub id: u64,
    pub content: Seq<u8>,
    pub attributes: Map<Seq<char>, Seq<char>>,
    pub created: u64,
    pub generation: u64,
}

pub struct FlowFile {
    id: u64,
    content: Vec<u8>,
    attributes: PropertyMap,
    created: u64,
    generation: u64,
}

impl View for FlowFile {
    type V = FlowFileView;

    open spec fn view(&self) -> FlowFileView {
        FlowFileView {
            id: self.spec_id(),
            content: self.spec_content(),
            attributes: self.spec_attributes(),
            created: self.spec_created(),
            generation: self.spec_generation(),
        }
    }
}

/// Copies a byte sequence.
fn copy_bytes(b: &Vec<u8>) -> (r: Vec<u8>)
    ensures
        r@ == b@,
{
    let mut r: Vec<u8> = Vec::new();
    let mut i: usize = 0;
    while i < b.len()
        invariant
            i <= b.len(),
            r@ == b@.subrange(0, i as int),
        decreases b.len() - i,
    {
        r.push(b[i]);
        i = i + 1;
    }
    assert(r@ =~= b@);
    r
}

impl FlowFile {
    pub closed spec fn spec_id(&self) -> u64 {
        self.id
    }

    pub closed spec fn spec_content(&self) -> Seq<u8> {
        self.content@
    }

    pub closed spec fn spec_attributes(&self) -> Map<Seq<char>, Seq<char>> {
        self.attributes@
    }

    pub closed spec fn spec_created(&self) -> u64 {
        self.created
    }

    pub closed spec fn spec_generation(&self) -> u64 {
        self.generation
    }

    /// A fresh flowfile of generation 0 with no attributes.
    pub fn new(id: u64, content: Vec<u8>, created: u64) -> (r: FlowFile)
        ensures
            r@ == (FlowFileView {
                id,
                content: content@,
                attributes: Map::empty(),
                created,
                generation: 0,
            }),
    {
        FlowFile { id, content, attributes: PropertyMap::new(), created, generation: 0 }
    }

    /// A flowfile with the given content and attributes, of generation 0.
    pub fn with_attributes(id: u64, content: Vec<u8>, attributes: PropertyMap, created: u64) -> (r:
        FlowFile)
        ensures
            r@ == (FlowFileView {
                id,
                content: content@,
                attributes: attributes@,
                created,
                generation: 0,
            }),
    {
        FlowFile { id, content, attributes, created, generation: 0 }
    }

    pub fn id(&self) -> (r: u64)
        ensures
            r == self@.id,
    {
        self.id
    }

    pub fn content(&self) -> (r: &Vec<u8>)
        ensures
            r@ == self@.content,
    {
        &self.content
    }

    /// The size of the content in bytes.
    pub fn size(&self) -> (r: usize)
        ensures
            r == self@.content.len(),
    {
        self.content.len()
    }

    pub fn created(&self) -> (r: u64)
        ensures
            r == self@.created,
    {
        self.created
    }

    pub fn generation(&self) -> (r: u64)
        ensures
            r == self@.generation,
    {
        self.generation
    }

    /// The value of attribute `key`, or `None` where it is not set.
    pub fn get_attribute(&self, key: &str) -> (r: Option<&String>)
        ensures
            r.is_some() == self@.attributes.contains_key(key@),
            r.is_some() ==> r.unwrap()@ == self@.attributes[key@],
    {
        self.attributes.get(key)
    }

    /// Sets attribute `key` to `value`; everything else is kept.
    pub fn put_attribute(&mut self, key: &str, value: &str)
        ensures
            final(self)@ == (FlowFileView {
                attributes: old(self)@.attributes.insert(key@, value@),
                ..old(self)@
            }),
    {
        self.attributes.insert(key, value);
    }

    /// The flowfile derived from this one by replacing its content: identity,
    /// attributes and creation time are kept, and the generation goes up by one.
    pub fn transform(self, content: Vec<u8>) -> (r: FlowFile)
        requires
            self@.generation < u64::MAX,
        ensures
            r@ == (FlowFileView {
                content: content@,
                generation: (self@.generation + 1) as u64,
                ..self@
            }),
    {
        FlowFile {
            id: self.id,
            content,
            attributes: self.attributes,
            created: self.created,
            generation: self.generation + 1,
        }
    }

    /// A copy with the same view.
    pub fn duplicate(&self) -> (r: FlowFile)
        ensures
            r@ == self@,
    {
        FlowFile {
            id: self.id,
            content: copy_bytes(&self.content),
            attributes: self.attributes.duplicate(),
            created: self.created,
            generation: self.generation,
        }
    }
}

} // verus!
