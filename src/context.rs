//! Per-processor configuration: a name and named string properties.

use vstd::prelude::*;
use crate::properties::PropertyMap;

verus! {

pub struct ProcessorContext {
    pub processor_name: String,
    pub config: PropertyMap,
}

impl ProcessorContext {
    /// A context for the processor called `processor_name`, with no property set.
    pub fn new(processor_name: &str) -> (r: ProcessorContext)
        ensures
            r.processor_name@ == processor_name@,
            r.config@ == Map::<Seq<char>, Seq<char>>::empty(),
    {
        ProcessorContext { processor_name: processor_name.to_owned(), config: PropertyMap::new() }
    }

    /// Sets property `key` to `value`, replacing an earlier value.
    pub fn set_property(&mut self, key: &str, value: &str)
        ensures
            final(self).processor_name == old(self).processor_name,
            final(self).config@ == old(self).config@.insert(key@, value@),
    {
        self.config.insert(key, value);
    }

    /// The value of property `key`; `None` where it is not set, never a default.
    pub fn get_property(&self, key: &str) -> (r: Option<&String>)
        ensures
            r.is_some() == self.config@.contains_key(key@),
            r.is_some() ==> r.unwrap()@ == self.config@[key@],
    {
        self.config.get(key)
    }
}

} // verus!
