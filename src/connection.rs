//! A bounded FIFO queue of flowfiles between two processors. An enqueue that
//! would exceed the queue's count or byte capacity is refused whole.

use vstd::prelude::*;
use crate::flowfile::{FlowFile, FlowFileView};

verus! {

/// The total content size of a sequence of flowfiles.
pub open spec fn bytes_of(s: Seq<FlowFileView>) -> nat
    decreases s.len(),
{
    if s.len() == 0 {
        0
    } else {
        bytes_of(s.drop_last()) + s.last().content.len()
    }
}

/// Content sizes add up over concatenation.
pub proof fn lemma_bytes_concat(a: Seq<FlowFileView>, b: Seq<FlowFileView>)
    ensures
        bytes_of(a + b) == bytes_of(a) + bytes_of(b),
    decreases b.len(),
{
    if b.len() == 0 {
        assert(a + b =~= a);
    } else {
        lemma_bytes_concat(a, b.drop_last());
        assert((a + b).drop_last() =~= a + b.drop_last());
    }
}

/// Removing the head removes its size.
pub proof fn lemma_bytes_drop_first(s: Seq<FlowFileView>)
    requires
        s.len() > 0,
    ensures
        bytes_of(s) == s[0].content.len() + bytes_of(s.drop_first()),
{
    assert(s =~= seq![s[0]] + s.drop_first());
    lemma_bytes_concat(seq![s[0]], s.drop_first());
    assert(seq![s[0]].drop_last() =~= Seq::<FlowFileView>::empty());
    assert(bytes_of(Seq::<FlowFileView>::empty()) == 0);
    assert(bytes_of(seq![s[0]]) == s[0].content.len());
}

/// An enqueue refused because the connection is full; the flowfile is handed back.
pub struct Backpressure {
    pub flowfile: FlowFile,
}

pub struct Connection {
    id: u64,
    source: usize,
    relationship: String,
    destination: usize,
    max_count: usize,
    max_bytes: usize,
    queue: Vec<FlowFile>,
    queued_bytes: usize,
}

impl View for Connection {
    type V = Seq<FlowFileView>;

    closed spec fn view(&self) -> Seq<FlowFileView> {
        self.queue@.map_values(|f: FlowFile| f@)
    }
}

impl Connection {
    /// The queue respects both capacities and the byte count is accurate.
    pub closed spec fn wf(&self) -> bool {
        &&& self.queue@.len() <= self.max_count
        &&& self.queued_bytes == bytes_of(self@)
        &&& self.queued_bytes <= self.max_bytes
    }

    pub closed spec fn spec_max_count(&self) -> nat {
        self.max_count as nat
    }

    pub closed spec fn spec_max_bytes(&self) -> nat {
        self.max_bytes as nat
    }

    pub closed spec fn spec_id(&self) -> u64 {
        self.id
    }

    pub closed spec fn spec_source(&self) -> usize {
        self.source
    }

    pub closed spec fn spec_destination(&self) -> usize {
        self.destination
    }

    pub closed spec fn spec_relationship(&self) -> Seq<char> {
        self.relationship@
    }

    /// Whether `f` can be admitted now.
    pub open spec fn admits(&self, f: FlowFileView) -> bool {
        &&& self@.len() + 1 <= self.spec_max_count()
        &&& bytes_of(self@) + f.content.len() <= self.spec_max_bytes()
    }

    /// The two have the same identity, ends, relationship and capacities,
    /// whatever their queues hold.
    pub open spec fn same_wiring(&self, other: &Connection) -> bool {
        &&& self.spec_id() == other.spec_id()
        &&& self.spec_source() == other.spec_source()
        &&& self.spec_destination() == other.spec_destination()
        &&& self.spec_relationship() == other.spec_relationship()
        &&& self.spec_max_count() == other.spec_max_count()
        &&& self.spec_max_bytes() == other.spec_max_bytes()
    }

    /// An empty connection carrying `relationship` from processor `source` to
    /// processor `destination`, holding at most `max_count` flowfiles and
    /// `max_bytes` bytes of content.
    pub fn new(
        id: u64,
        source: usize,
        relationship: &str,
        destination: usize,
        max_count: usize,
        max_bytes: usize,
    ) -> (r: Connection)
        ensures
            r.wf(),
            r@ == Seq::<FlowFileView>::empty(),
            r.spec_id() == id,
            r.spec_source() == source,
            r.spec_relationship() == relationship@,
            r.spec_destination() == destination,
            r.spec_max_count() == max_count,
            r.spec_max_bytes() == max_bytes,
    {
        let r = Connection {
            id,
            source,
            relationship: relationship.to_owned(),
            destination,
            max_count,
            max_bytes,
            queue: Vec::new(),
            queued_bytes: 0,
        };
        assert(r@ =~= Seq::<FlowFileView>::empty());
        r
    }

    /// Appends `f` at the tail if both capacities allow it; otherwise refuses
    /// it with `Backpressure`, leaving the queue unchanged.
    pub fn enqueue(&mut self, f: FlowFile) -> (r: Result<(), Backpressure>)
        requires
            old(self).wf(),
        ensures
            final(self).wf(),
            final(self).same_wiring(old(self)),
            r.is_ok() == old(self).admits(f@),
            r.is_ok() ==> final(self)@ == old(self)@.push(f@) && bytes_of(final(self)@) == bytes_of(old(self)@)
                + f@.content.len(),
            r.is_err() ==> final(self)@ == old(self)@ && r->Err_0.flowfile@ == f@,
    {
        if self.queue.len() < self.max_count && f.size() <= self.max_bytes - self.queued_bytes {
            let ghost q = self@;
            self.queued_bytes = self.queued_bytes + f.size();
            self.queue.push(f);
            assert(self@ =~= q.push(f@));
            assert(self@.drop_last() =~= q);
            Ok(())
        } else {
            Err(Backpressure { flowfile: f })
        }
    }

    /// Removes and returns the head, or `None` when the queue is empty.
    pub fn dequeue(&mut self) -> (r: Option<FlowFile>)
        requires
            old(self).wf(),
        ensures
            final(self).wf(),
            final(self).same_wiring(old(self)),
            r.is_some() == (old(self)@.len() > 0),
            r.is_some() ==> r.unwrap()@ == old(self)@[0] && final(self)@ == old(self)@.drop_first() && bytes_of(
                final(self)@,
            ) == bytes_of(old(self)@) - r.unwrap()@.content.len(),
            r.is_none() ==> final(self)@ == old(self)@,
    {
        if self.queue.len() == 0 {
            None
        } else {
            let ghost q = self@;
            let f = self.queue.remove(0);
            proof {
                lemma_bytes_drop_first(q);
            }
            assert(self@ =~= q.drop_first());
            self.queued_bytes = self.queued_bytes - f.size();
            Some(f)
        }
    }

    /// Puts `f` back at the head, as when a pull is undone.
    pub fn requeue_front(&mut self, f: FlowFile)
        requires
            old(self).wf(),
            old(self).admits(f@),
        ensures
            final(self).wf(),
            final(self).same_wiring(old(self)),
            final(self)@ == seq![f@] + old(self)@,
    {
        let ghost q = self@;
        self.queued_bytes = self.queued_bytes + f.size();
        self.queue.insert(0, f);
        assert(self@ =~= seq![f@] + q);
        proof {
            lemma_bytes_drop_first(self@);
            assert(self@.drop_first() =~= q);
        }
    }

    /// The same connection between renumbered processors.
    pub fn renumber(&mut self, source: usize, destination: usize)
        ensures
            final(self)@ == old(self)@,
            final(self).wf() == old(self).wf(),
            final(self).spec_source() == source,
            final(self).spec_destination() == destination,
            final(self).spec_id() == old(self).spec_id(),
            final(self).spec_relationship() == old(self).spec_relationship(),
            final(self).spec_max_count() == old(self).spec_max_count(),
            final(self).spec_max_bytes() == old(self).spec_max_bytes(),
    {
        self.source = source;
        self.destination = destination;
    }

    pub fn len(&self) -> (r: usize)
        ensures
            r == self@.len(),
    {
        self.queue.len()
    }

    pub fn is_empty(&self) -> (r: bool)
        ensures
            r == (self@.len() == 0),
    {
        self.queue.len() == 0
    }

    /// How many more flowfiles the count capacity admits.
    pub fn available_capacity(&self) -> (r: usize)
        requires
            self.wf(),
        ensures
            r == self.spec_max_count() - self@.len(),
    {
        self.max_count - self.queue.len()
    }

    /// How many more content bytes the byte capacity admits.
    pub fn available_bytes(&self) -> (r: usize)
        requires
            self.wf(),
        ensures
            r == self.spec_max_bytes() - bytes_of(self@),
    {
        self.max_bytes - self.queued_bytes
    }

    /// The total content size of the queued flowfiles.
    pub fn queued_bytes(&self) -> (r: usize)
        requires
            self.wf(),
        ensures
            r == bytes_of(self@),
    {
        self.queued_bytes
    }

    pub fn id(&self) -> (r: u64)
        ensures
            r == self.spec_id(),
    {
        self.id
    }

    pub fn source(&self) -> (r: usize)
        ensures
            r == self.spec_source(),
    {
        self.source
    }

    pub fn destination(&self) -> (r: usize)
        ensures
            r == self.spec_destination(),
    {
        self.destination
    }

    pub fn relationship(&self) -> (r: &String)
        ensures
            r@ == self.spec_relationship(),
    {
        &self.relationship
    }

    pub fn max_count(&self) -> (r: usize)
        ensures
            r == self.spec_max_count(),
    {
        self.max_count
    }

    pub fn max_bytes(&self) -> (r: usize)
        ensures
            r == self.spec_max_bytes(),
    {
        self.max_bytes
    }

    /// The id of the flowfile at position `i` from the head.
    pub fn id_at(&self, i: usize) -> (r: u64)
        requires
            i < self@.len(),
        ensures
            r == self@[i as int].id,
    {
        self.queue[i].id()
    }
}

/// A well-formed connection never holds more flowfiles, nor more content
/// bytes, than its capacities allow.
pub proof fn lemma_count_bound(c: &Connection)
    requires
        c.wf(),
    ensures
        c@.len() <= c.spec_max_count(),
        bytes_of(c@) <= c.spec_max_bytes(),
        c.spec_max_count() <= usize::MAX,
        c.spec_max_bytes() <= usize::MAX,
{
}

/// A connection holding as many flowfiles as its count capacity admits no
/// further flowfile, so an enqueue without an intervening dequeue is refused.
pub proof fn lemma_full_refuses(c: &Connection, f: FlowFileView)
    requires
        c.wf(),
        c@.len() == c.spec_max_count(),
    ensures
        !c.admits(f),
{
}

/// Flowfiles enqueued one after the other, with no dequeue between, leave the
/// queue in that order: once the earlier contents are drained, the next two
/// dequeues yield them first to last.
pub proof fn lemma_fifo(q: Seq<FlowFileView>, a: FlowFileView, b: FlowFileView)
    ensures
        q.push(a).push(b).skip(q.len() as int) == seq![a, b],
        q.push(a).push(b).skip(q.len() as int)[0] == a,
        q.push(a).push(b).skip(q.len() as int).drop_first()[0] == b,
{
    assert(q.push(a).push(b).skip(q.len() as int) =~= seq![a, b]);
}

} // verus!
