//! The processor capability: a named unit of work that the scheduler invokes
//! with its configuration and a processing session.

use vstd::prelude::*;
use crate::context::ProcessorContext;
use crate::session::{fits, lemma_same_wiring_trans, ProcessingSession};

verus! {

/// Why an invocation ended without committing its session.
pub enum TriggerError {
    /// An output connection was full; the invocation is retried later.
    Backpressure,
    /// The invocation failed for the given reason; the processor is quarantined.
    Fault(String),
}

pub trait Processor {
    /// Whether the processor listens on input relationship `rel`.
    spec fn spec_declares_input(&self, rel: Seq<char>) -> bool;

    /// Whether the processor may emit on output relationship `rel`.
    spec fn spec_declares_output(&self, rel: Seq<char>) -> bool;

    /// The name of the kind of processor.
    spec fn spec_name(&self) -> Seq<char>;

    /// A stable name for the kind of processor.
    fn get_name(&self) -> (r: &'static str)
        ensures
            r@ == self.spec_name(),
    ;

    fn declares_input(&self, relationship: &str) -> (r: bool)
        ensures
            r == self.spec_declares_input(relationship@),
    ;

    fn declares_output(&self, relationship: &str) -> (r: bool)
        ensures
            r == self.spec_declares_output(relationship@),
    ;

    /// One invocation: pull from inputs and push to outputs through `session`.
    /// On `Err` the caller rolls the session back.
    fn on_trigger(&self, context: &ProcessorContext, session: &mut ProcessingSession) -> (r: Result<
        (),
        TriggerError,
    >)
        requires
            old(session).wf(),
        ensures
            final(session).wf(),
            final(session).same_wiring(old(session)),
            final(session).spec_next_id() >= old(session).spec_next_id(),
    ;
}

/// A processor with no relationships whose invocation does no flow work.
pub struct FileProcessor {
    processor_context: ProcessorContext,
}

impl FileProcessor {
    pub fn new(context: ProcessorContext) -> (r: FileProcessor)
        ensures
            r.context() == context,
    {
        FileProcessor { processor_context: context }
    }

    pub closed spec fn context(&self) -> ProcessorContext {
        self.processor_context
    }

    pub fn processor_context(&self) -> (r: &ProcessorContext)
        ensures
            *r == self.context(),
    {
        &self.processor_context
    }
}

impl Processor for FileProcessor {
    open spec fn spec_declares_input(&self, rel: Seq<char>) -> bool {
        false
    }

    open spec fn spec_declares_output(&self, rel: Seq<char>) -> bool {
        false
    }

    open spec fn spec_name(&self) -> Seq<char> {
        "FileProcessor"@
    }

    fn get_name(&self) -> (r: &'static str) {
        "FileProcessor"
    }

    fn declares_input(&self, relationship: &str) -> (r: bool) {
        false
    }

    fn declares_output(&self, relationship: &str) -> (r: bool) {
        false
    }

    fn on_trigger(&self, context: &ProcessorContext, session: &mut ProcessingSession) -> (r: Result<
        (),
        TriggerError,
    >) {
        Ok(())
    }
}

/// Content that a validating transform accepts: any non-empty payload.
pub open spec fn spec_is_valid_content(content: Seq<u8>) -> bool {
    content.len() > 0
}

/// The relationship a validating transform routes `content` to.
pub open spec fn route_of(content: Seq<u8>) -> Seq<char> {
    if spec_is_valid_content(content) {
        "success"@
    } else {
        "failure"@
    }
}

pub fn is_valid_content(content: &Vec<u8>) -> (r: bool)
    ensures
        r == spec_is_valid_content(content@),
{
    content.len() > 0
}

/// A transform that takes one flowfile from its input relationship per
/// invocation and routes it to `success` when its content is valid, to
/// `failure` otherwise.
pub struct RouteOnContent {
    pub input: String,
}

impl RouteOnContent {
    /// A router listening on input relationship `input`.
    pub fn new(input: &str) -> (r: RouteOnContent)
        ensures
            r.input@ == input@,
    {
        RouteOnContent { input: input.to_owned() }
    }
}

impl Processor for RouteOnContent {
    open spec fn spec_declares_input(&self, rel: Seq<char>) -> bool {
        rel == self.input@
    }

    open spec fn spec_declares_output(&self, rel: Seq<char>) -> bool {
        rel == "success"@ || rel == "failure"@
    }

    open spec fn spec_name(&self) -> Seq<char> {
        "RouteOnContent"@
    }

    fn get_name(&self) -> (r: &'static str) {
        "RouteOnContent"
    }

    fn declares_input(&self, relationship: &str) -> (r: bool) {
        relationship.to_owned() == self.input
    }

    fn declares_output(&self, relationship: &str) -> (r: bool) {
        let rel = relationship.to_owned();
        rel == "success".to_owned() || rel == "failure".to_owned()
    }

    fn on_trigger(&self, context: &ProcessorContext, session: &mut ProcessingSession) -> (r: Result<
        (),
        TriggerError,
    >)
        ensures
            r is Err ==> r->Err_0 is Backpressure,
            (forall|c: int| 0 <= c < old(session).connections().len() ==> !#[trigger] old(session).holds_input(c, self.input@))
                ==> r is Ok && final(session).queues() == old(session).queues() && final(session).pulled()
                == old(session).pulled() && final(session).staged() == old(session).staged()
                && final(session).discarded() == old(session).discarded(),
            forall|c: int|
                #[trigger] old(session).first_input(c, self.input@) ==> {
                    let f = old(session).queues()[c][0];
                    let rel = route_of(f.content);
                    &&& final(session).queues() == old(session).queues().update(c, old(session).queues()[c].drop_first())
                    &&& final(session).pulled() == old(session).pulled().push((c as usize, f))
                    &&& (forall|o: int| 0 <= o < old(session).connections().len() ==> !#[trigger] old(session).is_output_at(o, rel))
                        ==> r is Ok && final(session).staged() == old(session).staged()
                        && final(session).discarded() == old(session).discarded().push(f)
                    &&& forall|o: int| #[trigger] old(session).first_output(o, rel) ==> {
                        &&& r.is_ok() == fits(old(session).connections()[o], final(session).queues()[o], old(session).staged(), o, f)
                        &&& r.is_ok() ==> final(session).staged() == old(session).staged().push((o as usize, f))
                        &&& r.is_err() ==> final(session).staged() == old(session).staged()
                        &&& final(session).discarded() == old(session).discarded()
                    }
                },
    {
        let ghost s0 = *session;
        match session.get(self.input.as_str()) {
            None => Ok(()),
            Some(f) => {
                let ghost s1 = *session;
                let target = if is_valid_content(f.content()) {
                    "success"
                } else {
                    "failure"
                };
                proof {
                    reveal_strlit("success");
                    reveal_strlit("failure");
                    let c0 = choose|c0: int| {
                        &&& 0 <= c0 < s0.connections().len()
                        &&& #[trigger] s0.is_input_at(c0, self.input@)
                        &&& s0.queues()[c0].len() > 0
                        &&& forall|d: int|
                            0 <= d < c0 ==> !(#[trigger] s0.is_input_at(d, self.input@) && s0.queues()[d].len() > 0)
                        &&& f@ == s0.queues()[c0][0]
                        &&& s1.queues() == s0.queues().update(c0, s0.queues()[c0].drop_first())
                        &&& s1.pulled() == s0.pulled().push((c0 as usize, f@))
                    };
                    assert(s0.holds_input(c0, self.input@));
                    assert forall|c: int| #[trigger] s0.first_input(c, self.input@) implies c == c0 by {
                        if c < c0 {
                            assert(!(s0.is_input_at(c, self.input@) && s0.queues()[c].len() > 0));
                        } else if c > c0 {
                            assert(!s0.holds_input(c0, self.input@));
                        }
                    }
                }
                let res = session.transfer(f, target);
                proof {
                    lemma_same_wiring_trans(session, &s1, &s0);
                    assert forall|o: int| #[trigger] s0.first_output(o, target@) implies s1.first_output(o, target@) by {
                        assert forall|d: int| 0 <= d < o implies !#[trigger] s1.is_output_at(d, target@) by {
                            assert(!s0.is_output_at(d, target@));
                            assert(s1.connections()[d].same_wiring(&s0.connections()[d]));
                        }
                        assert(s1.connections()[o].same_wiring(&s0.connections()[o]));
                        assert(fits(s1.connections()[o], s1.queues()[o], s1.staged(), o, f@) == fits(s0.connections()[o], s1.queues()[o], s0.staged(), o, f@));
                    }
                    assert(target@ == route_of(f@.content));
                    assert((forall|o: int| 0 <= o < s0.connections().len() ==> !#[trigger] s0.is_output_at(o, target@))
                        ==> (forall|o: int| 0 <= o < s1.connections().len() ==> !#[trigger] s1.is_output_at(o, target@))) by {
                        assert forall|o: int| 0 <= o < s1.connections().len() && (forall|o2: int| 0 <= o2 < s0.connections().len() ==> !#[trigger] s0.is_output_at(o2, target@))
                            implies !s1.is_output_at(o, target@) by {
                            assert(s1.connections()[o].same_wiring(&s0.connections()[o]));
                            assert(!s0.is_output_at(o, target@));
                        }
                    }
                }
                proof {
                    assert forall|c: int| #[trigger] s0.first_input(c, self.input@) implies {
                        &&& session.queues() == s0.queues().update(c, s0.queues()[c].drop_first())
                        &&& session.pulled() == s0.pulled().push((c as usize, s0.queues()[c][0]))
                        &&& f@ == s0.queues()[c][0]
                    } by {}
                    assert forall|o: int| #[trigger] s0.first_output(o, target@) implies {
                        &&& res.is_ok() == fits(s0.connections()[o], session.queues()[o], s0.staged(), o, f@)
                        &&& res.is_ok() ==> session.staged() == s0.staged().push((o as usize, f@))
                        &&& res.is_err() ==> session.staged() == s0.staged()
                        &&& session.discarded() == s0.discarded()
                    } by {
                        assert(s1.first_output(o, target@));
                        assert(s1.is_output_at(o, target@));
                        assert(s1.connections()[o].same_wiring(&s0.connections()[o]));
                        assert(s1.staged() == s0.staged());
                        assert(session.queues() == s1.queues());
                        assert(fits(s1.connections()[o], s1.queues()[o], s1.staged(), o, f@) == fits(
                            s0.connections()[o],
                            s1.queues()[o],
                            s0.staged(),
                            o,
                            f@,
                        ));
                    }
                }
                match res {
                    Ok(()) => Ok(()),
                    Err(_) => Err(TriggerError::Backpressure),
                }
            },
        }
    }
}

} // verus!
