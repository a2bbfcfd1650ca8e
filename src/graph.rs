//! The flow graph: it owns every processor, its context and every connection,
//! wires processors together, and runs invocations as transactions.

use vstd::prelude::*;
use crate::connection::{bytes_of, lemma_count_bound, Connection};
use crate::context::ProcessorContext;
use crate::flowfile::{FlowFile, FlowFileView};
use crate::ownership::{flat_ids, ids_of, lemma_flat_ids_concat, lemma_flat_ids_split, lemma_insert_fresh, owned_once};
use crate::properties::PropertyMap;
use crate::processor::{Processor, TriggerError};
use crate::session::{queues_of, ProcessingSession};

verus! {

/// Position `j` steps after `start` on a cycle of `n` positions, for `j < n`.
pub open spec fn cyclic(start: int, j: int, n: int) -> int {
    if start + j < n {
        start + j
    } else {
        start + j - n
    }
}

/// Where a processor stands with the scheduler.
#[derive(Clone, Copy, Debug, PartialEq, Eq, Structural)]
pub enum ProcessorState {
    Idle,
    Runnable,
    Failed,
}

/// Why a graph-construction call was refused.
#[derive(Clone, Copy, Debug, PartialEq, Eq, Structural)]
pub enum WiringError {
    DuplicateName,
    UnknownProcessor,
    UndeclaredRelationship,
    UnknownConnection,
    ConnectionNotEmpty,
    ProcessorConnected,
}

/// Why an injected flowfile was not admitted.
#[derive(Clone, Copy, Debug, PartialEq, Eq, Structural)]
pub enum InjectError {
    UnknownConnection,
    IdentifiersExhausted,
    Backpressure,
}

/// An invocation that failed, with the name of its processor.
pub struct ProcessorFault {
    pub processor: String,
    pub reason: String,
}

/// Why an invocation did not commit.
pub enum InvocationError {
    /// An output was full; the session was rolled back and the processor waits for a retry.
    Backpressure,
    /// The processor failed; the session was rolled back and the processor quarantined.
    Fault(ProcessorFault),
    /// The processor is quarantined and was not invoked.
    Quarantined,
}

pub struct FlowGraph<P: Processor> {
    processors: Vec<P>,
    contexts: Vec<ProcessorContext>,
    states: Vec<ProcessorState>,
    connections: Vec<Connection>,
    next_flowfile_id: u64,
    cursor: usize,
    running: bool,
}

impl<P: Processor> FlowGraph<P> {
    pub closed spec fn processors(&self) -> Seq<P> {
        self.processors@
    }

    /// The registered names, by handle.
    pub closed spec fn names(&self) -> Seq<Seq<char>> {
        self.contexts@.map_values(|c: ProcessorContext| c.processor_name@)
    }

    pub closed spec fn states(&self) -> Seq<ProcessorState> {
        self.states@
    }

    pub closed spec fn connections(&self) -> Seq<Connection> {
        self.connections@
    }

    pub closed spec fn spec_next_flowfile_id(&self) -> u64 {
        self.next_flowfile_id
    }

    pub closed spec fn spec_cursor(&self) -> usize {
        self.cursor
    }

    /// Whether the scheduler dispatches work.
    pub closed spec fn spec_running(&self) -> bool {
        self.running
    }

    /// What each connection holds, by connection handle.
    pub open spec fn queues(&self) -> Seq<Seq<FlowFileView>> {
        queues_of(self.connections())
    }

    pub closed spec fn wf(&self) -> bool {
        &&& self.contexts@.len() == self.processors@.len()
        &&& self.states@.len() == self.processors@.len()
        &&& forall|i: int, j: int|
            0 <= i < self.contexts@.len() && 0 <= j < self.contexts@.len() && i != j
                ==> self.contexts@[i].processor_name@ != self.contexts@[j].processor_name@
        &&& forall|c: int|
            0 <= c < self.connections@.len() ==> (#[trigger] self.connections@[c]).wf()
                && self.connections@[c].spec_source() < self.processors@.len()
                && self.connections@[c].spec_destination() < self.processors@.len()
        &&& owned_once(queues_of(self.connections@), self.next_flowfile_id)
    }

    /// Connection `c` feeds processor `h`.
    pub open spec fn feeds(&self, c: int, h: int) -> bool {
        self.connections()[c].spec_destination() == h
    }

    /// Connection `c` carries output of processor `h`.
    pub open spec fn drains(&self, c: int, h: int) -> bool {
        self.connections()[c].spec_source() == h
    }

    /// Connection `c` has processor `h` at one of its ends.
    pub open spec fn touches(&self, c: int, h: int) -> bool {
        self.feeds(c, h) || self.drains(c, h)
    }

    /// Processor `h` may be invoked: it is not quarantined, and either some
    /// connection feeding it holds work or none feeds it (a source).
    pub open spec fn spec_ready(&self, h: int) -> bool {
        &&& self.states()[h] != ProcessorState::Failed
        &&& (exists|c: int| 0 <= c < self.connections().len() && #[trigger] self.feeds(c, h)
            && self.queues()[c].len() > 0) || (forall|c: int| 0 <= c < self.connections().len()
            ==> !#[trigger] self.feeds(c, h))
    }

    /// Where the next round-robin scan begins.
    pub open spec fn spec_start(&self) -> int {
        if self.spec_cursor() < self.processors().len() {
            self.spec_cursor() as int
        } else {
            0
        }
    }

    /// What one invocation of processor `h` did, given its result `r`.
    pub open spec fn spec_invocation_effect(&self, post: &FlowGraph<P>, h: int, r: Result<(), InvocationError>) -> bool {
        &&& post.wf()
        &&& post.same_shape(self)
        &&& (self.states()[h] == ProcessorState::Failed) == (r is Err && r->Err_0 is Quarantined)
        &&& (r is Err && r->Err_0 is Quarantined) ==> post.queues() == self.queues() && post.states() == self.states()
        &&& r is Ok ==> post.states() == self.states().update(h, ProcessorState::Idle)
        &&& (r is Err && r->Err_0 is Backpressure) ==> post.queues() == self.queues()
            && post.states() == self.states().update(h, ProcessorState::Runnable)
        &&& (r is Err && r->Err_0 is Fault) ==> post.queues() == self.queues()
            && post.states() == self.states().update(h, ProcessorState::Failed)
            && r->Err_0->Fault_0.processor@ == self.names()[h]
    }

    /// The same processors and wiring, whatever the queues and states hold.
    pub open spec fn same_shape(&self, other: &FlowGraph<P>) -> bool {
        &&& self.processors() == other.processors()
        &&& self.names() == other.names()
        &&& self.connections().len() == other.connections().len()
        &&& forall|c: int|
            0 <= c < self.connections().len() ==> #[trigger] self.connections()[c].same_wiring(
                &other.connections()[c],
            )
    }

    /// An empty graph.
    pub fn new() -> (r: FlowGraph<P>)
        ensures
            r.wf(),
            r.processors().len() == 0,
            r.connections().len() == 0,
            r.spec_next_flowfile_id() == 0,
            !r.spec_running(),
    {
        FlowGraph {
            processors: Vec::new(),
            contexts: Vec::new(),
            states: Vec::new(),
            connections: Vec::new(),
            next_flowfile_id: 0,
            cursor: 0,
            running: false,
        }
    }

    /// Adds `processor` under the name in `context`; refused when that name is taken.
    pub fn register_processor(&mut self, processor: P, context: ProcessorContext) -> (r: Result<usize, WiringError>)
        requires
            old(self).wf(),
        ensures
            final(self).wf(),
            r.is_err() == exists|i: int| 0 <= i < old(self).names().len() && old(self).names()[i] == context.processor_name@,
            r.is_err() ==> r == Err::<usize, WiringError>(WiringError::DuplicateName) && *final(self) == *old(self),
            r.is_ok() ==> {
                &&& r.unwrap() == old(self).processors().len()
                &&& final(self).processors() == old(self).processors().push(processor)
                &&& final(self).names() == old(self).names().push(context.processor_name@)
                &&& final(self).states() == old(self).states().push(ProcessorState::Idle)
                &&& final(self).connections() == old(self).connections()
                &&& final(self).spec_next_flowfile_id() == old(self).spec_next_flowfile_id()
            },
    {
        let mut i: usize = 0;
        while i < self.contexts.len()
            invariant
                i <= self.contexts.len(),
                self.wf(),
                *self == *old(self),
                self.contexts@.len() == self.names().len(),
                forall|j: int| 0 <= j < i ==> self.names()[j] != context.processor_name@,
            decreases self.contexts.len() - i,
        {
            if self.contexts[i].processor_name == context.processor_name {
                assert(self.names()[i as int] == context.processor_name@);
                return Err(WiringError::DuplicateName);
            }
            i = i + 1;
        }
        let h = self.processors.len();
        let ghost old_names = self.names();
        self.processors.push(processor);
        self.contexts.push(context);
        self.states.push(ProcessorState::Idle);
        assert(self.names() =~= old_names.push(context.processor_name@));
        proof {
            assert forall|a: int, b: int|
                0 <= a < self.contexts@.len() && 0 <= b < self.contexts@.len() && a != b
                    implies self.contexts@[a].processor_name@ != self.contexts@[b].processor_name@ by {
                assert(self.names()[a] == self.contexts@[a].processor_name@);
                assert(self.names()[b] == self.contexts@[b].processor_name@);
            }
        }
        Ok(h)
    }

    /// Wires a new empty connection carrying `relationship` from processor
    /// `from` to processor `to`. Refused when a handle is unknown, or when
    /// `from` does not declare `relationship` as an output or `to` does not
    /// declare it as an input.
    pub fn connect(
        &mut self,
        from: usize,
        relationship: &str,
        to: usize,
        max_count: usize,
        max_bytes: usize,
    ) -> (r: Result<usize, WiringError>)
        requires
            old(self).wf(),
        ensures
            final(self).wf(),
            (from >= old(self).processors().len() || to >= old(self).processors().len()) ==> r == Err::<
                usize,
                WiringError,
            >(WiringError::UnknownProcessor),
            (from < old(self).processors().len() && to < old(self).processors().len()) ==> (r == Err::<
                usize,
                WiringError,
            >(WiringError::UndeclaredRelationship) <==> !(old(self).processors()[from as int].spec_declares_output(
                relationship@,
            ) && old(self).processors()[to as int].spec_declares_input(relationship@))),
            (from < old(self).processors().len() && to < old(self).processors().len()
                && old(self).processors()[from as int].spec_declares_output(relationship@)
                && old(self).processors()[to as int].spec_declares_input(relationship@)) ==> r.is_ok(),
            r.is_err() ==> *final(self) == *old(self),
            r.is_ok() ==> {
                let c = r.unwrap() as int;
                &&& c == old(self).connections().len()
                &&& final(self).connections().len() == c + 1
                &&& final(self).connections().drop_last() == old(self).connections()
                &&& final(self).queues()[c] == Seq::<FlowFileView>::empty()
                &&& final(self).connections()[c].spec_source() == from
                &&& final(self).connections()[c].spec_destination() == to
                &&& final(self).connections()[c].spec_relationship() == relationship@
                &&& final(self).connections()[c].spec_max_count() == max_count
                &&& final(self).connections()[c].spec_max_bytes() == max_bytes
                &&& final(self).processors() == old(self).processors()
                &&& final(self).names() == old(self).names()
                &&& final(self).states() == old(self).states()
                &&& final(self).spec_next_flowfile_id() == old(self).spec_next_flowfile_id()
            },
    {
        if from >= self.processors.len() || to >= self.processors.len() {
            return Err(WiringError::UnknownProcessor);
        }
        if !self.processors[from].declares_output(relationship) || !self.processors[to].declares_input(
            relationship,
        ) {
            return Err(WiringError::UndeclaredRelationship);
        }
        let c = self.connections.len();
        let ghost old_conns = self.connections@;
        self.connections.push(Connection::new(c as u64, from, relationship, to, max_count, max_bytes));
        assert(self.connections@.drop_last() =~= old_conns);
        proof {
            let qs = queues_of(self.connections@);
            assert(qs.drop_last() =~= queues_of(old_conns));
            assert(ids_of(qs.last()) =~= Seq::<u64>::empty());
            assert(flat_ids(qs) =~= flat_ids(queues_of(old_conns)));
        }
        Ok(c)
    }

    /// Whether processor `h` may be invoked now.
    pub fn is_ready(&self, h: usize) -> (r: bool)
        requires
            self.wf(),
            h < self.processors().len(),
        ensures
            r == self.spec_ready(h as int),
    {
        if self.states[h] == ProcessorState::Failed {
            return false;
        }
        let mut fed = false;
        let mut i: usize = 0;
        while i < self.connections.len()
            invariant
                i <= self.connections.len(),
                self.wf(),
                h < self.processors().len(),
                self.states()[h as int] != ProcessorState::Failed,
                fed == exists|c: int| 0 <= c < i && #[trigger] self.feeds(c, h as int),
                forall|c: int| 0 <= c < i && #[trigger] self.feeds(c, h as int) ==> self.queues()[c].len() == 0,
            decreases self.connections.len() - i,
        {
            if self.connections[i].destination() == h {
                assert(self.feeds(i as int, h as int));
                if !self.connections[i].is_empty() {
                    assert(self.feeds(i as int, h as int) && self.queues()[i as int].len() > 0);
                    return true;
                }
                fed = true;
            }
            i = i + 1;
        }
        !fed
    }

    /// Runs one invocation of processor `h` as a transaction. On success the
    /// session commits and the processor goes idle. On backpressure the session
    /// rolls back and the processor waits for a retry. On a fault the session
    /// rolls back and the processor is quarantined. A quarantined processor is
    /// not invoked. An invocation whose commit would queue some flowfile
    /// identifier twice, or one never handed out, is treated as a fault. Only a
    /// commit changes what the connections hold.
    pub fn trigger(&mut self, h: usize, now: u64) -> (r: Result<(), InvocationError>)
        requires
            old(self).wf(),
            h < old(self).processors().len(),
        ensures
            old(self).spec_invocation_effect(final(self), h as int, r),
            final(self).spec_cursor() == old(self).spec_cursor(),
            final(self).spec_running() == old(self).spec_running(),
    {
        if self.states[h] == ProcessorState::Failed {
            return Err(InvocationError::Quarantined);
        }
        let ghost g0 = *self;
        let mut conns: Vec<Connection> = Vec::new();
        std::mem::swap(&mut self.connections, &mut conns);
        let mut session = ProcessingSession::begin(conns, h, self.next_flowfile_id, now);
        let ghost s0 = session;
        let res = self.processors[h].on_trigger(&self.contexts[h], &mut session);
        let ghost s1 = session;
        proof {
            assert forall|c: int| 0 <= c < s1.connections().len() implies #[trigger] s1.connections()[c].same_wiring(&g0.connections@[c]) by {
                assert(s1.connections()[c].same_wiring(&s0.connections()[c]));
            }
            assert forall|c: int| 0 <= c < s1.connections().len() implies #[trigger] s1.connections()[c].spec_source()
                < self.processors@.len() && s1.connections()[c].spec_destination() < self.processors@.len() by {
                assert(s1.connections()[c].same_wiring(&g0.connections@[c]));
                assert(g0.connections@[c].wf());
            }
            assert(s1.initial() == g0.queues());
        }
        let r = self.finish_invocation(h, session, res);
        proof {
            assert forall|c: int| 0 <= c < self.connections().len() implies #[trigger] self.connections()[c].same_wiring(
                &g0.connections()[c],
            ) by {
                assert(self.connections()[c].same_wiring(&s1.connections()[c]));
                assert(s1.connections()[c].same_wiring(&g0.connections@[c]));
            }
        }
        r
    }

    /// The graph with its connections lent out to a session.
    pub closed spec fn suspended(&self) -> bool {
        &&& self.contexts@.len() == self.processors@.len()
        &&& self.states@.len() == self.processors@.len()
        &&& forall|i: int, j: int|
            0 <= i < self.contexts@.len() && 0 <= j < self.contexts@.len() && i != j
                ==> self.contexts@[i].processor_name@ != self.contexts@[j].processor_name@
        &&& self.connections@.len() == 0
    }

    /// Ends an invocation of processor `h` whose session is `session` and
    /// whose processor returned `res`, and takes the connections back. A
    /// successful invocation commits when no flowfile identifier would then be
    /// queued twice or be one never handed out; otherwise it is a fault. A
    /// fault or backpressure rolls the session back.
    pub fn finish_invocation(&mut self, h: usize, session: ProcessingSession, res: Result<(), TriggerError>) -> (r: Result<
        (),
        InvocationError,
    >)
        requires
            old(self).suspended(),
            h < old(self).processors().len(),
            session.wf(),
            forall|c: int|
                0 <= c < session.connections().len() ==> #[trigger] session.connections()[c].spec_source()
                    < old(self).processors().len() && session.connections()[c].spec_destination() < old(self).processors().len(),
            owned_once(session.initial(), old(self).spec_next_flowfile_id()),
            session.spec_next_id() >= old(self).spec_next_flowfile_id(),
        ensures
            final(self).wf(),
            final(self).processors() == old(self).processors(),
            final(self).names() == old(self).names(),
            final(self).spec_cursor() == old(self).spec_cursor(),
            final(self).spec_running() == old(self).spec_running(),
            final(self).spec_next_flowfile_id() == session.spec_next_id(),
            final(self).connections().len() == session.connections().len(),
            forall|c: int|
                0 <= c < final(self).connections().len() ==> #[trigger] final(self).connections()[c].same_wiring(
                    &session.connections()[c],
                ),
            res is Ok && owned_once(session.committed(), session.spec_next_id()) ==> r is Ok && final(self).queues()
                == session.committed() && final(self).states() == old(self).states().update(h as int, ProcessorState::Idle),
            res is Ok && !owned_once(session.committed(), session.spec_next_id()) ==> r is Err && r->Err_0 is Fault
                && final(self).queues() == session.initial() && final(self).states() == old(self).states().update(
                h as int,
                ProcessorState::Failed,
            ) && r->Err_0->Fault_0.processor@ == old(self).names()[h as int],
            res is Err && res->Err_0 is Backpressure ==> r is Err && r->Err_0 is Backpressure && final(self).queues()
                == session.initial() && final(self).states() == old(self).states().update(h as int, ProcessorState::Runnable),
            res is Err && res->Err_0 is Fault ==> r is Err && r->Err_0 is Fault && final(self).queues() == session.initial()
                && final(self).states() == old(self).states().update(h as int, ProcessorState::Failed)
                && r->Err_0->Fault_0.processor@ == old(self).names()[h as int]
                && r->Err_0->Fault_0.reason == res->Err_0->Fault_0,
    {
        self.next_flowfile_id = session.next_id();
        let ghost sess = session;
        let ghost committed = session.committed();
        proof {
            assert forall|i: int| 0 <= i < flat_ids(sess.initial()).len() implies #[trigger] flat_ids(sess.initial())[i]
                < self.next_flowfile_id by {
                assert(flat_ids(sess.initial())[i] < old(self).next_flowfile_id);
            }
        }
        let keep = match res {
            Ok(()) => session.commit_keeps_ownership(),
            Err(_) => false,
        };
        let r = if keep {
            self.connections = session.commit();
            self.states.set(h, ProcessorState::Idle);
            assert(queues_of(self.connections@) =~= committed);
            Ok(())
        } else {
            self.connections = session.rollback();
            assert(queues_of(self.connections@) =~= sess.initial());
            match res {
                Ok(()) => {
                    self.states.set(h, ProcessorState::Failed);
                    Err(InvocationError::Fault(ProcessorFault {
                        processor: self.contexts[h].processor_name.clone(),
                        reason: "a flowfile would be queued twice".to_owned(),
                    }))
                },
                Err(TriggerError::Backpressure) => {
                    self.states.set(h, ProcessorState::Runnable);
                    Err(InvocationError::Backpressure)
                },
                Err(TriggerError::Fault(reason)) => {
                    self.states.set(h, ProcessorState::Failed);
                    Err(InvocationError::Fault(ProcessorFault { processor: self.contexts[h].processor_name.clone(), reason }))
                },
            }
        };
        proof {
            assert forall|c: int| 0 <= c < self.connections@.len() implies (#[trigger] self.connections@[c]).wf()
                && self.connections@[c].spec_source() < self.processors@.len()
                && self.connections@[c].spec_destination() < self.processors@.len() by {
                assert(self.connections@[c].same_wiring(&sess.connections()[c]));
            }
        }
        r
    }

    proof fn lemma_shape_kept(&self, g0: &FlowGraph<P>, shape: Seq<Connection>)
        requires
            g0.wf(),
            self.processors@ == g0.processors@,
            self.contexts@ == g0.contexts@,
            self.states@.len() == g0.states@.len(),
            shape.len() == g0.connections@.len(),
            self.connections@.len() == shape.len(),
            forall|c: int| 0 <= c < shape.len() ==> #[trigger] shape[c].same_wiring(&g0.connections@[c]),
            forall|c: int| 0 <= c < shape.len() ==> (#[trigger] self.connections@[c]).wf() && self.connections@[c].same_wiring(&shape[c]),
            owned_once(queues_of(self.connections@), self.next_flowfile_id),
        ensures
            self.wf(),
            self.same_shape(g0),
    {
        assert forall|c: int| 0 <= c < self.connections@.len() implies #[trigger] self.connections@[c].same_wiring(&g0.connections@[c]) by {
            assert(shape[c].same_wiring(&g0.connections@[c]));
            assert(self.connections@[c].same_wiring(&shape[c]));
        }
        assert forall|c: int| 0 <= c < self.connections@.len() implies (#[trigger] self.connections@[c]).wf()
            && self.connections@[c].spec_source() < self.processors@.len()
            && self.connections@[c].spec_destination() < self.processors@.len() by {
            assert(self.connections@[c].same_wiring(&g0.connections@[c]));
            assert(g0.connections@[c].wf());
        }
    }

    /// Single ownership: in a well-formed graph, which every operation keeps
    /// well-formed, no flowfile identifier is queued twice across all
    /// connections, and every queued identifier is below the next fresh one.
    pub proof fn lemma_single_owner(&self)
        requires
            self.wf(),
        ensures
            flat_ids(self.queues()).no_duplicates(),
            forall|i: int| 0 <= i < flat_ids(self.queues()).len() ==> #[trigger] flat_ids(self.queues())[i]
                < self.spec_next_flowfile_id(),
    {
    }

    /// Bounded buffering: in a well-formed graph every connection holds no
    /// more flowfiles, and no more content bytes, than its capacities declare.
    pub proof fn lemma_bounded_buffering(&self)
        requires
            self.wf(),
        ensures
            forall|c: int|
                0 <= c < self.connections().len() ==> #[trigger] self.queues()[c].len()
                    <= self.connections()[c].spec_max_count() && bytes_of(self.queues()[c])
                    <= self.connections()[c].spec_max_bytes(),
    {
        assert forall|c: int| 0 <= c < self.connections().len() implies #[trigger] self.queues()[c].len()
            <= self.connections()[c].spec_max_count() && bytes_of(self.queues()[c])
            <= self.connections()[c].spec_max_bytes() by {
            lemma_count_bound(&self.connections@[c]);
        }
    }

    /// Lets the scheduler dispatch work.
    pub fn start(&mut self)
        requires
            old(self).wf(),
        ensures
            final(self).wf(),
            final(self).same_shape(old(self)),
            final(self).queues() == old(self).queues(),
            final(self).states() == old(self).states(),
            final(self).spec_cursor() == old(self).spec_cursor(),
            final(self).spec_next_flowfile_id() == old(self).spec_next_flowfile_id(),
            final(self).spec_running(),
    {
        self.running = true;
    }

    /// Stops dispatching further work; nothing already queued is touched.
    pub fn stop(&mut self)
        requires
            old(self).wf(),
        ensures
            final(self).wf(),
            final(self).same_shape(old(self)),
            final(self).queues() == old(self).queues(),
            final(self).states() == old(self).states(),
            final(self).spec_cursor() == old(self).spec_cursor(),
            final(self).spec_next_flowfile_id() == old(self).spec_next_flowfile_id(),
            !final(self).spec_running(),
    {
        self.running = false;
    }

    pub fn is_running(&self) -> (r: bool)
        ensures
            r == self.spec_running(),
    {
        self.running
    }

    /// Lifts the quarantine of processor `h`.
    pub fn reset(&mut self, h: usize)
        requires
            old(self).wf(),
            h < old(self).processors().len(),
        ensures
            final(self).wf(),
            final(self).same_shape(old(self)),
            final(self).queues() == old(self).queues(),
            final(self).states() == old(self).states().update(h as int, ProcessorState::Idle),
    {
        self.states.set(h, ProcessorState::Idle);
    }

    /// One scheduling step: invokes the first ready processor at or after the
    /// round-robin cursor, wrapping around, and moves the cursor past it.
    /// `None`, with nothing changed, when no processor is ready.
    pub fn run_once(&mut self, now: u64) -> (r: Option<(usize, Result<(), InvocationError>)>)
        requires
            old(self).wf(),
        ensures
            final(self).wf(),
            final(self).same_shape(old(self)),
            r.is_none() == (!old(self).spec_running() || forall|h: int|
                0 <= h < old(self).processors().len() ==> !#[trigger] old(self).spec_ready(h)),
            r.is_none() ==> *final(self) == *old(self),
            r.is_some() ==> {
                let h = r.unwrap().0;
                let n = old(self).processors().len() as int;
                &&& h < n
                &&& old(self).spec_ready(h as int)
                &&& exists|k: int| 0 <= k < n && h == #[trigger] cyclic(old(self).spec_start(), k, n)
                    && forall|j: int| 0 <= j < k ==> !#[trigger] old(self).spec_ready(cyclic(old(self).spec_start(), j, n))
                &&& old(self).spec_invocation_effect(final(self), h as int, r.unwrap().1)
                &&& final(self).spec_cursor() == h + 1
                &&& final(self).spec_running()
            },
    {
        if !self.running {
            return None;
        }
        let n = self.processors.len();
        let start: usize = if self.cursor < n { self.cursor } else { 0 };
        let mut k: usize = 0;
        while k < n
            invariant
                self.wf(),
                *self == *old(self),
                n == self.processors().len(),
                start < n || n == 0,
                start as int == self.spec_start(),
                self.running,
                k <= n,
                forall|j: int| 0 <= j < k ==> !#[trigger] self.spec_ready(cyclic(start as int, j, n as int)),
            decreases n - k,
        {
            let h: usize = if start < n - k { start + k } else { start - (n - k) };
            if self.is_ready(h) {
                assert(cyclic(start as int, k as int, n as int) == h);
                let res = self.trigger(h, now);
                self.cursor = h + 1;
                proof {
                    assert(0 <= k < n && h == cyclic(start as int, k as int, n as int) && forall|j: int| 0 <= j < k ==> !#[trigger] old(self).spec_ready(cyclic(start as int, j, n as int)));
                    assert(start == old(self).spec_start());
                }
                return Some((h, res));
            }
            k = k + 1;
        }
        proof {
            assert forall|h: int| 0 <= h < n implies !#[trigger] self.spec_ready(h) by {
                let j = if h >= start { h - start } else { h + n - start };
                assert(0 <= j < n);
                assert(!self.spec_ready(cyclic(start as int, j, n as int)));
            }
        }
        None
    }

    /// Removes connection `c`, which must be empty; later connections move
    /// down one handle.
    pub fn disconnect(&mut self, c: usize) -> (r: Result<(), WiringError>)
        requires
            old(self).wf(),
        ensures
            final(self).wf(),
            c >= old(self).connections().len() ==> r == Err::<(), WiringError>(WiringError::UnknownConnection),
            c < old(self).connections().len() ==> (r == Err::<(), WiringError>(WiringError::ConnectionNotEmpty)
                <==> old(self).queues()[c as int].len() > 0),
            c < old(self).connections().len() && old(self).queues()[c as int].len() == 0 ==> r.is_ok(),
            r.is_err() ==> *final(self) == *old(self),
            r.is_ok() ==> {
                &&& final(self).connections() == old(self).connections().remove(c as int)
                &&& final(self).processors() == old(self).processors()
                &&& final(self).names() == old(self).names()
                &&& final(self).states() == old(self).states()
            },
    {
        if c >= self.connections.len() {
            return Err(WiringError::UnknownConnection);
        }
        if !self.connections[c].is_empty() {
            return Err(WiringError::ConnectionNotEmpty);
        }
        let ghost before = self.connections@;
        let _ = self.connections.remove(c);
        proof {
            let qs = queues_of(before);
            lemma_flat_ids_split(qs, c as int);
            assert(queues_of(self.connections@) =~= qs.take(c as int) + qs.skip(c + 1));
            lemma_flat_ids_concat(qs.take(c as int), qs.skip(c + 1));
            assert(ids_of(qs[c as int]) =~= Seq::<u64>::empty());
            assert(flat_ids(queues_of(self.connections@)) =~= flat_ids(qs));
            assert forall|d: int| 0 <= d < self.connections@.len() implies (#[trigger] self.connections@[d]).wf()
                && self.connections@[d].spec_source() < self.processors@.len()
                && self.connections@[d].spec_destination() < self.processors@.len() by {
                if d < c {
                    assert(self.connections@[d] == before[d]);
                } else {
                    assert(self.connections@[d] == before[d + 1]);
                }
            }
        }
        Ok(())
    }

    /// Removes processor `h`, which no connection may touch; processors after
    /// it move down one handle, and connections follow them.
    pub fn unregister(&mut self, h: usize) -> (r: Result<(), WiringError>)
        requires
            old(self).wf(),
        ensures
            final(self).wf(),
            h >= old(self).processors().len() ==> r == Err::<(), WiringError>(WiringError::UnknownProcessor),
            h < old(self).processors().len() ==> (r == Err::<(), WiringError>(WiringError::ProcessorConnected)
                <==> exists|c: int| 0 <= c < old(self).connections().len() && #[trigger] old(self).touches(c, h as int)),
            h < old(self).processors().len() && (forall|c: int| 0 <= c < old(self).connections().len()
                ==> !#[trigger] old(self).touches(c, h as int)) ==> r.is_ok(),
            r.is_err() ==> *final(self) == *old(self),
            r.is_ok() ==> {
                &&& final(self).processors() == old(self).processors().remove(h as int)
                &&& final(self).names() == old(self).names().remove(h as int)
                &&& final(self).states() == old(self).states().remove(h as int)
                &&& final(self).queues() == old(self).queues()
                &&& final(self).connections().len() == old(self).connections().len()
                &&& forall|c: int| 0 <= c < final(self).connections().len() ==> {
                    let o = #[trigger] old(self).connections()[c];
                    let n = final(self).connections()[c];
                    &&& n.spec_source() == if o.spec_source() > h { (o.spec_source() - 1) as usize } else { o.spec_source() }
                    &&& n.spec_destination() == if o.spec_destination() > h { (o.spec_destination() - 1) as usize } else { o.spec_destination() }
                    &&& n.spec_id() == o.spec_id()
                    &&& n.spec_relationship() == o.spec_relationship()
                    &&& n.spec_max_count() == o.spec_max_count()
                    &&& n.spec_max_bytes() == o.spec_max_bytes()
                }
            },
    {
        if h >= self.processors.len() {
            return Err(WiringError::UnknownProcessor);
        }
        let mut i: usize = 0;
        while i < self.connections.len()
            invariant
                i <= self.connections.len(),
                *self == *old(self),
                self.wf(),
                h < self.processors().len(),
                forall|c: int| 0 <= c < i ==> !#[trigger] self.touches(c, h as int),
            decreases self.connections.len() - i,
        {
            if self.connections[i].source() == h || self.connections[i].destination() == h {
                assert(self.touches(i as int, h as int));
                return Err(WiringError::ProcessorConnected);
            }
            assert(!self.touches(i as int, h as int));
            i = i + 1;
        }
        let ghost g0 = *self;
        let ghost old_names = self.names();
        let _ = self.processors.remove(h);
        let _ = self.contexts.remove(h);
        let _ = self.states.remove(h);
        assert(self.names() =~= old_names.remove(h as int));
        let mut k: usize = 0;
        while k < self.connections.len()
            invariant
                self.processors@ == g0.processors@.remove(h as int),
                self.contexts@ == g0.contexts@.remove(h as int),
                self.states@ == g0.states@.remove(h as int),
                self.next_flowfile_id == g0.next_flowfile_id,
                self.cursor == g0.cursor,
                self.running == g0.running,
                self.connections@.len() == g0.connections@.len(),
                k <= self.connections@.len(),
                h < g0.processors@.len(),
                g0.wf(),
                forall|c: int| 0 <= c < g0.connections@.len() ==> !#[trigger] g0.touches(c, h as int),
                forall|c: int| 0 <= c < self.connections@.len() ==> {
                    let o = #[trigger] g0.connections@[c];
                    let n = self.connections@[c];
                    &&& n@ == o@
                    &&& n.wf()
                    &&& n.spec_id() == o.spec_id()
                    &&& n.spec_relationship() == o.spec_relationship()
                    &&& n.spec_max_count() == o.spec_max_count()
                    &&& n.spec_max_bytes() == o.spec_max_bytes()
                    &&& c < k ==> n.spec_source() == if o.spec_source() > h { (o.spec_source() - 1) as usize } else { o.spec_source() }
                    &&& c < k ==> n.spec_destination() == if o.spec_destination() > h { (o.spec_destination() - 1) as usize } else { o.spec_destination() }
                    &&& c >= k ==> n.spec_source() == o.spec_source() && n.spec_destination() == o.spec_destination()
                },
            decreases self.connections@.len() - k,
        {
            let ghost before = self.connections@;
            let mut conn = self.connections.remove(k);
            let s = conn.source();
            let d = conn.destination();
            let ns = if s > h { s - 1 } else { s };
            let nd = if d > h { d - 1 } else { d };
            conn.renumber(ns, nd);
            self.connections.insert(k, conn);
            assert(self.connections@ =~= before.update(k as int, conn));
            proof {
                assert(g0.connections@[k as int].wf());
                assert(before[k as int]@ == g0.connections@[k as int]@);
                assert(before[k as int].wf());
                assert(conn@ == g0.connections@[k as int]@);
                assert(conn.wf());
                assert forall|c: int| 0 <= c < self.connections@.len() && c != k implies #[trigger] self.connections@[c]
                    == before[c] by {}
            }
            k = k + 1;
        }
        proof {
            assert(queues_of(self.connections@) =~= queues_of(g0.connections@));
            assert forall|a: int, b: int|
                0 <= a < self.contexts@.len() && 0 <= b < self.contexts@.len() && a != b
                    implies self.contexts@[a].processor_name@ != self.contexts@[b].processor_name@ by {
                let oa = if a < h { a } else { a + 1 };
                let ob = if b < h { b } else { b + 1 };
                assert(self.contexts@[a] == g0.contexts@[oa]);
                assert(self.contexts@[b] == g0.contexts@[ob]);
            }
            assert forall|c: int| 0 <= c < self.connections@.len() implies (#[trigger] self.connections@[c]).wf()
                && self.connections@[c].spec_source() < self.processors@.len()
                && self.connections@[c].spec_destination() < self.processors@.len() by {
                assert(g0.connections@[c].wf());
                assert(!g0.touches(c, h as int));
                assert(g0.connections@[c].spec_source() < g0.processors@.len());
                assert(g0.connections@[c].spec_destination() < g0.processors@.len());
            }
        }
        Ok(())
    }

    /// Creates a flowfile with the next identifier and puts it on connection
    /// `c`, returning its identifier.
    pub fn inject(&mut self, c: usize, content: Vec<u8>, attributes: PropertyMap, now: u64) -> (r: Result<u64, InjectError>)
        requires
            old(self).wf(),
        ensures
            final(self).wf(),
            final(self).same_shape(old(self)),
            final(self).states() == old(self).states(),
            c >= old(self).connections().len() ==> r == Err::<u64, InjectError>(InjectError::UnknownConnection),
            c < old(self).connections().len() && old(self).spec_next_flowfile_id() == u64::MAX ==> r == Err::<
                u64,
                InjectError,
            >(InjectError::IdentifiersExhausted),
            r.is_err() ==> final(self).queues() == old(self).queues(),
            c < old(self).connections().len() && old(self).spec_next_flowfile_id() < u64::MAX ==> {
                let f = FlowFileView {
                    id: old(self).spec_next_flowfile_id(),
                    content: content@,
                    attributes: attributes@,
                    created: now,
                    generation: 0,
                };
                &&& r.is_ok() == old(self).connections()[c as int].admits(f)
                &&& r.is_err() ==> r == Err::<u64, InjectError>(InjectError::Backpressure)
                &&& r.is_ok() ==> r.unwrap() == f.id && final(self).queues() == old(self).queues().update(
                    c as int,
                    old(self).queues()[c as int].push(f),
                ) && final(self).spec_next_flowfile_id() == f.id + 1
            },
    {
        if c >= self.connections.len() {
            return Err(InjectError::UnknownConnection);
        }
        if self.next_flowfile_id == u64::MAX {
            return Err(InjectError::IdentifiersExhausted);
        }
        let id = self.next_flowfile_id;
        let f = FlowFile::with_attributes(id, content, attributes, now);
        let ghost before = self.connections@;
        let mut conn = self.connections.remove(c);
        let res = conn.enqueue(f);
        self.connections.insert(c, conn);
        assert(self.connections@ =~= before.update(c as int, conn));
        assert(queues_of(self.connections@) =~= queues_of(before).update(c as int, conn@));
        proof {
            assert forall|d: int| 0 <= d < self.connections@.len() implies (#[trigger] self.connections@[d]).wf()
                && self.connections@[d].spec_source() < self.processors@.len()
                && self.connections@[d].spec_destination() < self.processors@.len() by {
                assert(before[d].wf());
            }
        }
        match res {
            Ok(()) => {
                self.next_flowfile_id = id + 1;
                proof {
                    let qs = queues_of(before);
                    let nq = queues_of(self.connections@);
                    lemma_flat_ids_split(qs, c as int);
                    lemma_flat_ids_split(nq, c as int);
                    assert(nq.take(c as int) =~= qs.take(c as int));
                    assert(nq.skip(c + 1) =~= qs.skip(c + 1));
                    assert(ids_of(nq[c as int]) =~= ids_of(qs[c as int]).push(id));
                    let a = flat_ids(qs.take(c as int)) + ids_of(qs[c as int]);
                    let b = flat_ids(qs.skip(c + 1));
                    assert(flat_ids(qs) =~= a + b);
                    assert(flat_ids(nq) =~= a.push(id) + b);
                    assert forall|i: int| 0 <= i < (a + b).len() implies #[trigger] (a + b)[i] != id by {
                        assert(flat_ids(qs)[i] < id);
                    }
                    lemma_insert_fresh(a, b, id);
                    assert forall|i: int| 0 <= i < flat_ids(nq).len() implies #[trigger] flat_ids(nq)[i] < self.next_flowfile_id by {
                        if i < a.len() {
                            assert(flat_ids(nq)[i] == flat_ids(qs)[i]);
                        } else if i > a.len() {
                            assert(flat_ids(nq)[i] == flat_ids(qs)[i - 1]);
                        }
                    }
                }
                Ok(id)
            },
            Err(_) => {
                assert(queues_of(self.connections@) =~= queues_of(before));
                Err(InjectError::Backpressure)
            },
        }
    }

    /// Connection `c`, for inspection.
    pub fn connection(&self, c: usize) -> (r: &Connection)
        requires
            c < self.connections().len(),
        ensures
            *r == self.connections()[c as int],
    {
        &self.connections[c]
    }

    /// The number of connections.
    pub fn connection_count(&self) -> (r: usize)
        ensures
            r == self.connections().len(),
    {
        self.connections.len()
    }

    /// The scheduling state of processor `h`.
    pub fn state(&self, h: usize) -> (r: ProcessorState)
        requires
            self.wf(),
            h < self.processors().len(),
        ensures
            r == self.states()[h as int],
    {
        self.states[h]
    }

    /// The handles of the connections that feed processor `h`, in increasing order.
    pub fn resolve_inputs(&self, h: usize) -> (r: Vec<usize>)
        ensures
            forall|k: int| 0 <= k < r@.len() ==> r@[k] < self.connections().len() && self.feeds(#[trigger] r@[k] as int, h as int),
            forall|k: int, l: int| 0 <= k < l < r@.len() ==> r@[k] < r@[l],
            forall|c: int| 0 <= c < self.connections().len() && #[trigger] self.feeds(c, h as int) ==> r@.contains(c as usize),
    {
        let mut r: Vec<usize> = Vec::new();
        let mut i: usize = 0;
        while i < self.connections.len()
            invariant
                i <= self.connections.len(),
                forall|k: int| 0 <= k < r@.len() ==> r@[k] < i && self.feeds(#[trigger] r@[k] as int, h as int),
                forall|k: int, l: int| 0 <= k < l < r@.len() ==> r@[k] < r@[l],
                forall|c: int| 0 <= c < i && #[trigger] self.feeds(c, h as int) ==> exists|k: int| 0 <= k < r@.len() && r@[k] == c,
            decreases self.connections.len() - i,
        {
            let ghost old_r = r@;
            if self.connections[i].destination() == h {
                r.push(i);
                assert(r@[r@.len() - 1] == i);
                assert(forall|k: int| 0 <= k < old_r.len() ==> r@[k] == old_r[k]);
            }
            i = i + 1;
        }
        r
    }

    /// The handles of the connections that carry output of processor `h`, in increasing order.
    pub fn resolve_outputs(&self, h: usize) -> (r: Vec<usize>)
        ensures
            forall|k: int| 0 <= k < r@.len() ==> r@[k] < self.connections().len() && self.drains(#[trigger] r@[k] as int, h as int),
            forall|k: int, l: int| 0 <= k < l < r@.len() ==> r@[k] < r@[l],
            forall|c: int| 0 <= c < self.connections().len() && #[trigger] self.drains(c, h as int) ==> r@.contains(c as usize),
    {
        let mut r: Vec<usize> = Vec::new();
        let mut i: usize = 0;
        while i < self.connections.len()
            invariant
                i <= self.connections.len(),
                forall|k: int| 0 <= k < r@.len() ==> r@[k] < i && self.drains(#[trigger] r@[k] as int, h as int),
                forall|k: int, l: int| 0 <= k < l < r@.len() ==> r@[k] < r@[l],
                forall|c: int| 0 <= c < i && #[trigger] self.drains(c, h as int) ==> exists|k: int| 0 <= k < r@.len() && r@[k] == c,
            decreases self.connections.len() - i,
        {
            let ghost old_r = r@;
            if self.connections[i].source() == h {
                r.push(i);
                assert(r@[r@.len() - 1] == i);
                assert(forall|k: int| 0 <= k < old_r.len() ==> r@[k] == old_r[k]);
            }
            i = i + 1;
        }
        r
    }
}

} // verus!
