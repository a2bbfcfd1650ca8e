//! A processing session: the transactional handle through which one processor
//! invocation pulls flowfiles from its inputs and pushes flowfiles to its
//! outputs. Pulls take effect at once and are logged; pushes are staged with
//! their capacity reserved. Commit delivers the staged flowfiles; rollback
//! returns every pulled flowfile to the head of its connection.

use vstd::prelude::*;
use crate::connection::{bytes_of, lemma_bytes_concat, lemma_bytes_drop_first, lemma_count_bound, Backpressure, Connection};
use crate::flowfile::{FlowFile, FlowFileView};
use crate::ownership::{flat_ids, ids_fresh_and_distinct, ids_of, owned_once};
use crate::properties::PropertyMap;

verus! {

/// The flowfiles of a log that belong to connection `c`, in log order.
pub open spec fn files_for(s: Seq<(usize, FlowFileView)>, c: int) -> Seq<FlowFileView>
    decreases s.len(),
{
    if s.len() == 0 {
        Seq::empty()
    } else if s.last().0 == c {
        files_for(s.drop_last(), c).push(s.last().1)
    } else {
        files_for(s.drop_last(), c)
    }
}

pub proof fn lemma_files_for_concat(a: Seq<(usize, FlowFileView)>, b: Seq<(usize, FlowFileView)>, c: int)
    ensures
        files_for(a + b, c) == files_for(a, c) + files_for(b, c),
    decreases b.len(),
{
    if b.len() == 0 {
        assert(a + b =~= a);
        assert(files_for(a, c) + files_for(b, c) =~= files_for(a, c));
    } else {
        lemma_files_for_concat(a, b.drop_last(), c);
        assert((a + b).drop_last() =~= a + b.drop_last());
        assert((a + b).last() == b.last());
        if b.last().0 == c {
            assert(files_for(a, c) + files_for(b.drop_last(), c).push(b.last().1) =~= (files_for(a, c)
                + files_for(b.drop_last(), c)).push(b.last().1));
        }
    }
}

proof fn lemma_files_for_push(s: Seq<(usize, FlowFileView)>, e: (usize, FlowFileView), c: int)
    ensures
        files_for(s.push(e), c) == if e.0 == c {
            files_for(s, c).push(e.1)
        } else {
            files_for(s, c)
        },
{
    assert(s.push(e).drop_last() =~= s);
}

proof fn lemma_files_for_drop_first(s: Seq<(usize, FlowFileView)>, c: int)
    requires
        s.len() > 0,
    ensures
        files_for(s, c) == if s[0].0 == c {
            seq![s[0].1] + files_for(s.drop_first(), c)
        } else {
            files_for(s.drop_first(), c)
        },
{
    assert(s =~= seq![s[0]] + s.drop_first());
    lemma_files_for_concat(seq![s[0]], s.drop_first(), c);
    lemma_files_for_push(Seq::empty(), s[0], c);
    assert(Seq::<(usize, FlowFileView)>::empty().push(s[0]) =~= seq![s[0]]);
    if s[0].0 != c {
        assert(files_for(s.drop_first(), c) =~= Seq::<FlowFileView>::empty() + files_for(s.drop_first(), c));
    } else {
        assert(Seq::<FlowFileView>::empty().push(s[0].1) =~= seq![s[0].1]);
    }
}

/// Two steps that each keep a session's wiring keep it together.
pub proof fn lemma_same_wiring_trans(a: &ProcessingSession, b: &ProcessingSession, c: &ProcessingSession)
    requires
        a.same_wiring(b),
        b.same_wiring(c),
    ensures
        a.same_wiring(c),
{
    assert forall|i: int| 0 <= i < a.connections().len() implies #[trigger] a.connections()[i].same_wiring(
        &c.connections()[i],
    ) by {
        assert(a.connections()[i].same_wiring(&b.connections()[i]));
        assert(b.connections()[i].same_wiring(&c.connections()[i]));
    }
}

pub struct ProcessingSession {
    processor: usize,
    conns: Vec<Connection>,
    pulled: Vec<(usize, FlowFile)>,
    staged: Vec<(usize, FlowFile)>,
    discarded: Vec<FlowFile>,
    next_id: u64,
    now: u64,
    initial: Ghost<Seq<Seq<FlowFileView>>>,
}

/// Connection `conn`, holding `q`, with `staged` awaiting commit, has room
/// for `f` on top as connection `c`.
pub open spec fn fits(conn: Connection, q: Seq<FlowFileView>, staged: Seq<(usize, FlowFileView)>, c: int, f: FlowFileView) -> bool {
    &&& q.len() + files_for(staged, c).len() + 1 <= conn.spec_max_count()
    &&& bytes_of(q) + bytes_of(files_for(staged, c)) + f.content.len() <= conn.spec_max_bytes()
}

pub open spec fn log_view(s: Seq<(usize, FlowFile)>) -> Seq<(usize, FlowFileView)> {
    s.map_values(|e: (usize, FlowFile)| (e.0, e.1@))
}

pub open spec fn queues_of(conns: Seq<Connection>) -> Seq<Seq<FlowFileView>> {
    conns.map_values(|c: Connection| c@)
}

impl ProcessingSession {
    /// The processor this session runs for.
    pub closed spec fn spec_processor(&self) -> usize {
        self.processor
    }

    /// The connections of the graph, lent to the session.
    pub closed spec fn connections(&self) -> Seq<Connection> {
        self.conns@
    }

    /// What each connection held when the session began.
    pub closed spec fn initial(&self) -> Seq<Seq<FlowFileView>> {
        self.initial@
    }

    /// The flowfiles pulled so far, with their connections, in pull order.
    pub closed spec fn pulled(&self) -> Seq<(usize, FlowFileView)> {
        log_view(self.pulled@)
    }

    /// The flowfiles staged for delivery, with their connections, in order.
    pub closed spec fn staged(&self) -> Seq<(usize, FlowFileView)> {
        log_view(self.staged@)
    }

    pub closed spec fn spec_next_id(&self) -> u64 {
        self.next_id
    }

    pub closed spec fn spec_now(&self) -> u64 {
        self.now
    }

    pub open spec fn queues(&self) -> Seq<Seq<FlowFileView>> {
        queues_of(self.connections())
    }

    /// Connection `c` feeds this session's processor on `rel`.
    pub open spec fn is_input_at(&self, c: int, rel: Seq<char>) -> bool {
        &&& self.connections()[c].spec_destination() == self.spec_processor()
        &&& self.connections()[c].spec_relationship() == rel
    }

    /// Connection `c` carries this session's processor's output on `rel`.
    pub open spec fn is_output_at(&self, c: int, rel: Seq<char>) -> bool {
        &&& self.connections()[c].spec_source() == self.spec_processor()
        &&& self.connections()[c].spec_relationship() == rel
    }

    /// What each connection would hold after a commit.
    pub open spec fn committed(&self) -> Seq<Seq<FlowFileView>> {
        Seq::new(self.connections().len(), |c: int| self.queues()[c] + files_for(self.staged(), c))
    }

    /// Connection `c` feeds this processor on `rel` and holds work.
    pub open spec fn holds_input(&self, c: int, rel: Seq<char>) -> bool {
        self.is_input_at(c, rel) && self.queues()[c].len() > 0
    }

    /// Connection `c` is the first that feeds this processor on `rel` and holds work.
    pub open spec fn first_input(&self, c: int, rel: Seq<char>) -> bool {
        &&& 0 <= c < self.connections().len()
        &&& self.holds_input(c, rel)
        &&& forall|d: int| 0 <= d < c ==> !#[trigger] self.holds_input(d, rel)
    }

    /// Connection `c` is the first that carries this processor's output on `rel`.
    pub open spec fn first_output(&self, c: int, rel: Seq<char>) -> bool {
        &&& 0 <= c < self.connections().len()
        &&& self.is_output_at(c, rel)
        &&& forall|d: int| 0 <= d < c ==> !#[trigger] self.is_output_at(d, rel)
    }

    /// Staging `f` on connection `c` keeps both of its capacities.
    pub open spec fn stage_fits(&self, c: int, f: FlowFileView) -> bool {
        fits(self.connections()[c], self.queues()[c], self.staged(), c, f)
    }

    /// The flowfiles handed to a relationship that no connection carries, in order.
    pub closed spec fn discarded(&self) -> Seq<FlowFileView> {
        self.discarded@.map_values(|f: FlowFile| f@)
    }

    pub closed spec fn wf(&self) -> bool {
        &&& self.initial@.len() == self.conns@.len()
        &&& forall|c: int| 0 <= c < self.conns@.len() ==> #[trigger] self.conns@[c].wf()
        &&& forall|i: int| 0 <= i < self.pulled@.len() ==> #[trigger] self.pulled@[i].0 < self.conns@.len()
        &&& forall|i: int| 0 <= i < self.staged@.len() ==> #[trigger] self.staged@[i].0 < self.conns@.len()
        &&& forall|c: int|
            0 <= c < self.conns@.len() ==> #[trigger] self.initial@[c] == files_for(self.pulled(), c)
                + self.conns@[c]@
        &&& forall|c: int|
            0 <= c < self.conns@.len() ==> #[trigger] self.initial@[c].len()
                <= self.conns@[c].spec_max_count() && bytes_of(self.initial@[c])
                <= self.conns@[c].spec_max_bytes()
        &&& forall|c: int|
            0 <= c < self.conns@.len() ==> #[trigger] self.conns@[c]@.len() + files_for(
                self.staged(),
                c,
            ).len() <= self.conns@[c].spec_max_count() && bytes_of(self.conns@[c]@) + bytes_of(
                files_for(self.staged(), c),
            ) <= self.conns@[c].spec_max_bytes()
    }

    pub open spec fn same_wiring(&self, other: &ProcessingSession) -> bool {
        &&& self.spec_processor() == other.spec_processor()
        &&& self.spec_now() == other.spec_now()
        &&& self.initial() == other.initial()
        &&& self.connections().len() == other.connections().len()
        &&& forall|c: int|
            0 <= c < self.connections().len() ==> #[trigger] self.connections()[c].same_wiring(
                &other.connections()[c],
            )
    }

    /// Opens a session for `processor` over the graph's connections. Fresh
    /// flowfiles get identifiers from `next_id` upward and creation time `now`.
    pub fn begin(conns: Vec<Connection>, processor: usize, next_id: u64, now: u64) -> (r:
        ProcessingSession)
        requires
            forall|c: int| 0 <= c < conns@.len() ==> #[trigger] conns@[c].wf(),
        ensures
            r.wf(),
            r.connections() == conns@,
            r.initial() == queues_of(conns@),
            r.pulled() == Seq::<(usize, FlowFileView)>::empty(),
            r.staged() == Seq::<(usize, FlowFileView)>::empty(),
            r.discarded() == Seq::<FlowFileView>::empty(),
            r.spec_processor() == processor,
            r.spec_next_id() == next_id,
            r.spec_now() == now,
    {
        let ghost init = queues_of(conns@);
        let r = ProcessingSession {
            processor,
            conns,
            pulled: Vec::new(),
            staged: Vec::new(),
            discarded: Vec::new(),
            next_id,
            now,
            initial: Ghost(init),
        };
        assert(r.pulled() =~= Seq::<(usize, FlowFileView)>::empty());
        assert(r.staged() =~= Seq::<(usize, FlowFileView)>::empty());
        assert(r.discarded() =~= Seq::<FlowFileView>::empty());
        assert forall|c: int| 0 <= c < r.conns@.len() implies #[trigger] r.initial@[c] == files_for(
            r.pulled(),
            c,
        ) + r.conns@[c]@ by {
            assert(files_for(r.pulled(), c) + r.conns@[c]@ =~= r.conns@[c]@);
        }
        assert forall|c: int| 0 <= c < r.conns@.len() implies #[trigger] r.initial@[c].len()
            <= r.conns@[c].spec_max_count() && bytes_of(r.initial@[c]) <= r.conns@[c].spec_max_bytes() by {
            lemma_count_bound(&r.conns@[c]);
        }
        assert forall|c: int| 0 <= c < r.conns@.len() implies #[trigger] r.conns@[c]@.len()
            + files_for(r.staged(), c).len() <= r.conns@[c].spec_max_count() && bytes_of(
            r.conns@[c]@,
        ) + bytes_of(files_for(r.staged(), c)) <= r.conns@[c].spec_max_bytes() by {
            assert(bytes_of(files_for(r.staged(), c)) == 0);
            lemma_count_bound(&r.conns@[c]);
        }
        r
    }

    /// The first connection feeding this processor on `rel` that holds work.
    fn find_input(&self, relationship: &str) -> (r: Option<usize>)
        ensures
            match r {
                Some(c) => {
                    &&& c < self.connections().len()
                    &&& self.is_input_at(c as int, relationship@)
                    &&& self.queues()[c as int].len() > 0
                    &&& forall|d: int|
                        0 <= d < c ==> !(#[trigger] self.is_input_at(d, relationship@) && self.queues()[d].len() > 0)
                },
                None => forall|d: int|
                    0 <= d < self.connections().len() ==> !(#[trigger] self.is_input_at(d, relationship@)
                        && self.queues()[d].len() > 0),
            },
    {
        let rel: String = relationship.to_owned();
        let mut i: usize = 0;
        while i < self.conns.len()
            invariant
                rel@ == relationship@,
                i <= self.conns.len(),
                forall|d: int| 0 <= d < i ==> !(#[trigger] self.is_input_at(d, relationship@) && self.queues()[d].len() > 0),
            decreases self.conns.len() - i,
        {
            if self.conns[i].destination() == self.processor && *self.conns[i].relationship() == rel
                && !self.conns[i].is_empty() {
                return Some(i);
            }
            i = i + 1;
        }
        None
    }

    /// Pulls the head of the first non-empty connection that feeds this
    /// processor on `relationship`, logging it so that a rollback can return
    /// it. `None` when no such connection holds work.
    pub fn get(&mut self, relationship: &str) -> (r: Option<FlowFile>)
        requires
            old(self).wf(),
        ensures
            final(self).wf(),
            final(self).same_wiring(old(self)),
            final(self).staged() == old(self).staged(),
            final(self).discarded() == old(self).discarded(),
            final(self).spec_next_id() == old(self).spec_next_id(),
            r.is_some() == exists|c: int|
                0 <= c < old(self).connections().len() && #[trigger] old(self).is_input_at(c, relationship@)
                    && old(self).queues()[c].len() > 0,
            r.is_none() ==> final(self).queues() == old(self).queues() && final(self).pulled() == old(self).pulled(),
            r.is_some() ==> exists|c: int|
                {
                    &&& 0 <= c < old(self).connections().len()
                    &&& #[trigger] old(self).is_input_at(c, relationship@)
                    &&& old(self).queues()[c].len() > 0
                    &&& forall|d: int|
                        0 <= d < c ==> !(#[trigger] old(self).is_input_at(d, relationship@) && old(self).queues()[d].len() > 0)
                    &&& r.unwrap()@ == old(self).queues()[c][0]
                    &&& final(self).queues() == old(self).queues().update(c, old(self).queues()[c].drop_first())
                    &&& final(self).pulled() == old(self).pulled().push((c as usize, r.unwrap()@))
                },
    {
        match self.find_input(relationship) {
            None => None,
            Some(c) => {
                let ghost old_conns = self.conns@;
                let ghost old_pulled = self.pulled();
                let mut conn = self.conns.remove(c);
                let f = conn.dequeue().unwrap();
                self.conns.insert(c, conn);
                assert(self.conns@ =~= old_conns.update(c as int, conn));
                self.pulled.push((c, f.duplicate()));
                assert(self.pulled() =~= old_pulled.push((c, f@)));
                proof {
                    lemma_bytes_drop_first(old_conns[c as int]@);
                    assert forall|d: int| 0 <= d < self.conns@.len() implies #[trigger] self.initial@[d]
                        == files_for(self.pulled(), d) + self.conns@[d]@ by {
                        lemma_files_for_push(old_pulled, (c, f@), d);
                        if d == c {
                            assert(old_conns[d]@ =~= seq![f@] + self.conns@[d]@);
                            assert(files_for(old_pulled, d) + old_conns[d]@ =~= files_for(old_pulled, d).push(f@)
                                + self.conns@[d]@);
                        }
                    }
                    assert forall|i: int| 0 <= i < self.pulled@.len() implies #[trigger] self.pulled@[i].0
                        < self.conns@.len() by {
                        if i < self.pulled@.len() - 1 {
                            assert(self.pulled@[i] == old(self).pulled@[i]);
                        }
                    }
                    assert(queues_of(self.conns@) =~= queues_of(old_conns).update(
                        c as int,
                        queues_of(old_conns)[c as int].drop_first(),
                    ));
                }
                Some(f)
            },
        }
    }

    /// The first connection carrying this processor's output on `rel`.
    fn find_output(&self, relationship: &str) -> (r: Option<usize>)
        ensures
            match r {
                Some(c) => {
                    &&& c < self.connections().len()
                    &&& self.is_output_at(c as int, relationship@)
                    &&& forall|d: int| 0 <= d < c ==> !#[trigger] self.is_output_at(d, relationship@)
                },
                None => forall|d: int|
                    0 <= d < self.connections().len() ==> !#[trigger] self.is_output_at(d, relationship@),
            },
    {
        let rel: String = relationship.to_owned();
        let mut i: usize = 0;
        while i < self.conns.len()
            invariant
                rel@ == relationship@,
                i <= self.conns.len(),
                forall|d: int| 0 <= d < i ==> !#[trigger] self.is_output_at(d, relationship@),
            decreases self.conns.len() - i,
        {
            if self.conns[i].source() == self.processor && *self.conns[i].relationship() == rel {
                return Some(i);
            }
            i = i + 1;
        }
        None
    }

    /// How many flowfiles, and how many content bytes, are staged for connection `c`.
    fn staged_load(&self, c: usize) -> (r: (usize, usize))
        requires
            self.wf(),
            c < self.connections().len(),
        ensures
            r.0 == files_for(self.staged(), c as int).len(),
            r.1 == bytes_of(files_for(self.staged(), c as int)),
    {
        let ghost st = self.staged();
        proof {
            lemma_count_bound(&self.conns@[c as int]);
            assert(self.conns@[c as int]@.len() + files_for(self.staged(), c as int).len()
                <= self.conns@[c as int].spec_max_count() && bytes_of(self.conns@[c as int]@) + bytes_of(
                files_for(self.staged(), c as int),
            ) <= self.conns@[c as int].spec_max_bytes());
        }
        let mut count: usize = 0;
        let mut bytes: usize = 0;
        let mut i: usize = 0;
        while i < self.staged.len()
            invariant
                self.wf(),
                c < self.connections().len(),
                st == self.staged(),
                i <= self.staged.len(),
                count == files_for(st.take(i as int), c as int).len(),
                bytes == bytes_of(files_for(st.take(i as int), c as int)),
                files_for(st, c as int).len() <= usize::MAX,
                bytes_of(files_for(st, c as int)) <= usize::MAX,
            decreases self.staged.len() - i,
        {
            let ghost pre = st.take(i as int);
            assert(st.take(i + 1) =~= pre.push(st[i as int]));
            proof {
                lemma_files_for_push(pre, st[i as int], c as int);
                assert(st =~= st.take(i + 1) + st.skip(i + 1));
                lemma_files_for_concat(st.take(i + 1), st.skip(i + 1), c as int);
                lemma_bytes_concat(
                    files_for(st.take(i + 1), c as int),
                    files_for(st.skip(i + 1), c as int),
                );
                let fp = files_for(pre, c as int);
                assert(fp.push(st[i as int].1).drop_last() =~= fp);
                assert(self.conns@[c as int].wf());
            }
            if self.staged[i].0 == c {
                count = count + 1;
                bytes = bytes + self.staged[i].1.size();
            }
            i = i + 1;
        }
        assert(st.take(self.staged@.len() as int) =~= st);
        (count, bytes)
    }

    /// Stages `f` for delivery on the first connection that carries this
    /// processor's output on `relationship`, reserving its room there. Where
    /// that connection has no room, `f` comes back in `Backpressure`. Where no
    /// connection carries `relationship`, `f` leaves the flow here and is
    /// recorded among the discarded flowfiles.
    pub fn transfer(&mut self, f: FlowFile, relationship: &str) -> (r: Result<(), Backpressure>)
        requires
            old(self).wf(),
        ensures
            final(self).wf(),
            final(self).same_wiring(old(self)),
            final(self).queues() == old(self).queues(),
            final(self).pulled() == old(self).pulled(),
            final(self).spec_next_id() == old(self).spec_next_id(),
            (forall|c: int| 0 <= c < old(self).connections().len() ==> !#[trigger] old(self).is_output_at(c, relationship@))
                ==> r.is_ok() && final(self).staged() == old(self).staged() && final(self).discarded()
                == old(self).discarded().push(f@),
            (exists|c: int| 0 <= c < old(self).connections().len() && #[trigger] old(self).is_output_at(c, relationship@))
                ==> final(self).discarded() == old(self).discarded(),
            forall|c: int|
                0 <= c < old(self).connections().len() && #[trigger] old(self).is_output_at(c, relationship@)
                    && (forall|d: int| 0 <= d < c ==> !#[trigger] old(self).is_output_at(d, relationship@))
                    ==> {
                    &&& r.is_ok() == old(self).stage_fits(c, f@)
                    &&& r.is_ok() ==> final(self).staged() == old(self).staged().push((c as usize, f@))
                    &&& r.is_err() ==> final(self).staged() == old(self).staged() && r->Err_0.flowfile@ == f@
                },
    {
        match self.find_output(relationship) {
            None => {
                let ghost d0 = self.discarded();
                self.discarded.push(f);
                assert(self.discarded() =~= d0.push(self.discarded@.last()@));
                Ok(())
            },
            Some(c) => {
                let (count, bytes) = self.staged_load(c);
                let q = self.conns[c].len();
                let qb = self.conns[c].queued_bytes();
                let max_count = self.conns[c].max_count();
                let max_bytes = self.conns[c].max_bytes();
                if count < max_count - q && f.size() <= max_bytes - qb - bytes {
                    let ghost old_staged = self.staged();
                    self.staged.push((c, f));
                    assert(self.staged() =~= old_staged.push((c, self.staged@.last().1@)));
                    proof {
                        assert forall|d: int| 0 <= d < self.conns@.len() implies #[trigger] self.conns@[d]@.len()
                            + files_for(self.staged(), d).len() <= self.conns@[d].spec_max_count() && bytes_of(
                            self.conns@[d]@,
                        ) + bytes_of(files_for(self.staged(), d)) <= self.conns@[d].spec_max_bytes() by {
                            lemma_files_for_push(old_staged, (c, self.staged@.last().1@), d);
                            let fs = files_for(old_staged, d);
                            assert(fs.push(self.staged@.last().1@).drop_last() =~= fs);
                        }
                        assert forall|i: int| 0 <= i < self.staged@.len() implies #[trigger] self.staged@[i].0
                            < self.conns@.len() by {
                            if i < self.staged@.len() - 1 {
                                assert(self.staged@[i] == old(self).staged@[i]);
                            }
                        }
                    }
                    Ok(())
                } else {
                    Err(Backpressure { flowfile: f })
                }
            },
        }
    }

    /// A fresh flowfile with the given content and attributes, the next
    /// identifier and the session's time. `None` once identifiers run out.
    pub fn create(&mut self, content: Vec<u8>, attributes: PropertyMap) -> (r: Option<FlowFile>)
        requires
            old(self).wf(),
        ensures
            final(self).wf(),
            final(self).same_wiring(old(self)),
            final(self).queues() == old(self).queues(),
            final(self).pulled() == old(self).pulled(),
            final(self).staged() == old(self).staged(),
            final(self).discarded() == old(self).discarded(),
            r.is_none() == (old(self).spec_next_id() == u64::MAX),
            r.is_none() ==> final(self).spec_next_id() == old(self).spec_next_id(),
            r.is_some() ==> final(self).spec_next_id() == old(self).spec_next_id() + 1 && r.unwrap()@ == (
            FlowFileView {
                id: old(self).spec_next_id(),
                content: content@,
                attributes: attributes@,
                created: old(self).spec_now(),
                generation: 0,
            }),
    {
        if self.next_id == u64::MAX {
            None
        } else {
            let id = self.next_id;
            self.next_id = self.next_id + 1;
            Some(FlowFile::with_attributes(id, content, attributes, self.now))
        }
    }

    /// Ends the session successfully: every staged flowfile is appended, in
    /// staging order, to its connection, and the pulled flowfiles are consumed.
    /// The reservations made by `transfer` guarantee room for all of them.
    pub fn commit(self) -> (r: Vec<Connection>)
        requires
            self.wf(),
        ensures
            r@.len() == self.connections().len(),
            forall|c: int|
                0 <= c < r@.len() ==> {
                    &&& (#[trigger] r@[c]).wf()
                    &&& r@[c].same_wiring(&self.connections()[c])
                    &&& r@[c]@ == self.queues()[c] + files_for(self.staged(), c)
                },
    {
        let ghost orig = self.conns@;
        let ghost q0 = self.queues();
        let ghost st0 = self.staged();
        let ghost goal = Seq::new(orig.len(), |c: int| orig[c]@ + files_for(self.staged(), c));
        let mut conns = self.conns;
        let mut staged = self.staged;
        let ghost n = orig.len();
        proof {
            assert forall|c: int| 0 <= c < n implies #[trigger] conns@[c].same_wiring(&orig[c]) by {}
        }
        while staged.len() > 0
            invariant
                conns@.len() == n,
                goal.len() == n,
                forall|c: int| 0 <= c < n ==> (#[trigger] conns@[c]).wf() && conns@[c].same_wiring(&orig[c]),
                forall|i: int| 0 <= i < staged@.len() ==> #[trigger] staged@[i].0 < n,
                forall|c: int| 0 <= c < n ==> #[trigger] goal[c] == conns@[c]@ + files_for(log_view(staged@), c),
                forall|c: int|
                    0 <= c < n ==> #[trigger] conns@[c]@.len() + files_for(log_view(staged@), c).len()
                        <= conns@[c].spec_max_count() && bytes_of(conns@[c]@) + bytes_of(
                        files_for(log_view(staged@), c),
                    ) <= conns@[c].spec_max_bytes(),
            decreases staged@.len(),
        {
            let ghost sv = log_view(staged@);
            let ghost sraw = staged@;
            let (c, f) = staged.remove(0);
            assert(log_view(staged@) =~= sv.drop_first());
            let ghost fv = f@;
            proof {
                lemma_files_for_drop_first(sv, c as int);
                lemma_bytes_drop_first(seq![fv] + files_for(sv.drop_first(), c as int));
                assert((seq![fv] + files_for(sv.drop_first(), c as int)).drop_first() =~= files_for(sv.drop_first(), c as int));
                lemma_count_bound(&conns@[c as int]);
            }
            let ghost before = conns@;
            let mut conn = conns.remove(c);
            let res = conn.enqueue(f);
            assert(res.is_ok());
            conns.insert(c, conn);
            assert(conns@ =~= before.update(c as int, conn));
            proof {
                assert forall|d: int| 0 <= d < n implies #[trigger] goal[d] == conns@[d]@ + files_for(log_view(staged@), d)
                    by {
                    lemma_files_for_drop_first(sv, d);
                    if d == c {
                        assert(before[d]@ + (seq![fv] + files_for(sv.drop_first(), d)) =~= before[d]@.push(fv)
                            + files_for(sv.drop_first(), d));
                    }
                }
                assert forall|d: int| 0 <= d < n implies #[trigger] conns@[d]@.len() + files_for(log_view(staged@), d).len()
                    <= conns@[d].spec_max_count() && bytes_of(conns@[d]@) + bytes_of(files_for(log_view(staged@), d))
                    <= conns@[d].spec_max_bytes() by {
                    lemma_files_for_drop_first(sv, d);
                    if d == c {
                        assert(before[d]@.push(fv).drop_last() =~= before[d]@);
                    }
                }
                assert forall|i: int| 0 <= i < staged@.len() implies #[trigger] staged@[i].0 < n by {
                    assert(staged@[i] == sraw[i + 1]);
                }
            }
        }
        proof {
            assert forall|c: int| 0 <= c < n implies #[trigger] conns@[c]@ == q0[c] + files_for(st0, c) by {
                assert(log_view(staged@) =~= Seq::<(usize, FlowFileView)>::empty());
                assert(conns@[c]@ + files_for(log_view(staged@), c) =~= conns@[c]@);
                assert(goal[c] == conns@[c]@ + files_for(log_view(staged@), c));
            }
        }
        conns
    }

    /// Ends the session in failure: staged flowfiles are discarded and every
    /// pulled flowfile goes back to the head of its connection, so that each
    /// connection holds exactly what it held when the session began.
    pub fn rollback(self) -> (r: Vec<Connection>)
        requires
            self.wf(),
        ensures
            r@.len() == self.connections().len(),
            self.initial().len() == r@.len(),
            forall|c: int|
                0 <= c < r@.len() ==> {
                    &&& (#[trigger] r@[c]).wf()
                    &&& r@[c].same_wiring(&self.connections()[c])
                    &&& r@[c]@ == self.initial()[c]
                },
    {
        let ghost orig = self.conns@;
        let ghost init = self.initial@;
        let mut conns = self.conns;
        let mut pulled = self.pulled;
        let ghost n = orig.len();
        proof {
            assert forall|c: int| 0 <= c < n implies #[trigger] conns@[c].same_wiring(&orig[c]) by {}
        }
        while pulled.len() > 0
            invariant
                conns@.len() == n,
                init.len() == n,
                forall|c: int| 0 <= c < n ==> (#[trigger] conns@[c]).wf() && conns@[c].same_wiring(&orig[c]),
                forall|i: int| 0 <= i < pulled@.len() ==> #[trigger] pulled@[i].0 < n,
                forall|c: int| 0 <= c < n ==> #[trigger] init[c] == files_for(log_view(pulled@), c) + conns@[c]@,
                forall|c: int|
                    0 <= c < n ==> #[trigger] init[c].len() <= conns@[c].spec_max_count() && bytes_of(init[c])
                        <= conns@[c].spec_max_bytes(),
            decreases pulled@.len(),
        {
            let ghost pv = log_view(pulled@);
            let ghost praw = pulled@;
            let (c, f) = pulled.pop().unwrap();
            assert(log_view(pulled@) =~= pv.drop_last());
            let ghost fv = f@;
            let ghost before = conns@;
            proof {
                let rest = files_for(pv.drop_last(), c as int);
                assert(pv.drop_last().push((c, fv)) =~= pv);
                lemma_files_for_push(pv.drop_last(), (c, fv), c as int);
                assert(init[c as int] =~= rest + (seq![fv] + before[c as int]@));
                lemma_bytes_concat(rest, seq![fv] + before[c as int]@);
                lemma_bytes_drop_first(seq![fv] + before[c as int]@);
                assert((seq![fv] + before[c as int]@).drop_first() =~= before[c as int]@);
            }
            let mut conn = conns.remove(c);
            conn.requeue_front(f);
            conns.insert(c, conn);
            assert(conns@ =~= before.update(c as int, conn));
            proof {
                assert forall|d: int| 0 <= d < n implies #[trigger] init[d] == files_for(log_view(pulled@), d) + conns@[d]@
                    by {
                    lemma_files_for_push(pv.drop_last(), (c, fv), d);
                    assert(pv.drop_last().push((c, fv)) =~= pv);
                    if d == c {
                        assert(files_for(pv.drop_last(), d).push(fv) + before[d]@ =~= files_for(pv.drop_last(), d)
                            + (seq![fv] + before[d]@));
                    }
                }
                assert forall|i: int| 0 <= i < pulled@.len() implies #[trigger] pulled@[i].0 < n by {
                    assert(pulled@[i] == praw[i]);
                }
            }
        }
        proof {
            assert forall|c: int| 0 <= c < n implies init[c] == conns@[c]@ by {
                assert(log_view(pulled@) =~= Seq::<(usize, FlowFileView)>::empty());
                assert(files_for(log_view(pulled@), c) + conns@[c]@ =~= conns@[c]@);
            }
        }
        conns
    }

    /// Through any run of session steps, what each connection holds plus what
    /// is staged for it never exceeds its capacities.
    pub proof fn lemma_reserved_within_capacity(&self)
        requires
            self.wf(),
        ensures
            forall|c: int|
                0 <= c < self.connections().len() ==> #[trigger] self.queues()[c].len() + files_for(self.staged(), c).len()
                    <= self.connections()[c].spec_max_count() && bytes_of(self.queues()[c]) + bytes_of(
                    files_for(self.staged(), c),
                ) <= self.connections()[c].spec_max_bytes(),
    {
        assert forall|c: int| 0 <= c < self.connections().len() implies #[trigger] self.queues()[c].len() + files_for(
            self.staged(),
            c,
        ).len() <= self.connections()[c].spec_max_count() && bytes_of(self.queues()[c]) + bytes_of(
            files_for(self.staged(), c),
        ) <= self.connections()[c].spec_max_bytes() by {
            assert(self.queues()[c] == self.conns@[c]@);
        }
    }

    /// Once a connection's queue and staged flowfiles fill its count capacity,
    /// a further transfer to it is refused: after C transfers to an empty
    /// connection of capacity C, the next one meets backpressure.
    pub proof fn lemma_full_reservation_refuses(&self, c: int, f: FlowFileView)
        requires
            self.wf(),
            0 <= c < self.connections().len(),
            self.queues()[c].len() + files_for(self.staged(), c).len() == self.connections()[c].spec_max_count(),
        ensures
            !self.stage_fits(c, f),
    {
    }

    /// The identifiers that the connections would hold after a commit, queue after queue.
    fn committed_ids(&self) -> (r: Vec<u64>)
        requires
            self.wf(),
        ensures
            r@ == flat_ids(self.committed()),
    {
        let ghost big_r = self.committed();
        let ghost st = self.staged();
        let mut flat: Vec<u64> = Vec::new();
        let mut c: usize = 0;
        assert(big_r.take(0) =~= Seq::<Seq<FlowFileView>>::empty());
        while c < self.conns.len()
            invariant
                self.wf(),
                big_r == self.committed(),
                st == self.staged(),
                c <= self.conns.len(),
                flat@ == flat_ids(big_r.take(c as int)),
            decreases self.conns.len() - c,
        {
            let ghost base = flat@;
            let ghost q = self.queues()[c as int];
            let mut i: usize = 0;
            while i < self.conns[c].len()
                invariant
                    self.wf(),
                    c < self.conns.len(),
                    q == self.queues()[c as int],
                    i <= q.len(),
                    flat@ == base + ids_of(q).take(i as int),
                decreases q.len() - i,
            {
                flat.push(self.conns[c].id_at(i));
                assert(ids_of(q).take(i + 1) =~= ids_of(q).take(i as int).push(q[i as int].id));
                assert(base + ids_of(q).take(i as int).push(q[i as int].id) =~= (base + ids_of(q).take(i as int)).push(q[i as int].id));
                i = i + 1;
            }
            assert(ids_of(q).take(q.len() as int) =~= ids_of(q));
            let ghost mid = flat@;
            let mut k: usize = 0;
            assert(st.take(0) =~= Seq::<(usize, FlowFileView)>::empty());
            assert(ids_of(files_for(st.take(0), c as int)) =~= Seq::<u64>::empty());
            assert(mid + Seq::<u64>::empty() =~= mid);
            while k < self.staged.len()
                invariant
                    st == self.staged(),
                    k <= self.staged@.len(),
                    flat@ == mid + ids_of(files_for(st.take(k as int), c as int)),
                decreases self.staged@.len() - k,
            {
                assert(st.take(k + 1) =~= st.take(k as int).push(st[k as int]));
                proof {
                    lemma_files_for_push(st.take(k as int), st[k as int], c as int);
                }
                if self.staged[k].0 == c {
                    flat.push(self.staged[k].1.id());
                    let ghost fs = files_for(st.take(k as int), c as int);
                    assert(ids_of(fs.push(st[k as int].1)) =~= ids_of(fs).push(st[k as int].1.id));
                    assert(mid + ids_of(fs).push(st[k as int].1.id) =~= (mid + ids_of(fs)).push(st[k as int].1.id));
                }
                k = k + 1;
            }
            assert(st.take(self.staged@.len() as int) =~= st);
            proof {
                assert(big_r[c as int] == q + files_for(st, c as int));
                assert(ids_of(q + files_for(st, c as int)) =~= ids_of(q) + ids_of(files_for(st, c as int)));
                assert(big_r.take(c + 1).drop_last() =~= big_r.take(c as int));
                assert(flat_ids(big_r.take(c + 1)) == flat_ids(big_r.take(c as int)) + ids_of(big_r[c as int]));
                assert(flat@ =~= flat_ids(big_r.take(c + 1)));
            }
            c = c + 1;
        }
        assert(big_r.take(self.conns@.len() as int) =~= big_r);
        flat
    }

    /// Whether a commit now would leave every queued identifier once only and
    /// below the next fresh identifier.
    pub fn commit_keeps_ownership(&self) -> (r: bool)
        requires
            self.wf(),
        ensures
            r == owned_once(self.committed(), self.spec_next_id()),
    {
        let ids = self.committed_ids();
        ids_fresh_and_distinct(&ids, self.next_id)
    }

    /// How many flowfiles were handed to a relationship that no connection carries.
    pub fn discarded_count(&self) -> (r: usize)
        ensures
            r == self.discarded().len(),
    {
        self.discarded.len()
    }

    pub fn processor(&self) -> (r: usize)
        ensures
            r == self.spec_processor(),
    {
        self.processor
    }

    pub fn next_id(&self) -> (r: u64)
        ensures
            r == self.spec_next_id(),
    {
        self.next_id
    }
}

} // verus!
