//! The streaming engine: an append-only input buffer, a scanned-prefix
//! cursor, the boundary state machine, and event dispatch to the sink.

use vstd::arithmetic::div_mod::{
    lemma_div_is_ordered, lemma_fundamental_div_mod, lemma_mod_multiples_basic,
};
use vstd::arithmetic::mul::lemma_mul_inequality;
use vstd::prelude::*;
use crate::classify::{classified_model, classify_span, Classified};
use crate::model::{
    aligned_len, ev_step, events_of, events_upto, lemma_run_agree, lemma_run_snoc,
    lemma_run_split, lemma_st_ok_run, lemma_st_ok_step, run_events, run_state, st_init, st_ok,
    st_step, state_upto, Event, MachineState,
};
use crate::tags::{ClosingTag, CommentTag, DoctypeTag, OpeningTag, Text};

verus! {

/// The failure type a sink reports.  The engine never builds or inspects such
/// a value, it only carries one through; `anyhow::Error` is therefore taken
/// as an opaque outside type.
#[verifier::external_type_specification]
#[verifier::external_body]
pub struct ExAnyhowError(anyhow::Error);

/// An event consumer.  Each operation defaults to doing nothing, so a sink
/// implements only the events it cares about; an operation that fails aborts
/// the `feed` or `stop` call that invoked it.
pub trait BaseSink: Sized {
    /// Called for a doctype declaration.  The engine currently recognizes
    /// doctypes without reporting them, so it never calls this.
    fn on_doctype_tag(&mut self, node: DoctypeTag) -> Result<(), anyhow::Error> {
        Ok(())
    }

    /// Called for each comment.
    fn on_comment_tag(&mut self, node: CommentTag) -> Result<(), anyhow::Error> {
        Ok(())
    }

    /// Called for each opening tag.
    fn on_opening_tag(&mut self, node: OpeningTag) -> Result<(), anyhow::Error> {
        Ok(())
    }

    /// Called for each closing tag, a synthetic one after a self-closing
    /// opening tag among them.
    fn on_closing_tag(&mut self, node: ClosingTag) -> Result<(), anyhow::Error> {
        Ok(())
    }

    /// Called for a run of plain text.  The engine does not track text spans,
    /// so it never calls this.
    fn on_text(&mut self, node: Text) -> Result<(), anyhow::Error> {
        Ok(())
    }
}

/// A streaming tokenizer session: owns the input fed so far and the sink, and
/// scans newly available whole 64-byte blocks on every `feed`.
pub struct BaseParser<S: BaseSink> {
    buffer: Vec<u8>,
    cursor: usize,
    opened: Option<usize>,
    double: bool,
    single: bool,
    sink: S,
    events: Ghost<Seq<Event>>,
}

impl<S: BaseSink> BaseParser<S> {
    /// Every byte fed so far.
    pub closed spec fn input(self) -> Seq<u8> {
        self.buffer@
    }

    /// How many bytes the block scan has processed; the tail past this offset
    /// is scanned at finalization.
    pub closed spec fn scanned(self) -> int {
        self.cursor as int
    }

    /// The events dispatched to the sink so far, in order.
    pub closed spec fn emitted(self) -> Seq<Event> {
        self.events@
    }

    /// The sink.
    pub closed spec fn consumer(self) -> S {
        self.sink
    }

    /// The tag-open/quote state as a model value.
    spec fn machine(self) -> MachineState {
        MachineState {
            opened: match self.opened {
                Some(p) => Some(p as int),
                None => None,
            },
            double: self.double,
            single: self.single,
        }
    }

    /// Well-formed: the scanned prefix is block-aligned and lies within the
    /// buffer, and the state and the dispatched events are exactly what the
    /// model gives for that prefix.
    pub closed spec fn wf(self) -> bool {
        &&& self.cursor <= self.buffer@.len()
        &&& self.cursor % 64 == 0
        &&& self.machine() == state_upto(self.buffer@, self.cursor as int)
        &&& self.events@ == events_upto(self.buffer@, self.cursor as int)
    }

    /// Creates an engine around `sink` with an initial buffer capacity hint.
    pub fn with_capacity(sink: S, capacity: usize) -> (r: Self)
        ensures
            r.wf(),
            r.input() == Seq::<u8>::empty(),
            r.scanned() == 0,
            r.emitted() == Seq::<Event>::empty(),
            r.consumer() == sink,
    {
        let r = BaseParser {
            buffer: Vec::with_capacity(capacity),
            cursor: 0,
            opened: None,
            double: false,
            single: false,
            sink,
            events: Ghost(Seq::empty()),
        };
        assert(r.machine() == state_upto(r.buffer@, 0));
        assert(r.events@ =~= events_upto(r.buffer@, 0));
        r
    }

    /// Creates an engine around `sink` with the default buffer capacity.
    pub fn new(sink: S) -> (r: Self)
        ensures
            r.wf(),
            r.input() == Seq::<u8>::empty(),
            r.scanned() == 0,
            r.emitted() == Seq::<Event>::empty(),
            r.consumer() == sink,
    {
        Self::with_capacity(sink, 0)
    }

    /// Processes the byte at `pos`: steps the boundary state machine and,
    /// when an unquoted `>` closes the open tag, classifies the span and
    /// dispatches its events to the sink.  An error is the sink's: it occurs
    /// only where the position produced an event.
    fn on_match(&mut self, pos: usize) -> (r: Result<(), anyhow::Error>)
        requires
            pos < old(self).buffer@.len(),
            st_ok(old(self).machine(), pos as int),
        ensures
            final(self).buffer@ == old(self).buffer@,
            final(self).cursor == old(self).cursor,
            r is Ok ==> final(self).machine() == st_step(
                old(self).buffer@,
                old(self).machine(),
                pos as int,
            ),
            r is Ok ==> final(self).events@ == old(self).events@ + ev_step(
                old(self).buffer@,
                old(self).machine(),
                pos as int,
            ),
            r is Ok && final(self).events@ == old(self).events@ ==> final(self).sink == old(
                self,
            ).sink,
            r is Ok ==> old(self).events@.len() <= final(self).events@.len(),
            r is Err ==> ev_step(old(self).buffer@, old(self).machine(), pos as int).len() > 0,
    {
        let b: u8 = self.buffer[pos];
        match self.opened {
            Some(o) => {
                if b == 62 {  // '>'
                    if !self.double && !self.single {
                        let c = classify_span(&self.buffer, o, pos);
                        self.opened = None;
                        self.events = Ghost(self.events@ + classified_model(c));
                        match c {
                            Classified::Nothing => {},
                            Classified::Comment(t) => {
                                self.sink.on_comment_tag(t)?;
                            },
                            Classified::Closing(t) => {
                                self.sink.on_closing_tag(t)?;
                            },
                            Classified::Opening(t, oc) => {
                                self.sink.on_opening_tag(t)?;
                                if let Some(ct) = oc {
                                    self.sink.on_closing_tag(ct)?;
                                }
                            },
                        }
                    }
                } else if b == 34 {  // '"'
                    self.double = !self.double;
                } else if b == 39 {  // '\''
                    self.single = !self.single;
                }
            },
            None => {
                if b == 60 {  // '<'
                    self.opened = Some(pos);
                }
            },
        }
        Ok(())
    }

    /// Appends `chunk` to the input and scans every newly complete 64-byte
    /// block, dispatching each event to the sink.  On success the engine has
    /// dispatched exactly the events of the aligned prefix of the grown
    /// input; an error is the sink's, and occurs only where that prefix held
    /// an event beyond those already dispatched — a failed call ends the
    /// session.
    #[verifier::loop_isolation(false)]
    pub fn feed(&mut self, chunk: &[u8]) -> (r: Result<(), anyhow::Error>)
        requires
            old(self).wf(),
        ensures
            r is Ok ==> final(self).wf(),
            r is Ok ==> final(self).input() == old(self).input() + chunk@,
            r is Ok ==> final(self).scanned() == aligned_len(
                old(self).input().len() + chunk@.len() as int,
            ),
            r is Ok ==> old(self).scanned() <= final(self).scanned(),
            r is Ok ==> final(self).emitted() == events_upto(
                final(self).input(),
                final(self).scanned(),
            ),
            r is Ok ==> old(self).emitted().is_prefix_of(final(self).emitted()),
            r is Err ==> events_upto(
                old(self).input() + chunk@,
                aligned_len(old(self).input().len() + chunk@.len() as int),
            ).len() > old(self).emitted().len(),
            events_upto(
                old(self).input() + chunk@,
                aligned_len(old(self).input().len() + chunk@.len() as int),
            ) == old(self).emitted() ==> r is Ok && final(self).consumer() == old(self).consumer()
                && final(self).emitted() == old(self).emitted(),
    {
        let ghost pre = *self;
        let mut j: usize = 0;
        while j < chunk.len()
            invariant
                j <= chunk@.len(),
                self.buffer@ == pre.buffer@ + chunk@.subrange(0, j as int),
                self.cursor == pre.cursor,
                self.opened == pre.opened,
                self.double == pre.double,
                self.single == pre.single,
                self.sink == pre.sink,
                self.events == pre.events,
            decreases chunk@.len() - j,
        {
            let byte: u8 = chunk[j];
            self.buffer.push(byte);
            assert(self.buffer@ =~= pre.buffer@ + chunk@.subrange(0, (j + 1) as int));
            j += 1;
        }
        assert(self.buffer@ =~= pre.buffer@ + chunk@);

        proof {
            lemma_run_agree(pre.buffer@, self.buffer@, st_init(), 0, pre.cursor as int);
            lemma_st_ok_run(self.buffer@, st_init(), 0, pre.cursor as int);
        }

        let len: usize = self.buffer.len();
        proof {
            lemma_fundamental_div_mod(len as int, 64);
            lemma_fundamental_div_mod(self.cursor as int, 64);
            lemma_div_is_ordered(self.cursor as int, len as int, 64);
            lemma_mul_inequality(self.cursor as int / 64, len as int / 64, 64);
        }
        let end: usize = (len / 64) * 64;
        assert(self.cursor <= end);
        assert(end as int == aligned_len(self.buffer@.len() as int));

        let ghost newbuf = self.buffer@;
        let ghost endi = end as int;
        let mut i: usize = self.cursor;
        while i < end
            invariant
                pre.cursor <= i <= end,
                endi == end as int,
                end <= self.buffer@.len(),
                self.buffer@ == newbuf,
                self.cursor == pre.cursor,
                self.machine() == run_state(newbuf, st_init(), 0, i as int),
                self.events@ == run_events(newbuf, st_init(), 0, i as int),
                st_ok(self.machine(), i as int),
                pre.events@ == run_events(newbuf, st_init(), 0, pre.cursor as int),
                pre.events@.len() <= self.events@.len(),
                self.events@ == pre.events@ ==> self.sink == pre.sink,
            decreases end - i,
        {
            let ghost st_i = self.machine();
            let r = self.on_match(i);
            proof {
                lemma_run_snoc(newbuf, st_init(), 0, i as int);
                lemma_st_ok_step(newbuf, st_i, i as int);
            }
            match r {
                Ok(()) => {},
                Err(e) => {
                    proof {
                        lemma_run_split(newbuf, st_init(), 0, i + 1, endi);
                        assert(run_events(newbuf, st_init(), 0, endi).len() > pre.events@.len());
                    }
                    return Err(e);
                },
            }
            i += 1;
        }
        self.cursor = end;
        proof {
            lemma_mod_multiples_basic(len as int / 64, 64);
            lemma_run_split(newbuf, st_init(), 0, pre.cursor as int, endi);
            assert(self.events@ == events_upto(self.buffer@, self.cursor as int));
            assert(pre.events@.is_prefix_of(self.events@));
        }
        Ok(())
    }

    /// Finalizes the session: sequentially scans the unscanned tail through
    /// the same dispatch logic and returns the sink.  A tag still open at the
    /// end of input produces no event.  On success the sink has been handed
    /// exactly the events of the whole input; an error is the sink's, and
    /// occurs only where the input held an event beyond those already
    /// dispatched.
    #[verifier::loop_isolation(false)]
    pub fn stop(self) -> (r: Result<S, anyhow::Error>)
        requires
            self.wf(),
        ensures
            r is Err ==> events_of(self.input()).len() > self.emitted().len(),
            events_of(self.input()) == self.emitted() ==> (r matches Ok(s) && s == self.consumer()),
    {
        let ghost pre = self;
        let mut me = self;
        let end: usize = me.buffer.len();
        let ghost endi = end as int;
        let ghost buf = me.buffer@;
        proof {
            lemma_st_ok_run(buf, st_init(), 0, pre.cursor as int);
        }
        let mut i: usize = me.cursor;
        while i < end
            invariant
                pre.cursor <= i <= end,
                endi == end as int,
                end == me.buffer@.len(),
                me.buffer@ == buf,
                me.machine() == run_state(buf, st_init(), 0, i as int),
                me.events@ == run_events(buf, st_init(), 0, i as int),
                st_ok(me.machine(), i as int),
                pre.events@ == run_events(buf, st_init(), 0, pre.cursor as int),
                pre.events@.len() <= me.events@.len(),
                me.events@ == pre.events@ ==> me.sink == pre.sink,
            decreases end - i,
        {
            let ghost st_i = me.machine();
            let r = me.on_match(i);
            proof {
                lemma_run_snoc(buf, st_init(), 0, i as int);
                lemma_st_ok_step(buf, st_i, i as int);
            }
            match r {
                Ok(()) => {},
                Err(e) => {
                    proof {
                        lemma_run_split(buf, st_init(), 0, i + 1, endi);
                        assert(run_events(buf, st_init(), 0, endi).len() > pre.events@.len());
                    }
                    return Err(e);
                },
            }
            i += 1;
        }
        Ok(me.sink)
    }
}

} // verus!
