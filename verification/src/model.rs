//! Mathematical model of the tokenizer.
//!
//! The model processes one byte position at a time: [`st_step`] advances the
//! tag-open/quote state, [`ev_step`] gives the events reported at that
//! position, and [`run_state`] / [`run_events`] fold the two over a range of
//! positions.  [`classify_spec`] says which events a completed tag span
//! produces, including the attribute scan ([`scan_run`] and friends).

use vstd::prelude::*;

verus! {

/// True iff `b` is an ASCII letter.
pub open spec fn is_letter(b: u8) -> bool {
    (65 <= b && b <= 90) || (97 <= b && b <= 122)
}

/// True iff `b` is one of the whitespace bytes the attribute scan splits on
/// (tab, line feed, form feed, carriage return, space).
pub open spec fn is_space(b: u8) -> bool {
    b == 9 || b == 10 || b == 12 || b == 13 || b == 32
}

/// An event reported to the sink, with its payload as a byte sequence.
#[verifier::ext_equal]
pub enum Event {
    /// A comment: the bytes between `<!--` and the terminating `>`.
    Comment { content: Seq<u8> },
    /// An opening tag with its name and its attributes in order of discovery.
    Opening { name: Seq<u8>, attrs: Seq<(Seq<u8>, Option<Seq<u8>>)> },
    /// A closing tag with its name.
    Closing { name: Seq<u8> },
}

/// The boundary state machine: offset of the unmatched `<` if one is open,
/// and the two quote toggles.
#[verifier::ext_equal]
pub struct MachineState {
    pub opened: Option<int>,
    pub double: bool,
    pub single: bool,
}

/// The state before any byte has been processed.
pub open spec fn st_init() -> MachineState {
    MachineState { opened: None, double: false, single: false }
}

/// A machine state is sound for position `pos` when any recorded tag-open
/// offset lies strictly before `pos`.
pub open spec fn st_ok(st: MachineState, pos: int) -> bool {
    match st.opened {
        Some(o) => 0 <= o < pos,
        None => true,
    }
}

/// The state of the attribute scan: the tag name once found (tokens are never
/// empty, so an empty `name` means "not yet found"), the attributes collected
/// so far, the offset of the last token boundary, whether an `=` is pending,
/// whether a self-closing `/` was seen, the two local quote toggles, and
/// whether the scan stopped early.
#[verifier::ext_equal]
pub struct AttrState {
    pub name: Seq<u8>,
    pub attrs: Seq<(Seq<u8>, Option<Seq<u8>>)>,
    pub boundary: int,
    pub equal: bool,
    pub closing: bool,
    pub dq: bool,
    pub sq: bool,
    pub stopped: bool,
}

/// The scan state at the start of a tag span whose `<` sits at `open`.
pub open spec fn scan_init(open: int) -> AttrState {
    AttrState {
        name: Seq::empty(),
        attrs: Seq::empty(),
        boundary: open,
        equal: false,
        closing: false,
        dq: false,
        sq: false,
        stopped: false,
    }
}

/// The tag name after a token is flushed: the first token becomes the name.
pub open spec fn flushed_name(name: Seq<u8>, token: Seq<u8>) -> Seq<u8> {
    if name.len() == 0 {
        token
    } else {
        name
    }
}

/// The attribute list after a token is flushed: once the name is taken, a
/// token either fills the value of the most recently added attribute (when an
/// `=` is pending and an attribute exists) or starts a new attribute without
/// a value.
pub open spec fn flushed_attrs(
    name: Seq<u8>,
    attrs: Seq<(Seq<u8>, Option<Seq<u8>>)>,
    equal: bool,
    token: Seq<u8>,
) -> Seq<(Seq<u8>, Option<Seq<u8>>)> {
    if name.len() == 0 {
        attrs
    } else if equal {
        if attrs.len() > 0 {
            attrs.update(attrs.len() - 1, (attrs.last().0, Some(token)))
        } else {
            attrs
        }
    } else {
        attrs.push((token, None))
    }
}

/// The pending-`=` flag after a token is flushed: consumed unless the token
/// became the name.
pub open spec fn flushed_equal(name: Seq<u8>, equal: bool) -> bool {
    if name.len() == 0 {
        equal
    } else {
        false
    }
}

/// Flush one token into the scan state.
pub open spec fn flush_token(st: AttrState, token: Seq<u8>) -> AttrState {
    AttrState {
        name: flushed_name(st.name, token),
        attrs: flushed_attrs(st.name, st.attrs, st.equal, token),
        equal: flushed_equal(st.name, st.equal),
        ..st
    }
}

/// One step of the attribute scan at position `i`.  Whitespace and `=`
/// outside quotes flush the token accumulated since the last boundary (when
/// it is non-empty) and move the boundary; `=` additionally marks a pending
/// value; `/` outside quotes flushes, marks the tag self-closing and stops
/// the scan; quote bytes toggle their local flag; everything else is inert.
pub open spec fn scan_step(input: Seq<u8>, st: AttrState, i: int) -> AttrState {
    if st.stopped {
        st
    } else {
        let b = input[i];
        if is_space(b) {
            if !st.dq && !st.sq {
                let st1 = if i - st.boundary > 1 {
                    flush_token(st, input.subrange(st.boundary + 1, i))
                } else {
                    st
                };
                AttrState { boundary: i, ..st1 }
            } else {
                st
            }
        } else if b == 61 {  // '='
            if !st.dq && !st.sq {
                let st1 = if i - st.boundary > 1 {
                    flush_token(st, input.subrange(st.boundary + 1, i))
                } else {
                    st
                };
                AttrState { boundary: i, equal: true, ..st1 }
            } else {
                st
            }
        } else if b == 47 {  // '/'
            if !st.dq && !st.sq {
                let st1 = if i - st.boundary > 1 {
                    flush_token(st, input.subrange(st.boundary + 1, i))
                } else {
                    st
                };
                AttrState { closing: true, stopped: true, ..st1 }
            } else {
                st
            }
        } else if b == 34 {  // '"'
            AttrState { dq: !st.dq, ..st }
        } else if b == 39 {  // '\''
            AttrState { sq: !st.sq, ..st }
        } else {
            st
        }
    }
}

/// The attribute scan folded over positions `from..to`.
pub open spec fn scan_run(input: Seq<u8>, st: AttrState, from: int, to: int) -> AttrState
    decreases to - from,
{
    if from >= to {
        st
    } else {
        scan_run(input, scan_step(input, st, from), from + 1, to)
    }
}

/// The result of scanning the tag span `(open, close)`: the scan runs over
/// `open+1..close`; unless it stopped at a `/`, one final token ending at
/// `close` is flushed.
pub open spec fn scan_result(input: Seq<u8>, open: int, close: int) -> AttrState {
    let st = scan_run(input, scan_init(open), open + 1, close);
    if st.stopped {
        st
    } else if close - st.boundary > 1 {
        flush_token(st, input.subrange(st.boundary + 1, close))
    } else {
        st
    }
}

/// The events produced by the tag span `(open, close)`, where `open` holds
/// the `<` and `close` its terminating unquoted `>`:
/// - `<!--` begins a comment whose content runs to the terminator;
///   any other `<!...` span (a doctype among them) produces nothing;
/// - `</` followed by a letter is a closing tag named up to the terminator;
/// - `<` followed by a letter is an opening tag, parsed by the attribute
///   scan; a self-closing tag is followed by a synthetic closing tag of the
///   same name;
/// - anything else produces nothing.
pub open spec fn classify_spec(input: Seq<u8>, open: int, close: int) -> Seq<Event> {
    let b1 = input[open + 1];
    if b1 == 33 {  // '!'
        if open + 4 <= close && input[open + 2] == 45 && input[open + 3] == 45 {
            seq![Event::Comment { content: input.subrange(open + 4, close) }]
        } else {
            Seq::empty()
        }
    } else if b1 == 47 {  // '/'
        if open + 2 < close && is_letter(input[open + 2]) {
            seq![Event::Closing { name: input.subrange(open + 2, close) }]
        } else {
            Seq::empty()
        }
    } else if is_letter(b1) {
        let sc = scan_result(input, open, close);
        let head = seq![Event::Opening { name: sc.name, attrs: sc.attrs }];
        if sc.closing {
            head.push(Event::Closing { name: sc.name })
        } else {
            head
        }
    } else {
        Seq::empty()
    }
}

/// One step of the boundary state machine at position `pos`.  Outside a tag
/// only `<` acts, recording the tag-open offset.  Inside a tag, an unquoted
/// `>` closes it; quote bytes toggle their flag; a second `<` is ignored.
pub open spec fn st_step(input: Seq<u8>, st: MachineState, pos: int) -> MachineState {
    let b = input[pos];
    match st.opened {
        None => if b == 60 {  // '<'
            MachineState { opened: Some(pos), ..st }
        } else {
            st
        },
        Some(o) => {
            if b == 62 {  // '>'
                if !st.double && !st.single {
                    MachineState { opened: None, ..st }
                } else {
                    st
                }
            } else if b == 34 {  // '"'
                MachineState { double: !st.double, ..st }
            } else if b == 39 {  // '\''
                MachineState { single: !st.single, ..st }
            } else {
                st
            }
        },
    }
}

/// The events reported at position `pos`: a tag span classifies exactly when
/// an unquoted `>` closes an open tag.
pub open spec fn ev_step(input: Seq<u8>, st: MachineState, pos: int) -> Seq<Event> {
    match st.opened {
        Some(o) => if input[pos] == 62 && !st.double && !st.single {
            classify_spec(input, o, pos)
        } else {
            Seq::empty()
        },
        None => Seq::empty(),
    }
}

/// The machine state after processing positions `from..to`.
pub open spec fn run_state(input: Seq<u8>, st: MachineState, from: int, to: int) -> MachineState
    decreases to - from,
{
    if from >= to {
        st
    } else {
        run_state(input, st_step(input, st, from), from + 1, to)
    }
}

/// The events reported while processing positions `from..to`, in order.
pub open spec fn run_events(input: Seq<u8>, st: MachineState, from: int, to: int) -> Seq<Event>
    decreases to - from,
{
    if from >= to {
        Seq::empty()
    } else {
        ev_step(input, st, from) + run_events(input, st_step(input, st, from), from + 1, to)
    }
}

/// The machine state after the first `n` bytes of `input`.
pub open spec fn state_upto(input: Seq<u8>, n: int) -> MachineState {
    run_state(input, st_init(), 0, n)
}

/// The events reported over the first `n` bytes of `input`.
pub open spec fn events_upto(input: Seq<u8>, n: int) -> Seq<Event> {
    run_events(input, st_init(), 0, n)
}

/// The events of a complete input: what one feed of the whole input followed
/// by finalization reports.
pub open spec fn events_of(input: Seq<u8>) -> Seq<Event> {
    events_upto(input, input.len() as int)
}

/// The length of the longest prefix of an `n`-byte input that consists of
/// whole 64-byte blocks; only that prefix is scanned by `feed`, the rest
/// waits for more input or for finalization.
pub open spec fn aligned_len(n: int) -> int {
    (n / 64) * 64
}

/// Soundness of the recorded tag-open offset is preserved by one step.
pub proof fn lemma_st_ok_step(input: Seq<u8>, st: MachineState, pos: int)
    requires
        st_ok(st, pos),
        0 <= pos,
    ensures
        st_ok(st_step(input, st, pos), pos + 1),
{
}

/// Soundness of the recorded tag-open offset is preserved by every step.
pub proof fn lemma_st_ok_run(input: Seq<u8>, st: MachineState, from: int, to: int)
    requires
        st_ok(st, from),
        0 <= from <= to,
    ensures
        st_ok(run_state(input, st, from, to), to),
    decreases to - from,
{
    if from < to {
        lemma_st_ok_run(input, st_step(input, st, from), from + 1, to);
    }
}

/// Running over `from..to` equals running over `from..mid` and continuing
/// over `mid..to` from the state reached, and the events concatenate in
/// order.  This is the heart of chunk invariance: a scan may pause at any
/// position and resume without changing what is reported.
pub proof fn lemma_run_split(input: Seq<u8>, st: MachineState, from: int, mid: int, to: int)
    requires
        from <= mid <= to,
    ensures
        run_state(input, st, from, to)
            == run_state(input, run_state(input, st, from, mid), mid, to),
        run_events(input, st, from, to)
            == run_events(input, st, from, mid)
                + run_events(input, run_state(input, st, from, mid), mid, to),
    decreases mid - from,
{
    if from < mid {
        lemma_run_split(input, st_step(input, st, from), from + 1, mid, to);
        assert(run_events(input, st, from, to)
            =~= run_events(input, st, from, mid)
                + run_events(input, run_state(input, st, from, mid), mid, to));
    } else {
        assert(run_events(input, st, from, to)
            =~= run_events(input, st, from, mid)
                + run_events(input, run_state(input, st, from, mid), mid, to));
    }
}

/// Extending the range by one position at the back applies one more step.
pub proof fn lemma_run_snoc(input: Seq<u8>, st: MachineState, from: int, to: int)
    requires
        from <= to,
    ensures
        run_state(input, st, from, to + 1)
            == st_step(input, run_state(input, st, from, to), to),
        run_events(input, st, from, to + 1)
            == run_events(input, st, from, to)
                + ev_step(input, run_state(input, st, from, to), to),
    decreases to - from,
{
    reveal_with_fuel(run_state, 3);
    reveal_with_fuel(run_events, 3);
    if from < to {
        lemma_run_snoc(input, st_step(input, st, from), from + 1, to);
        assert(run_events(input, st, from, to + 1)
            =~= run_events(input, st, from, to)
                + ev_step(input, run_state(input, st, from, to), to));
    } else {
        assert(run_events(input, st, from, to + 1)
            =~= run_events(input, st, from, to)
                + ev_step(input, run_state(input, st, from, to), to));
    }
}

/// Extending the scan range by one position at the back applies one more step.
pub proof fn lemma_scan_snoc(input: Seq<u8>, st: AttrState, from: int, to: int)
    requires
        from <= to,
    ensures
        scan_run(input, st, from, to + 1)
            == scan_step(input, scan_run(input, st, from, to), to),
    decreases to - from,
{
    reveal_with_fuel(scan_run, 3);
    if from < to {
        lemma_scan_snoc(input, scan_step(input, st, from), from + 1, to);
    }
}

/// The scan's boundary never moves before its starting value.
pub proof fn lemma_scan_boundary(input: Seq<u8>, st: AttrState, from: int, to: int)
    requires
        0 <= st.boundary,
        0 <= from,
    ensures
        0 <= scan_run(input, st, from, to).boundary,
    decreases to - from,
{
    if from < to {
        lemma_scan_boundary(input, scan_step(input, st, from), from + 1, to);
    }
}

/// Two inputs that agree on every position below `to` scan alike over any
/// range within `0..to`.
pub proof fn lemma_scan_agree(a: Seq<u8>, b: Seq<u8>, st: AttrState, from: int, to: int)
    requires
        0 <= from,
        to <= a.len(),
        to <= b.len(),
        forall|k: int| 0 <= k < to ==> a[k] == b[k],
        st.boundary >= 0,
    ensures
        scan_run(a, st, from, to) == scan_run(b, st, from, to),
    decreases to - from,
{
    if from < to {
        if st.boundary + 1 < from {
            assert(a.subrange(st.boundary + 1, from) =~= b.subrange(st.boundary + 1, from));
        }
        assert(scan_step(a, st, from) == scan_step(b, st, from));
        lemma_scan_agree(a, b, scan_step(a, st, from), from + 1, to);
    }
}

/// Two inputs that agree on every position up to and including `close`
/// classify the span `(open, close)` alike.
pub proof fn lemma_classify_agree(a: Seq<u8>, b: Seq<u8>, open: int, close: int)
    requires
        0 <= open < close,
        close < a.len(),
        close < b.len(),
        forall|k: int| 0 <= k <= close ==> a[k] == b[k],
    ensures
        classify_spec(a, open, close) == classify_spec(b, open, close),
{
    lemma_scan_agree(a, b, scan_init(open), open + 1, close);
    lemma_scan_boundary(a, scan_init(open), open + 1, close);
    let st = scan_run(a, scan_init(open), open + 1, close);
    if !st.stopped && close - st.boundary > 1 {
        assert(a.subrange(st.boundary + 1, close) =~= b.subrange(st.boundary + 1, close));
    }
    assert(scan_result(a, open, close) == scan_result(b, open, close));
    if open + 4 <= close {
        assert(a.subrange(open + 4, close) =~= b.subrange(open + 4, close));
    }
    if open + 2 < close {
        assert(a.subrange(open + 2, close) =~= b.subrange(open + 2, close));
    }
}

/// Two inputs that agree on every position below `to` run alike over any
/// range within `0..to`: growing the buffer never disturbs what an earlier
/// prefix reported.
pub proof fn lemma_run_agree(a: Seq<u8>, b: Seq<u8>, st: MachineState, from: int, to: int)
    requires
        0 <= from <= to,
        to <= a.len(),
        to <= b.len(),
        forall|k: int| 0 <= k < to ==> a[k] == b[k],
        st_ok(st, from),
    ensures
        run_state(a, st, from, to) == run_state(b, st, from, to),
        run_events(a, st, from, to) == run_events(b, st, from, to),
    decreases to - from,
{
    if from < to {
        match st.opened {
            Some(o) => {
                if a[from] == 62 && !st.double && !st.single {
                    lemma_classify_agree(a, b, o, from);
                }
            },
            None => {},
        }
        assert(st_step(a, st, from) == st_step(b, st, from));
        assert(ev_step(a, st, from) == ev_step(b, st, from));
        lemma_run_agree(a, b, st_step(a, st, from), from + 1, to);
    }
}

/// Chunk invariance, stated over the model: the events of a concatenated
/// input equal the events of the first part followed by the events the
/// second part produces when scanning resumes from the state the first part
/// reached.  Feeding `a` then `b` therefore reports exactly the events of
/// feeding `a + b` at once.
pub proof fn lemma_chunk_invariance(a: Seq<u8>, b: Seq<u8>)
    ensures
        state_upto(a + b, a.len() as int) == state_upto(a, a.len() as int),
        events_upto(a + b, a.len() as int) == events_of(a),
        events_of(a + b) == events_of(a)
            + run_events(a + b, state_upto(a, a.len() as int), a.len() as int, (a + b).len() as int),
{
    assert(forall|k: int| 0 <= k < a.len() ==> a[k] == (a + b)[k]);
    lemma_run_agree(a + b, a, st_init(), 0, a.len() as int);
    lemma_run_split(a + b, st_init(), 0, a.len() as int, (a + b).len() as int);
}

} // verus!
