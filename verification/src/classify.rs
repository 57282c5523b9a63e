//! The tag classifier and attribute extractor, verified against
//! [`crate::model::classify_spec`].

use vstd::prelude::*;
use crate::model::{
    classify_spec, flushed_attrs, flushed_equal, flushed_name, is_letter, is_space,
    lemma_scan_snoc, scan_init, scan_result, scan_run, Event,
};
use crate::tags::{attr_model, attrs_model, ClosingTag, CommentTag, OpeningTag};

verus! {

/// A copy of `buffer[a..b]`.
pub(crate) fn copy_range(buffer: &Vec<u8>, a: usize, b: usize) -> (r: Vec<u8>)
    requires
        a <= b,
        b <= buffer@.len(),
    ensures
        r@ == buffer@.subrange(a as int, b as int),
{
    let mut r: Vec<u8> = Vec::new();
    assert(r@ =~= buffer@.subrange(a as int, a as int));
    let mut j: usize = a;
    while j < b
        invariant
            a <= j <= b,
            b <= buffer@.len(),
            r@ == buffer@.subrange(a as int, j as int),
        decreases b - j,
    {
        r.push(buffer[j]);
        assert(r@ =~= buffer@.subrange(a as int, (j + 1) as int));
        j += 1;
    }
    r
}

/// A copy of a whole byte vector.
pub(crate) fn clone_bytes(v: &Vec<u8>) -> (r: Vec<u8>)
    ensures
        r@ == v@,
{
    let r = copy_range(v, 0, v.len());
    assert(v@.subrange(0, v@.len() as int) =~= v@);
    r
}

/// Decides [`is_letter`].
pub(crate) fn is_letter_byte(b: u8) -> (r: bool)
    ensures
        r == is_letter(b),
{
    (65 <= b && b <= 90) || (97 <= b && b <= 122)
}

/// Decides [`is_space`].
pub(crate) fn is_space_byte(b: u8) -> (r: bool)
    ensures
        r == is_space(b),
{
    b == 9 || b == 10 || b == 12 || b == 13 || b == 32
}

/// Flushes one token into the scan's name, attribute list and pending-`=`
/// flag, as [`crate::model::flush_token`] describes.
fn flush_exec(
    name: &mut Vec<u8>,
    attrs: &mut Vec<(Vec<u8>, Option<Vec<u8>>)>,
    equal: &mut bool,
    token: Vec<u8>,
)
    ensures
        final(name)@ == flushed_name(old(name)@, token@),
        attrs_model(final(attrs)@) == flushed_attrs(
            old(name)@,
            attrs_model(old(attrs)@),
            *old(equal),
            token@,
        ),
        *final(equal) == flushed_equal(old(name)@, *old(equal)),
{
    if name.len() == 0 {
        *name = token;
    } else if *equal {
        if attrs.len() > 0 {
            let ghost prev = attrs@;
            let last = attrs.pop().unwrap();
            attrs.push((last.0, Some(token)));
            assert(attrs_model(attrs@) =~= flushed_attrs(
                old(name)@,
                attrs_model(prev),
                *old(equal),
                token@,
            )) by {
                assert(attrs@ =~= prev.update(prev.len() - 1, (last.0, Some(token))));
            }
        }
        *equal = false;
    } else {
        let ghost prev = attrs@;
        attrs.push((token, None));
        assert(attrs_model(attrs@) =~= attrs_model(prev).push((token@, None)));
    }
}

/// The attribute scan over the tag span `(open, close)`: a single
/// left-to-right pass that yields the tag name, the attributes in order of
/// discovery, and whether the span carried a self-closing `/`.  Verified
/// against [`scan_result`].
pub fn scan_attributes(buffer: &Vec<u8>, open: usize, close: usize) -> (r: (OpeningTag, bool))
    requires
        open < close,
        close < buffer@.len(),
    ensures
        ({
            let sc = scan_result(buffer@, open as int, close as int);
            &&& r.0.value@ == sc.name
            &&& attrs_model(r.0.attrs@) == sc.attrs
            &&& r.1 == sc.closing
        }),
{
    let mut name: Vec<u8> = Vec::new();
    let mut attrs: Vec<(Vec<u8>, Option<Vec<u8>>)> = Vec::new();
    let mut boundary: usize = open;
    let mut equal: bool = false;
    let mut closing: bool = false;
    let mut dq: bool = false;
    let mut sq: bool = false;
    let mut stopped: bool = false;

    assert(attrs_model(attrs@) =~= scan_init(open as int).attrs);

    let mut i: usize = open + 1;
    while i < close
        invariant
            open < close,
            close < buffer@.len(),
            open + 1 <= i <= close,
            open <= boundary < i,
            ({
                let st = scan_run(buffer@, scan_init(open as int), open as int + 1, i as int);
                &&& st.name == name@
                &&& st.attrs == attrs_model(attrs@)
                &&& st.boundary == boundary as int
                &&& st.equal == equal
                &&& st.closing == closing
                &&& st.dq == dq
                &&& st.sq == sq
                &&& st.stopped == stopped
            }),
        decreases close - i,
    {
        if !stopped {
            let b: u8 = buffer[i];
            if is_space_byte(b) {
                if !dq && !sq {
                    if i - boundary > 1 {
                        let token = copy_range(buffer, boundary + 1, i);
                        flush_exec(&mut name, &mut attrs, &mut equal, token);
                    }
                    boundary = i;
                }
            } else if b == 61 {  // '='
                if !dq && !sq {
                    if i - boundary > 1 {
                        let token = copy_range(buffer, boundary + 1, i);
                        flush_exec(&mut name, &mut attrs, &mut equal, token);
                    }
                    boundary = i;
                    equal = true;
                }
            } else if b == 47 {  // '/'
                if !dq && !sq {
                    if i - boundary > 1 {
                        let token = copy_range(buffer, boundary + 1, i);
                        flush_exec(&mut name, &mut attrs, &mut equal, token);
                    }
                    closing = true;
                    stopped = true;
                }
            } else if b == 34 {  // '"'
                dq = !dq;
            } else if b == 39 {  // '\''
                sq = !sq;
            }
        }
        proof {
            lemma_scan_snoc(buffer@, scan_init(open as int), open as int + 1, i as int);
        }
        i += 1;
    }

    if !stopped {
        if close - boundary > 1 {
            let token = copy_range(buffer, boundary + 1, close);
            flush_exec(&mut name, &mut attrs, &mut equal, token);
        }
    }
    (OpeningTag { value: name, attrs }, closing)
}

/// What one completed tag span produces: nothing, a comment, a closing tag,
/// or an opening tag with an optional synthetic closing tag when the span was
/// self-closing.
pub enum Classified {
    Nothing,
    Comment(CommentTag),
    Closing(ClosingTag),
    Opening(OpeningTag, Option<ClosingTag>),
}

/// The events a [`Classified`] value stands for, in order.
pub open spec fn classified_model(c: Classified) -> Seq<Event> {
    match c {
        Classified::Nothing => Seq::empty(),
        Classified::Comment(t) => seq![Event::Comment { content: t.value@ }],
        Classified::Closing(t) => seq![Event::Closing { name: t.value@ }],
        Classified::Opening(t, oc) => {
            let head = seq![
                Event::Opening { name: t.value@, attrs: attrs_model(t.attrs@) },
            ];
            match oc {
                Some(ct) => head.push(Event::Closing { name: ct.value@ }),
                None => head,
            }
        },
    }
}

/// Classifies the tag span from the `<` at `open` to the `>` at `close` and
/// extracts its payload, as [`classify_spec`] describes.
pub fn classify_span(buffer: &Vec<u8>, open: usize, close: usize) -> (r: Classified)
    requires
        open < close,
        close < buffer@.len(),
    ensures
        classified_model(r) == classify_spec(buffer@, open as int, close as int),
{
    let b1 = buffer[open + 1];
    if b1 == 33 {  // '!'
        if close - open >= 4 && buffer[open + 2] == 45 && buffer[open + 3] == 45 {
            let r = Classified::Comment(
                CommentTag { value: copy_range(buffer, open + 4, close) },
            );
            r
        } else {
            Classified::Nothing
        }
    } else if b1 == 47 {  // '/'
        if close - open > 2 && is_letter_byte(buffer[open + 2]) {
            let r = Classified::Closing(
                ClosingTag { value: copy_range(buffer, open + 2, close) },
            );
            r
        } else {
            Classified::Nothing
        }
    } else if is_letter_byte(b1) {
        let (tag, sc) = scan_attributes(buffer, open, close);
        if sc {
            let cname = clone_bytes(&tag.value);
            let r = Classified::Opening(tag, Some(ClosingTag { value: cname }));
            r
        } else {
            let r = Classified::Opening(tag, None);
            r
        }
    } else {
        Classified::Nothing
    }
}

} // verus!
