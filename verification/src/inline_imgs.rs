//! A streaming transformer over Markdown structural events: paragraphs whose
//! entire content is a single image are emitted as bare image events, with
//! the wrapping paragraph tags removed. Everything else passes through
//! unchanged and in order.
use vstd::prelude::*;
use vstd::assert_seqs_equal;

use crate::events::Event;
use crate::events::EventView;
use crate::events::views_of;

verus! {

/// The smallest index `k` with `i <= k` at which `s[k]` is an image end tag,
/// or `s.len()` if there is none.
pub open spec fn first_img_end_from(s: Seq<EventView>, i: int) -> int
    decreases s.len() - i when 0 <= i <= s.len()
{
    if i >= s.len() {
        s.len() as int
    } else if s[i] is ImgEnd {
        i
    } else {
        first_img_end_from(s, i + 1)
    }
}

pub proof fn lemma_first_img_end_bounds(s: Seq<EventView>, i: int)
    requires
        0 <= i <= s.len(),
    ensures
        i <= first_img_end_from(s, i) <= s.len(),
        forall|k: int| i <= k < first_img_end_from(s, i) ==> !(s[k] is ImgEnd),
        first_img_end_from(s, i) < s.len() ==> s[first_img_end_from(s, i)] is ImgEnd,
    decreases s.len() - i,
{
    if i < s.len() && !(s[i] is ImgEnd) {
        lemma_first_img_end_bounds(s, i + 1);
    }
}

/// Dropping a prefix moves the first image end tag left by that much.
pub proof fn lemma_first_img_end_skip(s: Seq<EventView>, n: int, i: int)
    requires
        0 <= i,
        0 <= n,
        n + i <= s.len(),
    ensures
        first_img_end_from(s.skip(n), i) == first_img_end_from(s, n + i) - n,
    decreases s.len() - n - i,
{
    if n + i < s.len() && !(s[n + i] is ImgEnd) {
        lemma_first_img_end_skip(s, n, i + 1);
    }
}

/// How many upstream events the transformer consumes when it next pulls,
/// starting from the front of `s`: a paragraph start triggers lookahead
/// (one event, or a whole image followed by one event); anything else is
/// consumed alone.
pub open spec fn group_len(s: Seq<EventView>) -> int {
    if s.len() == 0 {
        0
    } else if s[0] is ParaStart {
        if s.len() >= 2 && s[1] is ImgStart {
            let j = first_img_end_from(s, 2);
            if j + 1 < s.len() {
                j + 2
            } else {
                s.len() as int
            }
        } else if s.len() >= 2 {
            2
        } else {
            1
        }
    } else {
        1
    }
}

/// Whether the front of `s` holds everything the transformer's lookahead
/// needs: after a paragraph start there is a next event, and after a
/// paragraph start plus image start there is an image end and one event more.
pub open spec fn group_ok(s: Seq<EventView>) -> bool {
    s[0] is ParaStart ==> {
        &&& s.len() >= 2
        &&& (s[1] is ImgStart ==> first_img_end_from(s, 2) + 1 < s.len())
    }
}

/// What the transformer emits for the front group of `s`: the group verbatim,
/// except that a paragraph wrapping exactly one image loses its two wrapper
/// tags.
pub open spec fn group_out(s: Seq<EventView>) -> Seq<EventView> {
    if s.len() >= 2 && s[0] is ParaStart && s[1] is ImgStart {
        let j = first_img_end_from(s, 2);
        if j + 1 < s.len() && s[j + 1] is ParaEnd {
            s.subrange(1, j + 1)
        } else {
            s.subrange(0, group_len(s))
        }
    } else {
        s.subrange(0, group_len(s))
    }
}

/// The transformed stream: group by group, paragraphs wrapping exactly one
/// image are unwrapped and everything else is kept verbatim.
pub open spec fn normalize(s: Seq<EventView>) -> Seq<EventView>
    decreases s.len() via normalize_decreases
{
    if s.len() == 0 {
        Seq::empty()
    } else {
        group_out(s) + normalize(s.skip(group_len(s)))
    }
}

#[via_fn]
proof fn normalize_decreases(s: Seq<EventView>) {
    if s.len() > 0 {
        lemma_group_len_bounds(s);
    }
}

/// The stream can be transformed to its end without the lookahead running
/// out: group by group, `group_ok` holds.
pub open spec fn stream_ok(s: Seq<EventView>) -> bool
    decreases s.len() via stream_ok_decreases
{
    s.len() == 0 || (group_ok(s) && stream_ok(s.skip(group_len(s))))
}

#[via_fn]
proof fn stream_ok_decreases(s: Seq<EventView>) {
    if s.len() > 0 {
        lemma_group_len_bounds(s);
    }
}

pub proof fn lemma_group_len_bounds(s: Seq<EventView>)
    requires
        s.len() > 0,
    ensures
        1 <= group_len(s) <= s.len(),
{
    if s[0] is ParaStart && s.len() >= 2 && s[1] is ImgStart {
        lemma_first_img_end_bounds(s, 2);
    }
}

/// Events that are not paragraph starts trigger no lookahead: a prefix free
/// of paragraph starts passes through the transformer verbatim.
pub proof fn lemma_normalize_skips_prefix(p: Seq<EventView>, rest: Seq<EventView>)
    requires
        forall|k: int| 0 <= k < p.len() ==> !(p[k] is ParaStart),
    ensures
        normalize(p + rest) == p + normalize(rest),
    decreases p.len(),
{
    if p.len() == 0 {
        assert_seqs_equal!(p + rest == rest);
    } else {
        let s = p + rest;
        assert(!(s[0] is ParaStart));
        assert(group_len(s) == 1);
        assert_seqs_equal!(group_out(s) == seq![p[0]]);
        assert_seqs_equal!(s.skip(1) == p.skip(1) + rest);
        lemma_normalize_skips_prefix(p.skip(1), rest);
        assert_seqs_equal!(normalize(p + rest) == p + normalize(rest));
    }
}

pub proof fn lemma_first_img_end_at(s: Seq<EventView>, i: int, j: int)
    requires
        0 <= i <= j <= s.len(),
        forall|m: int| i <= m < j ==> !(s[m] is ImgEnd),
        j < s.len() ==> s[j] is ImgEnd,
    ensures
        first_img_end_from(s, i) == j,
    decreases j - i,
{
    if i < j {
        lemma_first_img_end_at(s, i + 1, j);
    }
}

/// A producer of Markdown structural events, pulled one at a time until it
/// reports end of stream. Any compliant producer can be wrapped by
/// [`InlineImages`].
pub trait EventSource {
    /// The events this source has not yet handed out.
    spec fn pending(&self) -> Seq<EventView>;

    /// What the source demands of itself between pulls.
    spec fn inv(&self) -> bool;

    /// Pull the next event, or report end of stream once all events are gone.
    fn next_event(&mut self) -> (r: Option<Event>)
        requires
            old(self).inv(),
        ensures
            final(self).inv(),
            match r {
                Some(e) => old(self).pending().len() > 0 && e@ == old(self).pending()[0]
                    && final(self).pending() == old(self).pending().skip(1),
                None => old(self).pending().len() == 0
                    && final(self).pending() == old(self).pending(),
            },
    ;
}

/// An event source backed by a vector of events, handed out front to back.
pub struct VecSource {
    events: Vec<Event>,
    pos: usize,
}

impl VecSource {
    pub fn new(events: Vec<Event>) -> (r: VecSource)
        ensures
            r.inv(),
            r.pending() == views_of(events@),
    {
        let r = VecSource { events, pos: 0 };
        proof {
            assert_seqs_equal!(r.pending() == views_of(r.events@));
        }
        r
    }
}

impl EventSource for VecSource {
    closed spec fn pending(&self) -> Seq<EventView> {
        views_of(self.events@).skip(self.pos as int)
    }

    closed spec fn inv(&self) -> bool {
        self.pos <= self.events.len()
    }

    fn next_event(&mut self) -> (r: Option<Event>) {
        if self.pos < self.events.len() {
            let e = self.events[self.pos].clone();
            self.pos = self.pos + 1;
            proof {
                assert_seqs_equal!(self.pending() == old(self).pending().skip(1));
            }
            Some(e)
        } else {
            None
        }
    }
}

/// A wrapper for an event source which removes the wrapping paragraph tags
/// around any paragraph that holds a single image and nothing else. It is a
/// drop-in replacement for the source it wraps.
pub struct InlineImages<I: EventSource> {
    /// The source to get events from.
    parser: I,
    /// Events already pulled from the source but not yet handed out, in the
    /// order they were pulled.
    buffer: Vec<Event>,
}

impl<I: EventSource> InlineImages<I> {
    /// Wrap an event source. The wrapper is pulled from in the same way as
    /// the source it wraps; its events are the source's, transformed.
    pub fn new(parser: I) -> (r: Self)
        requires
            parser.inv(),
            stream_ok(parser.pending()),
        ensures
            r.inv(),
            r.pending() == normalize(parser.pending()),
    {
        let r = InlineImages { parser, buffer: Vec::new() };
        proof {
            assert_seqs_equal!(r.pending() == normalize(r.parser.pending()));
        }
        r
    }

    /// Pull events from the source into the buffer up to and including the
    /// next image end tag.
    fn buffer_until_image_end(&mut self)
        requires
            old(self).parser.inv(),
            first_img_end_from(old(self).parser.pending(), 0) < old(self).parser.pending().len(),
        ensures
            final(self).parser.inv(),
            views_of(final(self).buffer@) == views_of(old(self).buffer@)
                + old(self).parser.pending().subrange(
                    0,
                    first_img_end_from(old(self).parser.pending(), 0) + 1,
                ),
            final(self).parser.pending() == old(self).parser.pending().skip(
                first_img_end_from(old(self).parser.pending(), 0) + 1,
            ),
    {
        let ghost orig = self.parser.pending();
        let ghost obuf = views_of(self.buffer@);
        let ghost j = first_img_end_from(orig, 0);
        proof {
            lemma_first_img_end_bounds(orig, 0);
        }
        let ghost mut k: int = 0;
        loop
            invariant_except_break
                self.parser.pending() == orig.skip(k),
                views_of(self.buffer@) == obuf + orig.subrange(0, k),
            invariant
                self.parser.inv(),
                0 <= k <= j,
                j == first_img_end_from(orig, 0),
                j < orig.len(),
                orig[j] is ImgEnd,
                forall|m: int| 0 <= m < j ==> !(orig[m] is ImgEnd),
            ensures
                self.parser.inv(),
                views_of(self.buffer@) == obuf + orig.subrange(0, j + 1),
                self.parser.pending() == orig.skip(j + 1),
            decreases j - k,
        {
            let e = self.parser.next_event().unwrap();
            proof {
                assert(e@ == orig[k]);
                assert_seqs_equal!(orig.skip(k).skip(1) == orig.skip(k + 1));
            }
            let is_end = matches!(e, Event::ImgEnd);
            let ghost prev_buf = self.buffer@;
            self.buffer.push(e);
            proof {
                assert_seqs_equal!(views_of(prev_buf.push(e)) == views_of(prev_buf).push(e@));
                assert_seqs_equal!(views_of(self.buffer@) == obuf + orig.subrange(0, k + 1));
            }
            if is_end {
                proof {
                    assert(orig[k] is ImgEnd);
                    assert(k == j);
                }
                break;
            }
            proof {
                assert(!(orig[k] is ImgEnd));
                assert(k < j);
                k = k + 1;
            }
        }
    }

    /// Resolve a paragraph start that was just pulled from the source: look
    /// ahead to decide whether the paragraph wraps a single image, and return
    /// the event to hand out, leaving the rest of the lookahead in the buffer.
    #[verifier::rlimit(60)]
    fn on_paragraph_start(&mut self) -> (r: Event)
        requires
            old(self).parser.inv(),
            old(self).buffer@.len() == 0,
            stream_ok(seq![EventView::ParaStart] + old(self).parser.pending()),
        ensures
            final(self).inv(),
            seq![r@] + final(self).pending() == normalize(
                seq![EventView::ParaStart] + old(self).parser.pending(),
            ),
    {
        let ghost s = seq![EventView::ParaStart] + old(self).parser.pending();
        proof {
            assert(group_ok(s));
            assert(s.len() >= 2);
            assert_seqs_equal!(old(self).parser.pending() == s.skip(1));
        }
        let e = self.parser.next_event().unwrap();
        proof {
            assert(e@ == s[1]);
            assert_seqs_equal!(self.parser.pending() == s.skip(2));
        }
        if matches!(e, Event::ImgStart(_)) {
            let ghost j = first_img_end_from(s, 2);
            proof {
                lemma_first_img_end_bounds(s, 2);
                assert(j + 1 < s.len());
                lemma_first_img_end_skip(s, 2, 0);
                assert(first_img_end_from(s.skip(2), 0) == j - 2);
            }
            let ghost buf0 = self.buffer@;
            self.buffer.push(e);
            proof {
                assert_seqs_equal!(views_of(buf0.push(e)) == views_of(buf0).push(e@));
                assert_seqs_equal!(views_of(self.buffer@) == s.subrange(1, 2));
            }
            self.buffer_until_image_end();
            proof {
                assert_seqs_equal!(
                    s.subrange(1, 2) + s.skip(2).subrange(0, j - 1) == s.subrange(1, j + 1)
                );
                assert(views_of(self.buffer@) == s.subrange(1, j + 1));
                assert_seqs_equal!(s.skip(2).skip(j - 1) == s.skip(j + 1));
            }
            let next = self.parser.next_event().unwrap();
            proof {
                assert(next@ == s[j + 1]);
                assert_seqs_equal!(self.parser.pending() == s.skip(j + 2));
                assert(group_len(s) == j + 2);
                assert(stream_ok(s.skip(j + 2)));
            }
            if matches!(next, Event::ParaEnd) {
                // The paragraph held only the image: both wrapper tags are
                // dropped, and the buffered image events replace them.
                let out = self.buffer.remove(0);
                proof {
                    assert(s[j + 1] is ParaEnd);
                    assert(group_out(s) == s.subrange(1, j + 1));
                    assert(out@ == s[1]);
                    assert_seqs_equal!(
                        views_of(final(self).buffer@) == s.subrange(2, j + 1)
                    );
                    assert_seqs_equal!(
                        seq![out@] + final(self).pending() == normalize(s)
                    );
                }
                out
            } else {
                // The paragraph holds more than the image: keep the wrapper,
                // hand the paragraph start out, and queue everything pulled.
                let ghost buf1 = self.buffer@;
                self.buffer.push(next);
                proof {
                    assert(!(s[j + 1] is ParaEnd));
                    assert(group_out(s) == s.subrange(0, j + 2));
                    assert_seqs_equal!(views_of(buf1.push(next)) == views_of(buf1).push(next@));
                    assert_seqs_equal!(views_of(self.buffer@) == s.subrange(1, j + 2));
                    assert_seqs_equal!(
                        seq![EventView::ParaStart] + final(self).pending() == normalize(s)
                    );
                }
                Event::ParaStart
            }
        } else {
            let ghost buf0 = self.buffer@;
            self.buffer.push(e);
            proof {
                assert(!(s[1] is ImgStart));
                assert(group_len(s) == 2);
                assert_seqs_equal!(group_out(s) == s.subrange(0, 2));
                assert(stream_ok(s.skip(2)));
                assert_seqs_equal!(views_of(buf0.push(e)) == views_of(buf0).push(e@));
                assert_seqs_equal!(views_of(self.buffer@) == s.subrange(1, 2));
                assert_seqs_equal!(
                    seq![EventView::ParaStart] + final(self).pending() == normalize(s)
                );
            }
            Event::ParaStart
        }
    }
}

impl<I: EventSource> EventSource for InlineImages<I> {
    closed spec fn pending(&self) -> Seq<EventView> {
        views_of(self.buffer@) + normalize(self.parser.pending())
    }

    closed spec fn inv(&self) -> bool {
        self.parser.inv() && stream_ok(self.parser.pending())
    }

    /// Pull the next transformed event: drain the lookahead buffer first,
    /// then pull from the source, resolving any paragraph start by lookahead.
    fn next_event(&mut self) -> (r: Option<Event>) {
        if self.buffer.len() > 0 {
            let e = self.buffer.remove(0);
            proof {
                assert(e@ == views_of(old(self).buffer@)[0]);
                assert_seqs_equal!(
                    views_of(self.buffer@) == views_of(old(self).buffer@).skip(1)
                );
                assert_seqs_equal!(self.pending() == old(self).pending().skip(1));
            }
            Some(e)
        } else {
            let ghost s = self.parser.pending();
            proof {
                assert_seqs_equal!(old(self).pending() == normalize(s));
            }
            match self.parser.next_event() {
                None => {
                    proof {
                        assert(s.len() == 0);
                        assert_seqs_equal!(old(self).pending() == Seq::<EventView>::empty());
                    }
                    None
                },
                Some(e) => {
                    proof {
                        assert(e@ == s[0]);
                        lemma_group_len_bounds(s);
                    }
                    if matches!(e, Event::ParaStart) {
                        proof {
                            assert_seqs_equal!(
                                seq![EventView::ParaStart] + self.parser.pending() == s
                            );
                        }
                        let out = self.on_paragraph_start();
                        proof {
                            let n = normalize(s);
                            assert(seq![out@] + self.pending() == n);
                            assert(out@ == n[0]);
                            assert_seqs_equal!(self.pending() == n.skip(1));
                            assert_seqs_equal!(n.skip(1) == old(self).pending().skip(1));
                        }
                        Some(out)
                    } else {
                        proof {
                            assert(!(s[0] is ParaStart));
                            assert(group_len(s) == 1);
                            assert_seqs_equal!(group_out(s) == seq![s[0]]);
                            assert(stream_ok(s.skip(1)));
                            assert_seqs_equal!(self.pending() == old(self).pending().skip(1));
                        }
                        Some(e)
                    }
                },
            }
        }
    }
}


/// Check that a whole event stream holds everything the transformer's
/// lookahead will need: after every paragraph start pulled at a group
/// boundary there is a next event, and after a paragraph start plus image
/// start there is an image end tag and one event beyond it.
pub fn check_stream(events: &Vec<Event>) -> (r: bool)
    ensures
        r == stream_ok(views_of(events@)),
{
    let ghost s = views_of(events@);
    proof {
        assert_seqs_equal!(s.skip(0) == s);
    }
    let mut i: usize = 0;
    loop
        invariant
            0 <= i <= events.len(),
            s == views_of(events@),
            s.len() == events.len(),
            stream_ok(s) == stream_ok(s.skip(i as int)),
        ensures
            i == events.len(),
            stream_ok(s) == stream_ok(s.skip(i as int)),
        decreases events.len() - i,
    {
        if i >= events.len() {
            break;
        }
        let ghost t = s.skip(i as int);
        proof {
            assert(t[0] == s[i as int]);
        }
        if matches!(events[i], Event::ParaStart) {
            if i + 1 >= events.len() {
                proof {
                    assert(!group_ok(t));
                    assert(!stream_ok(t));
                }
                return false;
            }
            if matches!(events[i + 1], Event::ImgStart(_)) {
                let mut j = i + 2;
                loop
                    invariant
                        i + 2 <= j <= events.len(),
                        s == views_of(events@),
                        s.len() == events.len(),
                        forall|m: int| i + 2 <= m < j ==> !(s[m] is ImgEnd),
                    ensures
                        i + 2 <= j <= events.len(),
                        forall|m: int| i + 2 <= m < j ==> !(s[m] is ImgEnd),
                        j < events.len() ==> s[j as int] is ImgEnd,
                    decreases events.len() - j,
                {
                    if j >= events.len() {
                        break;
                    }
                    if matches!(events[j], Event::ImgEnd) {
                        break;
                    }
                    j = j + 1;
                }
                proof {
                    lemma_first_img_end_at(s, i + 2, j as int);
                    lemma_first_img_end_skip(s, i as int, 2);
                    assert(first_img_end_from(t, 2) == j - i);
                }
                if j >= events.len() - 1 {
                    proof {
                        assert(!group_ok(t));
                        assert(!stream_ok(t));
                    }
                    return false;
                }
                proof {
                    assert(group_ok(t));
                    assert(group_len(t) == j - i + 2);
                    assert_seqs_equal!(t.skip(j - i + 2) == s.skip(j as int + 2));
                }
                i = j + 2;
            } else {
                proof {
                    assert(!(t[1] is ImgStart));
                    assert(group_ok(t));
                    assert(group_len(t) == 2);
                    assert_seqs_equal!(t.skip(2) == s.skip(i as int + 2));
                }
                i = i + 2;
            }
        } else {
            proof {
                assert(!(t[0] is ParaStart));
                assert(group_ok(t));
                assert(group_len(t) == 1);
                assert_seqs_equal!(t.skip(1) == s.skip(i as int + 1));
            }
            i = i + 1;
        }
    }
    proof {
        assert_seqs_equal!(s.skip(i as int) == Seq::<EventView>::empty());
    }
    true
}

/// Transform a whole event stream at once: unwrap every paragraph that holds
/// exactly one image and nothing else, and keep everything else verbatim.
/// Returns nothing when the stream ends with an unmatched paragraph or image
/// start, the fatal malformed-input condition.
pub fn normalize_events(events: Vec<Event>) -> (r: Option<Vec<Event>>)
    ensures
        match r {
            Some(out) => stream_ok(views_of(events@)) && views_of(out@) == normalize(
                views_of(events@),
            ),
            None => !stream_ok(views_of(events@)),
        },
{
    let ghost s = views_of(events@);
    if !check_stream(&events) {
        return None;
    }
    let source = VecSource::new(events);
    let mut imgs = InlineImages::new(source);
    let mut out: Vec<Event> = Vec::new();
    proof {
        assert_seqs_equal!(views_of(out@) + imgs.pending() == normalize(s));
    }
    loop
        invariant
            imgs.inv(),
            views_of(out@) + imgs.pending() == normalize(s),
        ensures
            views_of(out@) == normalize(s),
        decreases imgs.pending().len(),
    {
        match imgs.next_event() {
            None => {
                proof {
                    assert_seqs_equal!(views_of(out@) == normalize(s));
                }
                break;
            },
            Some(e) => {
                let ghost prev = out@;
                let ghost pend = imgs.pending();
                out.push(e);
                proof {
                    assert_seqs_equal!(views_of(prev.push(e)) == views_of(prev).push(e@));
                    assert_seqs_equal!(views_of(out@) + imgs.pending() == normalize(s));
                }
            },
        }
    }
    Some(out)
}

} // verus!

