//! Markdown structural events, as seen by the normalizer.
//!
//! The normalizer recognizes four kinds of events (paragraph start and end,
//! image start and end) and treats everything else as opaque payload.
use vstd::prelude::*;

verus! {

/// The attributes an image start tag carries: destination URL and title.
#[derive(Debug, PartialEq, Eq)]
pub struct ImageLink {
    pub dest: String,
    pub title: String,
}

/// Mathematical model of an image's attributes.
pub struct ImageLinkView {
    pub dest: Seq<char>,
    pub title: Seq<char>,
}

impl View for ImageLink {
    type V = ImageLinkView;

    open spec fn view(&self) -> ImageLinkView {
        ImageLinkView { dest: self.dest@, title: self.title@ }
    }
}

impl Clone for ImageLink {
    fn clone(&self) -> (r: Self)
        ensures
            r@ == self@,
    {
        ImageLink { dest: self.dest.clone(), title: self.title.clone() }
    }
}

/// One unit of parsed Markdown. The normalizer inspects only the four
/// structural kinds; text runs and all other tags pass through untouched.
#[derive(Debug, PartialEq, Eq)]
pub enum Event {
    /// Start of a paragraph.
    ParaStart,
    /// End of a paragraph.
    ParaEnd,
    /// Start of an image, with its attributes.
    ImgStart(ImageLink),
    /// End of an image.
    ImgEnd,
    /// A run of text.
    Text(String),
    /// Any other event, carried through as an opaque token.
    Other(u64),
}

/// Mathematical model of an event.
pub enum EventView {
    ParaStart,
    ParaEnd,
    ImgStart(ImageLinkView),
    ImgEnd,
    Text(Seq<char>),
    Other(u64),
}

impl View for Event {
    type V = EventView;

    open spec fn view(&self) -> EventView {
        match self {
            Event::ParaStart => EventView::ParaStart,
            Event::ParaEnd => EventView::ParaEnd,
            Event::ImgStart(link) => EventView::ImgStart(link@),
            Event::ImgEnd => EventView::ImgEnd,
            Event::Text(s) => EventView::Text(s@),
            Event::Other(t) => EventView::Other(*t),
        }
    }
}

impl Clone for Event {
    fn clone(&self) -> (r: Self)
        ensures
            r@ == self@,
    {
        match self {
            Event::ParaStart => Event::ParaStart,
            Event::ParaEnd => Event::ParaEnd,
            Event::ImgStart(link) => Event::ImgStart(link.clone()),
            Event::ImgEnd => Event::ImgEnd,
            Event::Text(s) => Event::Text(s.clone()),
            Event::Other(t) => Event::Other(*t),
        }
    }
}

/// An event that is none of the four structural kinds the normalizer acts on.
pub open spec fn is_inline(e: EventView) -> bool {
    !(e is ParaStart || e is ParaEnd || e is ImgStart || e is ImgEnd)
}

/// The models of a sequence of events.
pub open spec fn views_of(s: Seq<Event>) -> Seq<EventView> {
    s.map_values(|e: Event| e@)
}

} // verus!
