use rough::events::Event;
use rough::events::ImageLink;
use rough::inline_imgs::check_stream;
use rough::inline_imgs::normalize_events;
use rough::inline_imgs::EventSource;
use rough::inline_imgs::InlineImages;
use rough::inline_imgs::VecSource;

fn img(dest: &str) -> Event {
    Event::ImgStart(ImageLink { dest: dest.to_string(), title: String::new() })
}

fn text(s: &str) -> Event {
    Event::Text(s.to_string())
}

fn run(events: Vec<Event>) -> Vec<Event> {
    normalize_events(events).expect("stream should be well formed")
}

#[test]
fn bare_image_paragraph_unwrapped() {
    let input = vec![Event::ParaStart, img("a"), Event::ImgEnd, Event::ParaEnd];
    let expected = vec![img("a"), Event::ImgEnd];
    assert_eq!(run(input), expected);
}

#[test]
fn text_before_image_kept() {
    let input = vec![Event::ParaStart, text("x"), img("a"), Event::ImgEnd, Event::ParaEnd];
    assert_eq!(run(input.clone()), input);
}

#[test]
fn text_after_image_kept() {
    let input = vec![Event::ParaStart, img("a"), Event::ImgEnd, text("x"), Event::ParaEnd];
    assert_eq!(run(input.clone()), input);
}

#[test]
fn stream_without_bare_images_unchanged() {
    let input = vec![
        Event::Other(1),
        Event::ParaStart,
        text("hello"),
        Event::ParaEnd,
        Event::ParaStart,
        text("a"),
        img("pic"),
        Event::ImgEnd,
        text("b"),
        Event::ParaEnd,
        Event::Other(2),
    ];
    assert_eq!(run(input.clone()), input);
}

#[test]
fn rerun_on_output_changes_nothing() {
    let input = vec![
        Event::ParaStart,
        text("intro"),
        Event::ParaEnd,
        Event::ParaStart,
        img("solo"),
        Event::ImgEnd,
        Event::ParaEnd,
        Event::ParaStart,
        text("outro"),
        Event::ParaEnd,
    ];
    let once = run(input);
    let twice = run(once.clone());
    assert_eq!(twice, once);
}

#[test]
fn image_with_alt_events_unwrapped() {
    let input = vec![Event::ParaStart, img("a"), text("alt"), Event::ImgEnd, Event::ParaEnd];
    let expected = vec![img("a"), text("alt"), Event::ImgEnd];
    assert_eq!(run(input), expected);
}

#[test]
fn two_images_in_one_paragraph_kept() {
    let input = vec![
        Event::ParaStart,
        img("a"),
        Event::ImgEnd,
        img("b"),
        Event::ImgEnd,
        Event::ParaEnd,
    ];
    assert_eq!(run(input.clone()), input);
}

#[test]
fn consecutive_bare_image_paragraphs_unwrapped() {
    let input = vec![
        Event::ParaStart,
        img("a"),
        Event::ImgEnd,
        Event::ParaEnd,
        Event::ParaStart,
        img("b"),
        Event::ImgEnd,
        Event::ParaEnd,
    ];
    let expected = vec![img("a"), Event::ImgEnd, img("b"), Event::ImgEnd];
    assert_eq!(run(input), expected);
}

#[test]
fn empty_paragraph_kept() {
    let input = vec![Event::ParaStart, Event::ParaEnd];
    assert_eq!(run(input.clone()), input);
}

#[test]
fn empty_stream_stays_empty() {
    assert_eq!(run(vec![]), vec![]);
}

#[test]
fn image_attributes_preserved() {
    let start = Event::ImgStart(ImageLink {
        dest: "https://example.org/cat.png".to_string(),
        title: "A cat".to_string(),
    });
    let input = vec![Event::ParaStart, start.clone(), Event::ImgEnd, Event::ParaEnd];
    let out = run(input);
    assert_eq!(out[0], start);
}

#[test]
fn unclosed_paragraph_is_rejected() {
    assert_eq!(normalize_events(vec![Event::ParaStart]), None);
}

#[test]
fn unclosed_image_is_rejected() {
    assert_eq!(normalize_events(vec![Event::ParaStart, img("a"), text("alt")]), None);
}

#[test]
fn paragraph_unclosed_after_image_is_rejected() {
    assert_eq!(normalize_events(vec![Event::ParaStart, img("a"), Event::ImgEnd]), None);
}

#[test]
fn check_stream_accepts_plain_streams() {
    assert!(check_stream(&vec![text("a"), Event::Other(7)]));
    assert!(!check_stream(&vec![text("a"), Event::ParaStart]));
}

#[test]
fn streaming_pull_matches_whole_run() {
    let input = vec![
        Event::ParaStart,
        img("a"),
        Event::ImgEnd,
        Event::ParaEnd,
        text("tail"),
    ];
    let expected = run(input.clone());
    let mut wrapped = InlineImages::new(VecSource::new(input));
    let mut got = Vec::new();
    while let Some(e) = wrapped.next_event() {
        got.push(e);
    }
    assert_eq!(got, expected);
}
