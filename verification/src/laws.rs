//! Stream-level laws of the paragraph-unwrapping transformer, stated over a
//! structural model of Markdown documents: a document is a sequence of
//! blocks, each block either a paragraph wrapping items or a free item, and
//! each item either an inline event or one whole image.
use vstd::prelude::*;
use vstd::assert_seqs_equal;

use crate::events::EventView;
use crate::events::is_inline;
use crate::inline_imgs::first_img_end_from;
use crate::inline_imgs::group_len;
use crate::inline_imgs::group_ok;
use crate::inline_imgs::group_out;
use crate::inline_imgs::lemma_first_img_end_at;
use crate::inline_imgs::lemma_normalize_skips_prefix;
use crate::inline_imgs::normalize;
use crate::inline_imgs::stream_ok;

verus! {

/// One unit of paragraph content: an inline event, or a whole image with its
/// start tag's attributes and its interior events.
pub enum Item {
    Inline(EventView),
    Image(crate::events::ImageLinkView, Seq<EventView>),
}

/// One block of a document: an item standing free, or a paragraph wrapping a
/// sequence of items.
pub enum Block {
    Free(Item),
    Para(Seq<Item>),
}

/// An inline item really is inline, and an image's interior holds only
/// inline events (image and paragraph tags do not nest inside an image).
pub open spec fn item_ok(it: Item) -> bool {
    match it {
        Item::Inline(e) => is_inline(e),
        Item::Image(_, interior) => forall|k: int|
            0 <= k < interior.len() ==> is_inline(interior[k]),
    }
}

pub open spec fn block_ok(b: Block) -> bool {
    match b {
        Block::Free(it) => item_ok(it),
        Block::Para(items) => forall|k: int| 0 <= k < items.len() ==> item_ok(items[k]),
    }
}

pub open spec fn doc_ok(d: Seq<Block>) -> bool {
    forall|k: int| 0 <= k < d.len() ==> block_ok(d[k])
}

/// The event stream of one item.
pub open spec fn item_events(it: Item) -> Seq<EventView> {
    match it {
        Item::Inline(e) => seq![e],
        Item::Image(link, interior) => seq![EventView::ImgStart(link)] + interior
            + seq![EventView::ImgEnd],
    }
}

/// The event stream of a sequence of items.
pub open spec fn items_events(items: Seq<Item>) -> Seq<EventView>
    decreases items.len(),
{
    if items.len() == 0 {
        Seq::empty()
    } else {
        item_events(items[0]) + items_events(items.skip(1))
    }
}

/// The event stream of one block.
pub open spec fn block_events(b: Block) -> Seq<EventView> {
    match b {
        Block::Free(it) => item_events(it),
        Block::Para(items) => seq![EventView::ParaStart] + items_events(items)
            + seq![EventView::ParaEnd],
    }
}

/// The event stream of a whole document.
pub open spec fn doc_events(d: Seq<Block>) -> Seq<EventView>
    decreases d.len(),
{
    if d.len() == 0 {
        Seq::empty()
    } else {
        block_events(d[0]) + doc_events(d.skip(1))
    }
}

/// A paragraph whose whole content is one image and nothing else.
pub open spec fn is_bare_image_para(b: Block) -> bool {
    match b {
        Block::Para(items) => items.len() == 1 && items[0] is Image,
        _ => false,
    }
}

/// What the transformer does to one block: a paragraph wrapping exactly one
/// image becomes that image standing free; everything else is kept.
pub open spec fn unwrap_block(b: Block) -> Block {
    match b {
        Block::Para(items) => if items.len() == 1 && items[0] is Image {
            Block::Free(items[0])
        } else {
            b
        },
        _ => b,
    }
}

/// The transformer, at the document level.
pub open spec fn normalize_doc(d: Seq<Block>) -> Seq<Block> {
    d.map_values(|b: Block| unwrap_block(b))
}

/// A well-formed item's events are nonempty and carry no paragraph tags.
proof fn lemma_item_events_no_para(it: Item)
    requires
        item_ok(it),
    ensures
        item_events(it).len() > 0,
        forall|m: int|
            0 <= m < item_events(it).len() ==> !(item_events(it)[m] is ParaStart) && !(item_events(
                it,
            )[m] is ParaEnd),
{
    match it {
        Item::Inline(e) => {
            assert(is_inline(e));
        },
        Item::Image(link, interior) => {
            let fi = item_events(it);
            assert forall|m: int| 0 <= m < fi.len() implies !(fi[m] is ParaStart) && !(
            fi[m] is ParaEnd) by {
                if 0 < m < fi.len() - 1 {
                    assert(fi[m] == interior[m - 1]);
                    assert(is_inline(interior[m - 1]));
                }
            }
        },
    }
}

/// The events of well-formed items carry no paragraph tags at all.
proof fn lemma_items_events_no_para(items: Seq<Item>)
    requires
        forall|k: int| 0 <= k < items.len() ==> item_ok(items[k]),
    ensures
        forall|m: int|
            0 <= m < items_events(items).len() ==> !(items_events(items)[m] is ParaStart)
                && !(items_events(items)[m] is ParaEnd),
    decreases items.len(),
{
    if items.len() > 0 {
        assert(item_ok(items[0]));
        lemma_item_events_no_para(items[0]);
        lemma_items_events_no_para(items.skip(1));
        assert forall|m: int| 0 <= m < items_events(items).len() implies !(items_events(
            items,
        )[m] is ParaStart) && !(items_events(items)[m] is ParaEnd) by {
            let fi = item_events(items[0]);
            if m < fi.len() {
                assert(items_events(items)[m] == fi[m]);
            } else {
                assert(items_events(items)[m] == items_events(items.skip(1))[m - fi.len()]);
            }
        }
    }
}

/// Each item contributes at least one event, and the first event of a
/// well-formed item sequence is never a paragraph or image end tag.
proof fn lemma_items_events_front(items: Seq<Item>)
    requires
        items.len() > 0,
        forall|k: int| 0 <= k < items.len() ==> item_ok(items[k]),
    ensures
        items_events(items).len() > 0,
        !(items_events(items)[0] is ParaEnd),
        !(items_events(items)[0] is ParaStart),
{
    let fi = item_events(items[0]);
    assert(items_events(items)[0] == fi[0]);
    match items[0] {
        Item::Inline(e) => {
            assert(is_inline(e));
        },
        Item::Image(link, interior) => {},
    }
}

/// A prefix free of paragraph starts neither helps nor harms the rest of the
/// stream: the transformer's lookahead never engages inside it.
proof fn lemma_stream_ok_skips_prefix(p: Seq<EventView>, rest: Seq<EventView>)
    requires
        forall|k: int| 0 <= k < p.len() ==> !(p[k] is ParaStart),
    ensures
        stream_ok(p + rest) == stream_ok(rest),
    decreases p.len(),
{
    if p.len() == 0 {
        assert_seqs_equal!(p + rest == rest);
    } else {
        let s = p + rest;
        assert(!(s[0] is ParaStart));
        assert(group_ok(s));
        assert(group_len(s) == 1);
        assert_seqs_equal!(s.skip(1) == p.skip(1) + rest);
        lemma_stream_ok_skips_prefix(p.skip(1), rest);
    }
}

/// One free item at the front of the stream passes through verbatim.
proof fn lemma_free_step(it: Item, restev: Seq<EventView>)
    requires
        item_ok(it),
    ensures
        normalize(item_events(it) + restev) == item_events(it) + normalize(restev),
        stream_ok(item_events(it) + restev) == stream_ok(restev),
{
    lemma_item_events_no_para(it);
    lemma_normalize_skips_prefix(item_events(it), restev);
    lemma_stream_ok_skips_prefix(item_events(it), restev);
}

/// One paragraph at the front of the stream is unwrapped exactly when its
/// whole content is a single image, and passes through verbatim otherwise.
#[verifier::rlimit(60)]
proof fn lemma_para_step(items: Seq<Item>, restev: Seq<EventView>)
    requires
        forall|k: int| 0 <= k < items.len() ==> item_ok(items[k]),
    ensures
        normalize(block_events(Block::Para(items)) + restev) == block_events(
            unwrap_block(Block::Para(items)),
        ) + normalize(restev),
        stream_ok(restev) ==> stream_ok(block_events(Block::Para(items)) + restev),
{
    let b = Block::Para(items);
    let flat = items_events(items);
    let s = block_events(b) + restev;
    lemma_items_events_no_para(items);
    assert(s.len() == 2 + flat.len() + restev.len());
    assert(s[0] is ParaStart);
    if items.len() == 0 {
        assert(flat.len() == 0);
        assert(s[1] is ParaEnd);
        assert(!(s[1] is ImgStart));
        assert(group_ok(s));
        assert(group_len(s) == 2);
        assert_seqs_equal!(group_out(s) == block_events(b));
        assert_seqs_equal!(s.skip(2) == restev);
        assert(unwrap_block(b) == b);
    } else if items[0] is Inline {
        lemma_items_events_front(items);
        assert(s[1] == flat[0]);
        assert(!(s[1] is ImgStart) && !(s[1] is ParaEnd));
        assert(group_ok(s));
        assert(group_len(s) == 2);
        assert_seqs_equal!(group_out(s) == s.subrange(0, 2));
        let tail = flat.skip(1) + seq![EventView::ParaEnd];
        assert_seqs_equal!(s.skip(2) == tail + restev);
        assert(forall|k: int| 0 <= k < tail.len() ==> !(tail[k] is ParaStart));
        lemma_normalize_skips_prefix(tail, restev);
        lemma_stream_ok_skips_prefix(tail, restev);
        assert(unwrap_block(b) == b);
        assert_seqs_equal!(s.subrange(0, 2) + tail == block_events(b));
        assert_seqs_equal!(normalize(s) == block_events(b) + normalize(restev));
    } else {
        let link = items[0]->Image_0;
        let interior = items[0]->Image_1;
        let fi = item_events(items[0]);
        assert(fi == seq![EventView::ImgStart(link)] + interior + seq![EventView::ImgEnd]);
        let lenfi = fi.len() as int;
        assert(lenfi == interior.len() + 2);
        assert(flat == fi + items_events(items.skip(1)));
        assert(s[1] == flat[0]);
        assert(flat[0] == fi[0]);
        assert(s[1] is ImgStart);
        // the first image end tag in the stream closes this image
        assert(item_ok(items[0]));
        assert forall|m: int| 2 <= m < lenfi implies !(s[m] is ImgEnd) by {
            assert(s[m] == flat[m - 1]);
            assert(flat[m - 1] == fi[m - 1]);
            assert(fi[m - 1] == interior[m - 2]);
            assert(is_inline(interior[m - 2]));
        }
        assert(s[lenfi] == flat[lenfi - 1]);
        assert(flat[lenfi - 1] == fi[lenfi - 1]);
        assert(s[lenfi] is ImgEnd);
        lemma_first_img_end_at(s, 2, lenfi);
        let j = first_img_end_from(s, 2);
        assert(j == lenfi);
        if items.len() == 1 {
            // the paragraph wraps exactly this image: unwrap it
            assert_seqs_equal!(flat == fi);
            assert(s[j + 1] == EventView::ParaEnd);
            assert(group_ok(s));
            assert(group_len(s) == j + 2);
            assert_seqs_equal!(group_out(s) == fi);
            assert_seqs_equal!(s.skip(j + 2) == restev);
            assert(unwrap_block(b) == Block::Free(items[0]));
            assert_seqs_equal!(normalize(s) == fi + normalize(restev));
        } else {
            // the paragraph holds more than the image: kept as is
            let tf = items_events(items.skip(1));
            assert(forall|k: int| 0 <= k < items.skip(1).len() ==> item_ok(items.skip(1)[k]));
            lemma_items_events_front(items.skip(1));
            assert(tf.len() > 0);
            assert(s[j + 1] == flat[j]);
            assert(flat[j] == tf[0]);
            assert(!(s[j + 1] is ParaEnd));
            assert(group_ok(s));
            assert(group_len(s) == j + 2);
            assert_seqs_equal!(group_out(s) == s.subrange(0, j + 2));
            let tail = tf.skip(1) + seq![EventView::ParaEnd];
            assert_seqs_equal!(s.skip(j + 2) == tail + restev);
            lemma_items_events_no_para(items.skip(1));
            assert(forall|k: int| 0 <= k < tail.len() ==> !(tail[k] is ParaStart));
            lemma_normalize_skips_prefix(tail, restev);
            lemma_stream_ok_skips_prefix(tail, restev);
            assert(unwrap_block(b) == b);
            assert_seqs_equal!(s.subrange(0, j + 2) + tail == block_events(b));
            assert_seqs_equal!(normalize(s) == block_events(b) + normalize(restev));
        }
    }
}

/// Running the transformer over the events of a well-formed document never
/// exhausts the lookahead, and rewrites the stream exactly as the
/// block-by-block unwrapping does.
pub proof fn lemma_normalize_doc_events(d: Seq<Block>)
    requires
        doc_ok(d),
    ensures
        stream_ok(doc_events(d)),
        normalize(doc_events(d)) == doc_events(normalize_doc(d)),
    decreases d.len(),
{
    if d.len() == 0 {
        assert(normalize_doc(d).len() == 0);
        assert_seqs_equal!(normalize(doc_events(d)) == doc_events(normalize_doc(d)));
    } else {
        let b = d[0];
        let rest = d.skip(1);
        let restev = doc_events(rest);
        assert(block_ok(b));
        assert(doc_ok(rest));
        lemma_normalize_doc_events(rest);
        assert(normalize_doc(d)[0] == unwrap_block(b));
        assert_seqs_equal!(normalize_doc(d).skip(1) == normalize_doc(rest));
        assert(doc_events(normalize_doc(d)) == block_events(unwrap_block(b)) + doc_events(
            normalize_doc(rest),
        ));
        match b {
            Block::Free(it) => {
                lemma_free_step(it, restev);
                assert(unwrap_block(b) == b);
            },
            Block::Para(items) => {
                lemma_para_step(items, restev);
            },
        }
        assert_seqs_equal!(normalize(doc_events(d)) == doc_events(normalize_doc(d)));
    }
}

/// On a well-formed document with no paragraph wrapping exactly one bare
/// image, the transformer is the identity: output equals input, order and
/// content preserved.
pub proof fn lemma_unchanged_without_bare_images(d: Seq<Block>)
    requires
        doc_ok(d),
        forall|k: int| 0 <= k < d.len() ==> !is_bare_image_para(d[k]),
    ensures
        stream_ok(doc_events(d)),
        normalize(doc_events(d)) == doc_events(d),
{
    lemma_normalize_doc_events(d);
    assert forall|k: int| 0 <= k < d.len() implies normalize_doc(d)[k] == d[k] by {
        assert(!is_bare_image_para(d[k]));
    }
    assert_seqs_equal!(normalize_doc(d) == d);
}

/// Unwrapping leaves a well-formed document with no bare-image paragraphs
/// left to strip.
proof fn lemma_normalize_doc_shape(d: Seq<Block>)
    requires
        doc_ok(d),
    ensures
        doc_ok(normalize_doc(d)),
        forall|k: int| 0 <= k < normalize_doc(d).len() ==> !is_bare_image_para(normalize_doc(d)[k]),
{
    assert forall|k: int| 0 <= k < normalize_doc(d).len() implies block_ok(normalize_doc(d)[k])
        && !is_bare_image_para(normalize_doc(d)[k]) by {
        assert(block_ok(d[k]));
        match d[k] {
            Block::Para(items) => {
                if items.len() == 1 && items[0] is Image {
                    assert(item_ok(items[0]));
                }
            },
            _ => {},
        }
    }
}

/// Re-running the transformer on its own output changes nothing: once every
/// single-image paragraph is unwrapped, none remain to strip.
pub proof fn lemma_normalize_idempotent(d: Seq<Block>)
    requires
        doc_ok(d),
    ensures
        stream_ok(normalize(doc_events(d))),
        normalize(normalize(doc_events(d))) == normalize(doc_events(d)),
{
    lemma_normalize_doc_events(d);
    lemma_normalize_doc_shape(d);
    lemma_unchanged_without_bare_images(normalize_doc(d));
}

} // verus!
