use vstd::prelude::*;
use std::collections::VecDeque;
use vstd::string::StringSliceAdditionalSpecFns;
use crate::data::{message_height, payload_text, Data};
use crate::text::{newline_count, slice_bytes, str_width, display_width, wrapped_text};
use crate::overlay::{
    key_of, lemma_filter_keys_members, filter_keys, measured_outcome, range_ok, ref_key, DisplayedGlyph, EmoteOverlayManager,
    GlyphRef, PlaceError,
};
use crate::store::MessageStore;

verus! {

/// One physical row of the chat panel: line `line` of record `source`, or a
/// blank padding row when `source` is `None`.
#[derive(Clone, Copy, Debug, PartialEq, Eq)]
pub struct Row {
    pub source: Option<usize>,
    pub line: usize,
}

pub open spec fn blank_row() -> Row {
    Row { source: None, line: 0 }
}

/// Lines `start .. start + len` of record `src`.
pub open spec fn block(src: int, start: int, len: int) -> Seq<Row> {
    Seq::new(len as nat, |t: int| Row { source: Some(src as usize), line: (start + t) as usize })
}

/// The height of each record at wrap width `limit`, oldest first.
pub open spec fn heights(msgs: Seq<Data>, limit: usize) -> Seq<usize> {
    Seq::new(msgs.len(), |i: int| message_height(msgs[i], limit))
}

pub open spec fn total_height(hs: Seq<usize>) -> nat
    decreases hs.len(),
{
    if hs.len() == 0 {
        0
    } else {
        total_height(hs.drop_last()) + hs.last() as nat
    }
}

/// Bottom-up fill of `room` rows from records of heights `hs` (oldest
/// first), after passing over the newest `skip` rows; padded at the top with
/// blank rows when the records run out.
pub open spec fn fill_rows(hs: Seq<usize>, skip: int, room: int) -> Seq<Row>
    decreases hs.len(),
{
    if hs.len() == 0 {
        Seq::new(room as nat, |t: int| blank_row())
    } else {
        let i = hs.len() - 1;
        let h = hs.last() as int;
        if skip >= h {
            fill_rows(hs.drop_last(), skip - h, room)
        } else {
            let v = if h - skip < room { h - skip } else { room };
            fill_rows(hs.drop_last(), 0, room - v) + block(i, h - skip - v, v)
        }
    }
}

/// A record with at least one line on screen: its index, its first line on
/// screen, how many of its lines are on screen, and the row of the first.
pub type Span4 = (usize, usize, usize, usize);

/// The records that `fill_rows` puts on screen, oldest first, each with the
/// lines of it that are visible and where they start.
pub open spec fn visible(hs: Seq<usize>, skip: int, room: int) -> Seq<Span4>
    decreases hs.len(),
{
    if hs.len() == 0 {
        Seq::empty()
    } else {
        let i = hs.len() - 1;
        let h = hs.last() as int;
        if skip >= h {
            visible(hs.drop_last(), skip - h, room)
        } else {
            let v = if h - skip < room { h - skip } else { room };
            let before = visible(hs.drop_last(), 0, room - v);
            if v > 0 {
                before.push((i as usize, (h - skip - v) as usize, v as usize, (room - v) as usize))
            } else {
                before
            }
        }
    }
}

/// Where byte `b.len()` stands: the start of its line within `b`.
pub open spec fn line_start(b: Seq<u8>) -> int
    decreases b.len(),
{
    if b.len() == 0 {
        0
    } else if b.last() == 10u8 {
        b.len() as int
    } else {
        line_start(b.drop_last())
    }
}

pub open spec fn no_newline(b: Seq<u8>) -> bool {
    forall|k: int| 0 <= k < b.len() ==> b[k] != 10u8
}

/// What becomes of glyph `g` of a record whose wrapped text has the bytes
/// `wb`, when lines `lo .. lo + v` of it are on screen from row `top`.
/// `None`: nothing is tried (overlays are off, or the glyph's line is not on
/// screen). Otherwise the outcome of placing it on its own line, with its
/// columns measured from the start of that line.
pub open spec fn line_outcome(
    enabled: bool,
    s: Seq<DisplayedGlyph>,
    wb: Seq<u8>,
    g: GlyphRef,
    lo: usize,
    v: usize,
    top: usize,
    available_width: usize,
    margin: usize,
) -> Option<Result<DisplayedGlyph, PlaceError>> {
    if !enabled {
        None
    } else if !range_ok(wb, g) {
        Some(Err(PlaceError::MalformedRange))
    } else {
        let pre = wb.subrange(0, g.byte_start as int);
        let l = newline_count(pre) as int;
        let ls = line_start(pre);
        if l < lo || l >= lo + v {
            None
        } else if !no_newline(wb.subrange(g.byte_start as int, g.byte_end as int))
            || !vstd::utf8::is_char_boundary(wb, ls) {
            Some(Err(PlaceError::MalformedRange))
        } else {
            Some(
                measured_outcome(
                    enabled,
                    s,
                    g,
                    (top + l - lo) as usize,
                    display_width(wb.subrange(ls, g.byte_start as int)) as int,
                    display_width(wb.subrange(g.byte_start as int, g.byte_end as int)) as int,
                    available_width,
                    margin,
                ),
            )
        }
    }
}

pub open spec fn after_outcome(
    s: Seq<DisplayedGlyph>,
    g: GlyphRef,
    o: Option<Result<DisplayedGlyph, PlaceError>>,
) -> Seq<DisplayedGlyph> {
    match o {
        Some(Ok(d)) => filter_keys(s, set![ref_key(g)], false).push(d),
        _ => s,
    }
}

/// The drawn set after trying each of `gs` in order on the visible lines.
pub open spec fn place_lines(
    s: Seq<DisplayedGlyph>,
    enabled: bool,
    wb: Seq<u8>,
    gs: Seq<GlyphRef>,
    lo: usize,
    v: usize,
    top: usize,
    available_width: usize,
    margin: usize,
) -> Seq<DisplayedGlyph>
    decreases gs.len(),
{
    if gs.len() == 0 {
        s
    } else {
        let st = place_lines(s, enabled, wb, gs.drop_last(), lo, v, top, available_width, margin);
        after_outcome(
            st,
            gs.last(),
            line_outcome(enabled, st, wb, gs.last(), lo, v, top, available_width, margin),
        )
    }
}

/// The glyphs among `gs` that were tried and not drawn, with the reason.
pub open spec fn line_failures(
    s: Seq<DisplayedGlyph>,
    enabled: bool,
    wb: Seq<u8>,
    gs: Seq<GlyphRef>,
    lo: usize,
    v: usize,
    top: usize,
    available_width: usize,
    margin: usize,
) -> Seq<(GlyphRef, PlaceError)>
    decreases gs.len(),
{
    if gs.len() == 0 {
        Seq::empty()
    } else {
        let before = line_failures(s, enabled, wb, gs.drop_last(), lo, v, top, available_width, margin);
        let st = place_lines(s, enabled, wb, gs.drop_last(), lo, v, top, available_width, margin);
        match line_outcome(enabled, st, wb, gs.last(), lo, v, top, available_width, margin) {
            Some(Err(e)) => before.push((gs.last(), e)),
            _ => before,
        }
    }
}

/// The wrapped text of a record, as bytes.
pub open spec fn wrapped_bytes(d: Data, limit: usize) -> Seq<u8> {
    vstd::utf8::encode_utf8(wrapped_text(payload_text(d.payload), limit))
}

/// The drawn set after trying the glyphs of each record listed in `vis`.
pub open spec fn place_records(
    s: Seq<DisplayedGlyph>,
    enabled: bool,
    msgs: Seq<Data>,
    vis: Seq<Span4>,
    limit: usize,
    available_width: usize,
    margin: usize,
) -> Seq<DisplayedGlyph>
    decreases vis.len(),
{
    if vis.len() == 0 {
        s
    } else {
        let (i, lo, v, top) = vis.last();
        place_lines(
            place_records(s, enabled, msgs, vis.drop_last(), limit, available_width, margin),
            enabled,
            wrapped_bytes(msgs[i as int], limit),
            msgs[i as int].glyphs@,
            lo,
            v,
            top,
            available_width,
            margin,
        )
    }
}

/// The glyphs that `place_records` tried and could not draw, with the reason.
pub open spec fn record_failures(
    s: Seq<DisplayedGlyph>,
    enabled: bool,
    msgs: Seq<Data>,
    vis: Seq<Span4>,
    limit: usize,
    available_width: usize,
    margin: usize,
) -> Seq<(GlyphRef, PlaceError)>
    decreases vis.len(),
{
    if vis.len() == 0 {
        Seq::empty()
    } else {
        let (i, lo, v, top) = vis.last();
        record_failures(s, enabled, msgs, vis.drop_last(), limit, available_width, margin)
            + line_failures(
            place_records(s, enabled, msgs, vis.drop_last(), limit, available_width, margin),
            enabled,
            wrapped_bytes(msgs[i as int], limit),
            msgs[i as int].glyphs@,
            lo,
            v,
            top,
            available_width,
            margin,
        )
    }
}

/// The fill always yields exactly `room` rows.
pub proof fn lemma_fill_len(hs: Seq<usize>, skip: int, room: int)
    requires
        skip >= 0,
        room >= 0,
    ensures
        fill_rows(hs, skip, room).len() == room,
    decreases hs.len(),
{
    if hs.len() > 0 {
        let h = hs.last() as int;
        if skip >= h {
            lemma_fill_len(hs.drop_last(), skip - h, room);
        } else {
            let v = if h - skip < room { h - skip } else { room };
            lemma_fill_len(hs.drop_last(), 0, room - v);
        }
    }
}

/// Once nothing is left to skip and no room is left, nothing more is visible.
proof fn lemma_nothing_left(hs: Seq<usize>)
    ensures
        fill_rows(hs, 0, 0) == Seq::<Row>::empty(),
        visible(hs, 0, 0) == Seq::<Span4>::empty(),
    decreases hs.len(),
{
    lemma_fill_len(hs, 0, 0);
    if hs.len() > 0 {
        lemma_nothing_left(hs.drop_last());
    }
}

/// Every record listed by `visible` is one of the records.
proof fn lemma_visible_bounds(hs: Seq<usize>, skip: int, room: int)
    requires
        hs.len() <= usize::MAX,
        skip >= 0,
        0 <= room <= usize::MAX,
    ensures
        forall|t: int|
            0 <= t < visible(hs, skip, room).len() ==> #[trigger] visible(hs, skip, room)[t].0
                < hs.len() && visible(hs, skip, room)[t].3 + visible(hs, skip, room)[t].2 <= room,
    decreases hs.len(),
{
    if hs.len() > 0 {
        let h = hs.last() as int;
        if skip >= h {
            lemma_visible_bounds(hs.drop_last(), skip - h, room);
            assert(visible(hs, skip, room) == visible(hs.drop_last(), skip - h, room));
        } else {
            let v = if h - skip < room { h - skip } else { room };
            lemma_visible_bounds(hs.drop_last(), 0, room - v);
            let before = visible(hs.drop_last(), 0, room - v);
            assert forall|t: int| 0 <= t < visible(hs, skip, room).len() implies #[trigger] visible(
                hs,
                skip,
                room,
            )[t].0 < hs.len() && visible(hs, skip, room)[t].3 + visible(hs, skip, room)[t].2
                <= room by {
                if v > 0 {
                    assert(visible(hs, skip, room) == before.push(
                        ((hs.len() - 1) as usize, (h - skip - v) as usize, v as usize, (room - v) as usize),
                    ));
                    if t < before.len() {
                        assert(visible(hs, skip, room)[t] == before[t]);
                    }
                } else {
                    assert(visible(hs, skip, room) == before);
                }
            }
        }
    }
}

/// Scrolling past exactly the rows of the newest record shows the older
/// records just as an unscrolled panel without that record would, and never
/// lists the newest record as visible, so none of its glyphs stays drawn
/// unless an older visible record has the same key.
pub proof fn lemma_scroll_one_record(hs: Seq<usize>, room: int)
    requires
        hs.len() > 0,
        hs.len() <= usize::MAX,
        0 <= room <= usize::MAX,
    ensures
        fill_rows(hs, hs.last() as int, room) == fill_rows(hs.drop_last(), 0, room),
        visible(hs, hs.last() as int, room) == visible(hs.drop_last(), 0, room),
        forall|t: int|
            0 <= t < visible(hs, hs.last() as int, room).len() ==> #[trigger] visible(
                hs,
                hs.last() as int,
                room,
            )[t].0 < hs.len() - 1,
{
    lemma_visible_bounds(hs.drop_last(), 0, room);
}

/// Every glyph in `s` ends within `available_width - margin`.
pub open spec fn all_fit(s: Seq<DisplayedGlyph>, available_width: usize, margin: usize) -> bool {
    forall|i: int| 0 <= i < s.len() ==> #[trigger] s[i].col_start + s[i].col_span + margin <= available_width
}

proof fn lemma_place_lines_fit(
    s: Seq<DisplayedGlyph>,
    enabled: bool,
    wb: Seq<u8>,
    gs: Seq<GlyphRef>,
    lo: usize,
    v: usize,
    top: usize,
    available_width: usize,
    margin: usize,
)
    requires
        all_fit(s, available_width, margin),
    ensures
        all_fit(place_lines(s, enabled, wb, gs, lo, v, top, available_width, margin), available_width, margin),
    decreases gs.len(),
{
    if gs.len() > 0 {
        lemma_place_lines_fit(s, enabled, wb, gs.drop_last(), lo, v, top, available_width, margin);
        let st = place_lines(s, enabled, wb, gs.drop_last(), lo, v, top, available_width, margin);
        let o = line_outcome(enabled, st, wb, gs.last(), lo, v, top, available_width, margin);
        if o is Some && o->Some_0 is Ok {
            let ks = set![ref_key(gs.last())];
            let f = filter_keys(st, ks, false);
            let r = f.push(o->Some_0->Ok_0);
            assert forall|i: int| 0 <= i < r.len() implies #[trigger] r[i].col_start + r[i].col_span + margin
                <= available_width by {
                if i < f.len() {
                    lemma_filter_keys_members(st, ks, false, i);
                    let a = choose|a: int| 0 <= a < st.len() && st[a] == f[i];
                    assert(r[i] == st[a]);
                }
            }
        }
    }
}

proof fn lemma_place_records_fit(
    s: Seq<DisplayedGlyph>,
    enabled: bool,
    msgs: Seq<Data>,
    vis: Seq<Span4>,
    limit: usize,
    available_width: usize,
    margin: usize,
)
    requires
        all_fit(s, available_width, margin),
    ensures
        all_fit(place_records(s, enabled, msgs, vis, limit, available_width, margin), available_width, margin),
    decreases vis.len(),
{
    if vis.len() > 0 {
        lemma_place_records_fit(s, enabled, msgs, vis.drop_last(), limit, available_width, margin);
        let (i, lo, v, top) = vis.last();
        lemma_place_lines_fit(
            place_records(s, enabled, msgs, vis.drop_last(), limit, available_width, margin),
            enabled,
            wrapped_bytes(msgs[i as int], limit),
            msgs[i as int].glyphs@,
            lo,
            v,
            top,
            available_width,
            margin,
        );
    }
}

/// No glyph that a layout draws runs past `available_width - margin`: a
/// glyph too wide for that is never drawn.
pub proof fn lemma_drawn_glyphs_fit(
    enabled: bool,
    msgs: Seq<Data>,
    vis: Seq<Span4>,
    limit: usize,
    available_width: usize,
    margin: usize,
)
    ensures
        all_fit(
            place_records(Seq::empty(), enabled, msgs, vis, limit, available_width, margin),
            available_width,
            margin,
        ),
{
    lemma_place_records_fit(Seq::empty(), enabled, msgs, vis, limit, available_width, margin);
}

proof fn lemma_place_lines_absent(
    s: Seq<DisplayedGlyph>,
    enabled: bool,
    wb: Seq<u8>,
    gs: Seq<GlyphRef>,
    lo: usize,
    v: usize,
    top: usize,
    available_width: usize,
    margin: usize,
    k: (u32, u32),
)
    requires
        forall|i: int| 0 <= i < s.len() ==> key_of(#[trigger] s[i]) != k,
        forall|i: int| 0 <= i < gs.len() ==> ref_key(#[trigger] gs[i]) != k,
    ensures
        forall|i: int|
            0 <= i < place_lines(s, enabled, wb, gs, lo, v, top, available_width, margin).len()
                ==> key_of(#[trigger] place_lines(s, enabled, wb, gs, lo, v, top, available_width, margin)[i]) != k,
    decreases gs.len(),
{
    if gs.len() > 0 {
        lemma_place_lines_absent(s, enabled, wb, gs.drop_last(), lo, v, top, available_width, margin, k);
        let st = place_lines(s, enabled, wb, gs.drop_last(), lo, v, top, available_width, margin);
        let o = line_outcome(enabled, st, wb, gs.last(), lo, v, top, available_width, margin);
        assert(ref_key(gs[gs.len() - 1]) != k);
        if o is Some && o->Some_0 is Ok {
            let ks = set![ref_key(gs.last())];
            let f = filter_keys(st, ks, false);
            let r = f.push(o->Some_0->Ok_0);
            assert forall|i: int| 0 <= i < r.len() implies key_of(#[trigger] r[i]) != k by {
                if i < f.len() {
                    lemma_filter_keys_members(st, ks, false, i);
                    let a = choose|a: int| 0 <= a < st.len() && st[a] == f[i];
                    assert(r[i] == st[a]);
                }
            }
        }
    }
}

proof fn lemma_place_records_absent(
    s: Seq<DisplayedGlyph>,
    enabled: bool,
    msgs: Seq<Data>,
    vis: Seq<Span4>,
    limit: usize,
    available_width: usize,
    margin: usize,
    k: (u32, u32),
)
    requires
        forall|i: int| 0 <= i < s.len() ==> key_of(#[trigger] s[i]) != k,
        forall|u: int| 0 <= u < vis.len() ==> #[trigger] vis[u].0 < msgs.len(),
        forall|u: int, g: int|
            0 <= u < vis.len() && 0 <= g < msgs[vis[u].0 as int].glyphs@.len() ==> ref_key(
                #[trigger] msgs[vis[u].0 as int].glyphs@[g],
            ) != k,
    ensures
        forall|i: int|
            0 <= i < place_records(s, enabled, msgs, vis, limit, available_width, margin).len()
                ==> key_of(#[trigger] place_records(s, enabled, msgs, vis, limit, available_width, margin)[i]) != k,
    decreases vis.len(),
{
    if vis.len() > 0 {
        let last = vis.len() - 1;
        assert forall|u: int| 0 <= u < vis.drop_last().len() implies #[trigger] vis.drop_last()[u].0 < msgs.len() by {
            assert(vis.drop_last()[u] == vis[u]);
        }
        assert forall|u: int, g: int|
            0 <= u < vis.drop_last().len() && 0 <= g < msgs[vis.drop_last()[u].0 as int].glyphs@.len() implies ref_key(
            #[trigger] msgs[vis.drop_last()[u].0 as int].glyphs@[g],
        ) != k by {
            assert(vis.drop_last()[u] == vis[u]);
        }
        lemma_place_records_absent(s, enabled, msgs, vis.drop_last(), limit, available_width, margin, k);
        let (i, lo, v, top) = vis.last();
        assert(vis[last].0 < msgs.len());
        let gs = msgs[i as int].glyphs@;
        assert forall|g: int| 0 <= g < gs.len() implies ref_key(#[trigger] gs[g]) != k by {
            assert(msgs[vis[last].0 as int].glyphs@[g] == gs[g]);
        }
        lemma_place_lines_absent(
            place_records(s, enabled, msgs, vis.drop_last(), limit, available_width, margin),
            enabled,
            wrapped_bytes(msgs[i as int], limit),
            gs,
            lo,
            v,
            top,
            available_width,
            margin,
            k,
        );
    }
}

/// Scrolling past exactly the rows of the newest record leaves none of its
/// glyphs drawn, when no older record has a glyph with the same key.
pub proof fn lemma_scrolled_record_hidden(
    enabled: bool,
    msgs: Seq<Data>,
    limit: usize,
    height: usize,
    available_width: usize,
    margin: usize,
    g: int,
)
    requires
        0 < msgs.len() <= usize::MAX,
        0 <= g < msgs.last().glyphs@.len(),
        forall|j: int, h: int|
            0 <= j < msgs.len() - 1 && 0 <= h < msgs[j].glyphs@.len() ==> ref_key(
                #[trigger] msgs[j].glyphs@[h],
            ) != ref_key(msgs.last().glyphs@[g]),
    ensures
        forall|i: int|
            0 <= i < place_records(
                Seq::empty(),
                enabled,
                msgs,
                visible(heights(msgs, limit), message_height(msgs.last(), limit) as int, height as int),
                limit,
                available_width,
                margin,
            ).len() ==> key_of(
                #[trigger] place_records(
                    Seq::empty(),
                    enabled,
                    msgs,
                    visible(heights(msgs, limit), message_height(msgs.last(), limit) as int, height as int),
                    limit,
                    available_width,
                    margin,
                )[i],
            ) != ref_key(msgs.last().glyphs@[g]),
{
    let hs = heights(msgs, limit);
    assert(hs.last() == message_height(msgs.last(), limit));
    lemma_scroll_one_record(hs, height as int);
    let vis = visible(hs, message_height(msgs.last(), limit) as int, height as int);
    let k = ref_key(msgs.last().glyphs@[g]);
    assert forall|u: int| 0 <= u < vis.len() implies #[trigger] vis[u].0 < msgs.len() by {
        assert(vis[u].0 < hs.len() - 1);
    }
    assert forall|u: int, h: int|
        0 <= u < vis.len() && 0 <= h < msgs[vis[u].0 as int].glyphs@.len() implies ref_key(
        #[trigger] msgs[vis[u].0 as int].glyphs@[h],
    ) != k by {
        assert(vis[u].0 < hs.len() - 1);
    }
    lemma_place_records_absent(Seq::empty(), enabled, msgs, vis, limit, available_width, margin, k);
}

/// When all records fit, the rows are blank padding on top of every line of
/// every record, none of which is blank: the content stays at the bottom.
pub proof fn lemma_bottom_anchored(hs: Seq<usize>, room: int)
    requires
        total_height(hs) <= room,
    ensures
        fill_rows(hs, 0, room) == Seq::new((room - total_height(hs)) as nat, |t: int| blank_row())
            + fill_rows(hs, 0, total_height(hs) as int),
        forall|t: int|
            0 <= t < total_height(hs) ==> (#[trigger] fill_rows(hs, 0, total_height(hs) as int)[t]).source is Some,
    decreases hs.len(),
{
    if hs.len() > 0 {
        let rest = hs.drop_last();
        let h = hs.last() as int;
        let tot = total_height(hs) as int;
        lemma_bottom_anchored(rest, room - h);
        lemma_bottom_anchored(rest, total_height(rest) as int);
        lemma_fill_len(rest, 0, total_height(rest) as int);
        if h == 0 {
            assert(fill_rows(hs, 0, room) == fill_rows(rest, 0, room));
            lemma_bottom_anchored(rest, room);
        } else {
            let b = block(hs.len() - 1, 0, h);
            let pad = Seq::new((room - tot) as nat, |t: int| blank_row());
            assert(fill_rows(hs, 0, room) == fill_rows(rest, 0, room - h) + b);
            assert(fill_rows(hs, 0, tot) == fill_rows(rest, 0, total_height(rest) as int) + b);
            assert(pad + (fill_rows(rest, 0, total_height(rest) as int) + b) =~= (pad
                + fill_rows(rest, 0, total_height(rest) as int)) + b);
            assert forall|t: int|
                0 <= t < tot implies (#[trigger] fill_rows(hs, 0, tot)[t]).source is Some by {
                if t >= total_height(rest) {
                    assert(fill_rows(hs, 0, tot)[t] == b[t - total_height(rest)]);
                } else {
                    assert(fill_rows(hs, 0, tot)[t] == fill_rows(rest, 0, total_height(rest) as int)[t]);
                }
            }
        }
    }
}

/// The height of every record of `store`, oldest first.
fn record_heights(store: &MessageStore, limit: usize) -> (r: Vec<usize>)
    ensures
        r@ == heights(store.messages@, limit),
{
    let mut hs: Vec<usize> = Vec::new();
    let mut i: usize = 0;
    while i < store.messages.len()
        invariant
            i <= store.messages@.len(),
            hs@.len() == i,
            forall|t: int| 0 <= t < i ==> hs@[t] == message_height(store.messages@[t], limit),
        decreases store.messages@.len() - i,
    {
        let h = match store.messages[i].row_height(limit) {
            Some(h) => h,
            None => 0,
        };
        hs.push(h);
        i = i + 1;
    }
    assert(hs@ =~= heights(store.messages@, limit));
    hs
}

/// Bottom-up fill over record heights `hs` (oldest first): the `height`
/// rows after passing over the newest `scroll_offset` rows, and the records
/// visible whole with their top rows.
pub fn fill_layout(hs: &Vec<usize>, height: usize, scroll_offset: usize) -> (r: (
    VecDeque<Row>,
    VecDeque<Span4>,
))
    ensures
        r.0@ == fill_rows(hs@, scroll_offset as int, height as int),
        r.1@ == visible(hs@, scroll_offset as int, height as int),
        forall|t: int| 0 <= t < r.1@.len() ==> #[trigger] r.1@[t].0 < hs@.len(),
{
    let ghost all = hs@;
    let ghost full_rows = fill_rows(all, scroll_offset as int, height as int);
    let ghost full_visible = visible(all, scroll_offset as int, height as int);
    let n = hs.len();
    let mut rows: VecDeque<Row> = VecDeque::new();
    let mut visible_v: VecDeque<Span4> = VecDeque::new();
    let mut skip: usize = scroll_offset;
    let mut room: usize = height;
    let mut i: usize = n;
    assert(all.subrange(0, n as int) =~= all);
    while i > 0
        invariant
            i <= n,
            n == all.len(),
            hs@ == all,
            fill_rows(all.subrange(0, i as int), skip as int, room as int) + rows@ == full_rows,
            visible(all.subrange(0, i as int), skip as int, room as int) + visible_v@ == full_visible,
        ensures
            i <= n,
            hs@ == all,
            fill_rows(all.subrange(0, i as int), skip as int, room as int) + rows@ == full_rows,
            visible(all.subrange(0, i as int), skip as int, room as int) + visible_v@ == full_visible,
            i == 0 || (skip == 0 && room == 0),
        decreases i,
    {
        if skip == 0 && room == 0 {
            break;
        }
        let h = hs[i - 1];
        let ghost pre = all.subrange(0, i as int);
        let ghost rest = all.subrange(0, i as int - 1);
        assert(pre.drop_last() =~= rest);
        assert(pre.last() == h);
        if skip >= h {
            skip = skip - h;
        } else {
            let avail = h - skip;
            let v = if avail < room { avail } else { room };
            let lo = avail - v;
            let ghost rows0 = rows@;
            let mut k: usize = v;
            assert(block(i - 1, lo + v, 0) =~= Seq::<Row>::empty());
            assert(Seq::<Row>::empty() + rows0 =~= rows0);
            while k > 0
                invariant
                    k <= v,
                    i >= 1,
                    lo + v <= usize::MAX,
                    rows@ == block(i - 1, lo + k, v - k) + rows0,
                decreases k,
            {
                k = k - 1;
                rows.push_front(Row { source: Some(i - 1), line: lo + k });
                assert(seq![Row { source: Some((i - 1) as usize), line: (lo + k) as usize }] + (
                block(i - 1, lo + k + 1, v - k - 1) + rows0) =~= block(i - 1, lo + k, v - k)
                    + rows0);
            }
            assert(fill_rows(pre, skip as int, room as int) == fill_rows(rest, 0, room - v) + block(
                i - 1,
                lo as int,
                v as int,
            ));
            assert((fill_rows(rest, 0, room - v) + block(i - 1, lo as int, v as int)) + rows0
                =~= fill_rows(rest, 0, room - v) + (block(i - 1, lo as int, v as int) + rows0));
            let ghost sh_before = visible(rest, 0, room - v);
            if v > 0 {
                let ghost old_sh = visible_v@;
                visible_v.push_front((i - 1, lo, v, room - v));
                assert(sh_before.push(((i - 1) as usize, lo as usize, v as usize, (room - v) as usize))
                    + old_sh =~= sh_before + visible_v@);
            }
            skip = 0;
            room = room - v;
        }
        i = i - 1;
    }
    if i > 0 {
        proof {
            lemma_nothing_left(all.subrange(0, i as int));
            assert(Seq::<Row>::empty() + rows@ =~= rows@);
            assert(Seq::<Span4>::empty() + visible_v@ =~= visible_v@);
        }
    }
    let ghost rows1 = rows@;
    if i == 0 {
        assert(all.subrange(0, 0) =~= Seq::<usize>::empty());
        let mut p: usize = room;
        assert(Seq::new(0, |t: int| blank_row()) + rows1 =~= rows1);
        while p > 0
            invariant
                p <= room,
                rows@ == Seq::new((room - p) as nat, |t: int| blank_row()) + rows1,
            decreases p,
        {
            p = p - 1;
            rows.push_front(Row { source: None, line: 0 });
            assert(seq![blank_row()] + (Seq::new((room - p - 1) as nat, |t: int| blank_row())
                + rows1) =~= Seq::new((room - p) as nat, |t: int| blank_row()) + rows1);
        }
        assert(Seq::<Span4>::empty() + visible_v@ =~= visible_v@);
    }
    assert(visible_v@ == full_visible);
    assert(rows@ == full_rows);
    proof {
        lemma_visible_bounds(all, scroll_offset as int, height as int);
    }
    (rows, visible_v)
}

/// Tries to draw glyph `g` of a record whose wrapped text is `w`, when lines
/// `lo .. lo + v` of it are on screen from row `top`: on its own line, with
/// its columns measured from the start of that line.
pub fn place_on_lines(
    overlay: &mut EmoteOverlayManager,
    g: &GlyphRef,
    w: &str,
    lo: usize,
    v: usize,
    top: usize,
    available_width: usize,
    margin: usize,
) -> (r: Option<Result<DisplayedGlyph, PlaceError>>)
    requires
        top + v <= usize::MAX,
    ensures
        r == line_outcome(
            old(overlay).enabled,
            old(overlay).displayed@,
            w.spec_bytes(),
            *g,
            lo,
            v,
            top,
            available_width,
            margin,
        ),
        final(overlay).displayed@ == after_outcome(old(overlay).displayed@, *g, r),
        final(overlay).enabled == old(overlay).enabled,
        old(overlay).wf() ==> final(overlay).wf(),
{
    if !overlay.enabled {
        return None;
    }
    let ghost wb = w.spec_bytes();
    proof {
        vstd::utf8::encode_utf8_valid_utf8(w@);
    }
    if !(g.byte_start <= g.byte_end && w.is_char_boundary(g.byte_start) && w.is_char_boundary(
        g.byte_end,
    )) {
        return Some(Err(PlaceError::MalformedRange));
    }
    let b = w.as_bytes();
    let mut nl: usize = 0;
    let mut ls: usize = 0;
    let mut j: usize = 0;
    while j < g.byte_start
        invariant
            g.byte_start <= b@.len(),
            b@ == wb,
            j <= g.byte_start,
            nl <= j,
            ls <= j,
            nl as nat == newline_count(b@.subrange(0, j as int)),
            ls as int == line_start(b@.subrange(0, j as int)),
            overlay.enabled == old(overlay).enabled,
            overlay.enabled,
            overlay.displayed@ == old(overlay).displayed@,
            w.spec_bytes() == wb,
            range_ok(wb, *g),
        decreases g.byte_start - j,
    {
        assert(b@.subrange(0, j as int + 1).drop_last() =~= b@.subrange(0, j as int));
        if b[j] == 10u8 {
            nl = nl + 1;
            ls = j + 1;
        }
        j = j + 1;
    }
    if nl < lo || nl - lo >= v {
        return None;
    }
    let mut k: usize = g.byte_start;
    while k < g.byte_end
        invariant
            g.byte_start <= k <= g.byte_end,
            g.byte_end <= b@.len(),
            b@ == wb,
            forall|t: int| g.byte_start <= t < k ==> b@[t] != 10u8,
            overlay.enabled == old(overlay).enabled,
            overlay.enabled,
            overlay.displayed@ == old(overlay).displayed@,
            w.spec_bytes() == wb,
            range_ok(wb, *g),
            nl as nat == newline_count(wb.subrange(0, g.byte_start as int)),
            ls as int == line_start(wb.subrange(0, g.byte_start as int)),
            lo <= nl,
            nl - lo < v,
        decreases g.byte_end - k,
    {
        if b[k] == 10u8 {
            assert(wb.subrange(g.byte_start as int, g.byte_end as int)[k - g.byte_start] == 10u8);
            return Some(Err(PlaceError::MalformedRange));
        }
        k = k + 1;
    }
    assert(no_newline(wb.subrange(g.byte_start as int, g.byte_end as int)));
    if !w.is_char_boundary(ls) {
        return Some(Err(PlaceError::MalformedRange));
    }
    let prefix = slice_bytes(w, ls, g.byte_start);
    let inner = slice_bytes(w, g.byte_start, g.byte_end);
    let pw = str_width(prefix);
    let sw = str_width(inner);
    Some(overlay.place_measured(g, top + (nl - lo), pw, sw, available_width, margin))
}

/// Lays out the chat panel: `height` rows, newest record at the bottom,
/// after passing over the newest `scroll_offset` rows, with each record
/// wrapped to `limit` columns. The drawn set is rebuilt from empty: each
/// glyph whose line is on screen is placed on that line, within
/// `available_width` and `margin`, where it fits. The glyphs that were tried
/// and could not be drawn come back with the reason, so the caller can warn.
pub fn layout(
    store: &MessageStore,
    overlay: &mut EmoteOverlayManager,
    height: usize,
    limit: usize,
    scroll_offset: usize,
    available_width: usize,
    margin: usize,
) -> (r: (VecDeque<Row>, Vec<(GlyphRef, PlaceError)>))
    ensures
        r.0@ == fill_rows(heights(store.messages@, limit), scroll_offset as int, height as int),
        r.1@ == record_failures(
            Seq::empty(),
            old(overlay).enabled,
            store.messages@,
            visible(heights(store.messages@, limit), scroll_offset as int, height as int),
            limit,
            available_width,
            margin,
        ),
        final(overlay).enabled == old(overlay).enabled,
        final(overlay).wf(),
        final(overlay).displayed@ == place_records(
            Seq::empty(),
            old(overlay).enabled,
            store.messages@,
            visible(heights(store.messages@, limit), scroll_offset as int, height as int),
            limit,
            available_width,
            margin,
        ),
{
    let ghost msgs = store.messages@;
    let hs = record_heights(store, limit);
    let ghost all = hs@;
    let ghost vis = visible(all, scroll_offset as int, height as int);
    let (rows, vis_v) = fill_layout(&hs, height, scroll_offset);
    let n_recs = hs.len();
    proof {
        lemma_visible_bounds(all, scroll_offset as int, height as int);
    }
    let ghost base = Seq::<DisplayedGlyph>::empty();
    let ghost en = old(overlay).enabled;
    overlay.clear();
    assert(vis.subrange(0, 0) =~= Seq::<Span4>::empty());
    let mut failures: Vec<(GlyphRef, PlaceError)> = Vec::new();
    let mut t: usize = 0;
    while t < vis_v.len()
        invariant
            vis_v@ == vis,
            t <= vis.len(),
            msgs == store.messages@,
            msgs.len() == all.len(),
            overlay.enabled == en,
            en == old(overlay).enabled,
            overlay.wf(),
            forall|u: int|
                0 <= u < vis.len() ==> #[trigger] vis[u].0 < all.len() && vis[u].3 + vis[u].2
                    <= height,
            overlay.displayed@ == place_records(
                base,
                en,
                msgs,
                vis.subrange(0, t as int),
                limit,
                available_width,
                margin,
            ),
            failures@ == record_failures(
                base,
                en,
                msgs,
                vis.subrange(0, t as int),
                limit,
                available_width,
                margin,
            ),
        decreases vis.len() - t,
    {
        let (idx, lo, v, top) = vis_v[t];
        assert(vis[t as int].0 < msgs.len() && vis[t as int].3 + vis[t as int].2 <= height);
        let rec = &store.messages[idx];
        let w = rec.wrapped(limit);
        let wt = w.as_str();
        let ghost start = overlay.displayed@;
        let ghost fail0 = failures@;
        assert(rec.glyphs@.subrange(0, 0) =~= Seq::<GlyphRef>::empty());
        assert(fail0 + Seq::<(GlyphRef, PlaceError)>::empty() =~= fail0);
        let mut u: usize = 0;
        while u < rec.glyphs.len()
            invariant
                u <= rec.glyphs@.len(),
                idx < msgs.len(),
                *rec == msgs[idx as int],
                wt.spec_bytes() == wrapped_bytes(*rec, limit),
                top + v <= height,
                overlay.enabled == en,
                overlay.wf(),
                overlay.displayed@ == place_lines(
                    start,
                    en,
                    wt.spec_bytes(),
                    rec.glyphs@.subrange(0, u as int),
                    lo,
                    v,
                    top,
                    available_width,
                    margin,
                ),
                failures@ == fail0 + line_failures(
                    start,
                    en,
                    wt.spec_bytes(),
                    rec.glyphs@.subrange(0, u as int),
                    lo,
                    v,
                    top,
                    available_width,
                    margin,
                ),
            decreases rec.glyphs@.len() - u,
        {
            let g = &rec.glyphs[u];
            let o = place_on_lines(overlay, g, wt, lo, v, top, available_width, margin);
            let ghost lf = line_failures(
                start,
                en,
                wt.spec_bytes(),
                rec.glyphs@.subrange(0, u as int),
                lo,
                v,
                top,
                available_width,
                margin,
            );
            match o {
                Some(Err(e)) => {
                    failures.push((*g, e));
                    assert((fail0 + lf).push((*g, e)) =~= fail0 + lf.push((*g, e)));
                },
                _ => {},
            }
            assert(rec.glyphs@.subrange(0, u as int + 1).drop_last() =~= rec.glyphs@.subrange(
                0,
                u as int,
            ));
            u = u + 1;
        }
        proof {
            assert(rec.glyphs@.subrange(0, rec.glyphs@.len() as int) =~= rec.glyphs@);
            assert(vis.subrange(0, t as int + 1).drop_last() =~= vis.subrange(0, t as int));
            assert(vis.subrange(0, t as int + 1).last() == vis[t as int]);
        }
        t = t + 1;
    }
    assert(vis.subrange(0, vis.len() as int) =~= vis);
    (rows, failures)
}

} // verus!
