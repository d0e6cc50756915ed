use vstd::prelude::*;
use vstd::string::StringSliceAdditionalSpecFns;
use crate::text::{display_width, str_width};

verus! {

/// An inline image reference inside a message's text.
#[derive(Clone, Copy, Debug, PartialEq, Eq, Structural)]
pub struct GlyphRef {
    pub glyph_id: u32,
    pub placement_id: u32,
    /// First byte of the text the glyph stands for.
    pub byte_start: usize,
    /// One past the last byte of that text.
    pub byte_end: usize,
}

/// A glyph that is currently drawn on screen.
#[derive(Clone, Copy, Debug, PartialEq, Eq, Structural)]
pub struct DisplayedGlyph {
    pub glyph_id: u32,
    pub placement_id: u32,
    pub row: usize,
    pub col_start: usize,
    pub col_span: usize,
}

/// Why a glyph was not drawn; the text underneath stays as plain text.
#[derive(Clone, Copy, Debug, PartialEq, Eq, Structural)]
pub enum PlaceError {
    /// Overlays are switched off.
    Disabled,
    /// The byte range is out of bounds or cuts a character.
    MalformedRange,
    /// The glyph would run past the usable width.
    TooWide,
    /// The glyph would overlap another glyph on the same row.
    Collision,
}

/// The set of glyphs currently materialized on screen.
#[derive(Debug)]
pub struct EmoteOverlayManager {
    pub enabled: bool,
    pub displayed: Vec<DisplayedGlyph>,
}

/// No two drawn glyphs overlap.
pub open spec fn no_overlaps(s: Seq<DisplayedGlyph>) -> bool {
    forall|i: int, j: int| 0 <= i < s.len() && 0 <= j < s.len() ==> !overlaps(#[trigger] s[i], #[trigger] s[j])
}

impl EmoteOverlayManager {
    /// Well-formed: each key is drawn at most once, and no two drawn glyphs
    /// overlap on a row.
    pub open spec fn wf(&self) -> bool {
        keys_unique(self.displayed@) && no_overlaps(self.displayed@)
    }
}

pub open spec fn key_of(d: DisplayedGlyph) -> (u32, u32) {
    (d.glyph_id, d.placement_id)
}

pub open spec fn ref_key(g: GlyphRef) -> (u32, u32) {
    (g.glyph_id, g.placement_id)
}

/// The identity keys of a sequence of glyph references.
pub open spec fn ref_keys(gs: Seq<GlyphRef>) -> Set<(u32, u32)> {
    Set::new(|k: (u32, u32)| exists|i: int| 0 <= i < gs.len() && ref_key(gs[i]) == k)
}

/// The entries of `s`, in order, whose key is in `ks` (when `inside`) or
/// is not in `ks` (otherwise).
pub open spec fn filter_keys(s: Seq<DisplayedGlyph>, ks: Set<(u32, u32)>, inside: bool) -> Seq<
    DisplayedGlyph,
>
    decreases s.len(),
{
    if s.len() == 0 {
        s
    } else {
        let rest = filter_keys(s.drop_last(), ks, inside);
        if ks.contains(key_of(s.last())) == inside {
            rest.push(s.last())
        } else {
            rest
        }
    }
}

/// Whether the bytes `[g.byte_start, g.byte_end)` are a whole-character
/// slice of `text`.
pub open spec fn range_ok(text: Seq<u8>, g: GlyphRef) -> bool {
    &&& g.byte_start <= g.byte_end <= text.len()
    &&& vstd::utf8::is_char_boundary(text, g.byte_start as int)
    &&& vstd::utf8::is_char_boundary(text, g.byte_end as int)
}

/// Two distinct glyphs on one row whose column ranges intersect.
pub open spec fn overlaps(d: DisplayedGlyph, e: DisplayedGlyph) -> bool {
    &&& d.row == e.row
    &&& key_of(d) != key_of(e)
    &&& d.col_start < e.col_start + e.col_span
    &&& e.col_start < d.col_start + d.col_span
}

pub open spec fn collides(s: Seq<DisplayedGlyph>, e: DisplayedGlyph) -> bool {
    exists|i: int| 0 <= i < s.len() && overlaps(s[i], e)
}

/// Where a glyph is drawn when the text before it takes `prefix_width`
/// columns and its own text `span_width` columns.
pub open spec fn measured_placement(
    g: GlyphRef,
    row: usize,
    prefix_width: int,
    span_width: int,
    margin: usize,
) -> DisplayedGlyph {
    DisplayedGlyph {
        glyph_id: g.glyph_id,
        placement_id: g.placement_id,
        row,
        col_start: (margin + prefix_width) as usize,
        col_span: span_width as usize,
    }
}

/// The outcome owed for a glyph whose widths are known: it must end within
/// `available_width - margin` and overlap no other drawn glyph on its row.
pub open spec fn measured_outcome(
    enabled: bool,
    s: Seq<DisplayedGlyph>,
    g: GlyphRef,
    row: usize,
    prefix_width: int,
    span_width: int,
    available_width: usize,
    margin: usize,
) -> Result<DisplayedGlyph, PlaceError> {
    if !enabled {
        Err(PlaceError::Disabled)
    } else if margin + prefix_width + span_width + margin > available_width {
        Err(PlaceError::TooWide)
    } else if collides(s, measured_placement(g, row, prefix_width, span_width, margin)) {
        Err(PlaceError::Collision)
    } else {
        Ok(measured_placement(g, row, prefix_width, span_width, margin))
    }
}

/// The outcome `try_place` owes for a glyph against a set of drawn glyphs.
pub open spec fn place_outcome(
    enabled: bool,
    s: Seq<DisplayedGlyph>,
    text: Seq<u8>,
    g: GlyphRef,
    row: usize,
    available_width: usize,
    margin: usize,
) -> Result<DisplayedGlyph, PlaceError> {
    if !enabled {
        Err(PlaceError::Disabled)
    } else if !range_ok(text, g) {
        Err(PlaceError::MalformedRange)
    } else {
        measured_outcome(
            enabled,
            s,
            g,
            row,
            display_width(text.subrange(0, g.byte_start as int)) as int,
            display_width(text.subrange(g.byte_start as int, g.byte_end as int)) as int,
            available_width,
            margin,
        )
    }
}

/// The drawn set after one `try_place` of `g` on `s`.
pub open spec fn place_one(
    s: Seq<DisplayedGlyph>,
    enabled: bool,
    text: Seq<u8>,
    g: GlyphRef,
    row: usize,
    available_width: usize,
    margin: usize,
) -> Seq<DisplayedGlyph> {
    match place_outcome(enabled, s, text, g, row, available_width, margin) {
        Ok(d) => filter_keys(s, set![ref_key(g)], false).push(d),
        Err(_) => s,
    }
}

/// The drawn set after a `try_place` of each of `gs` in order, all against
/// one text and one row.
pub open spec fn place_glyphs(
    s: Seq<DisplayedGlyph>,
    enabled: bool,
    text: Seq<u8>,
    gs: Seq<GlyphRef>,
    row: usize,
    available_width: usize,
    margin: usize,
) -> Seq<DisplayedGlyph>
    decreases gs.len(),
{
    if gs.len() == 0 {
        s
    } else {
        place_one(
            place_glyphs(s, enabled, text, gs.drop_last(), row, available_width, margin),
            enabled,
            text,
            gs.last(),
            row,
            available_width,
            margin,
        )
    }
}

/// The glyphs among `gs` that `place_glyphs` fails to draw, each with the
/// reason, in order.
pub open spec fn glyph_failures(
    s: Seq<DisplayedGlyph>,
    enabled: bool,
    text: Seq<u8>,
    gs: Seq<GlyphRef>,
    row: usize,
    available_width: usize,
    margin: usize,
) -> Seq<(GlyphRef, PlaceError)>
    decreases gs.len(),
{
    if gs.len() == 0 {
        Seq::empty()
    } else {
        let before = glyph_failures(s, enabled, text, gs.drop_last(), row, available_width, margin);
        let state = place_glyphs(s, enabled, text, gs.drop_last(), row, available_width, margin);
        match place_outcome(enabled, state, text, gs.last(), row, available_width, margin) {
            Ok(_) => before,
            Err(e) => before.push((gs.last(), e)),
        }
    }
}

/// No two drawn glyphs share a key.
pub open spec fn keys_unique(s: Seq<DisplayedGlyph>) -> bool {
    forall|i: int, j: int| 0 <= i < j < s.len() ==> key_of(#[trigger] s[i]) != key_of(#[trigger] s[j])
}

/// Filtering keeps keys unique.
pub proof fn lemma_filter_keys_unique(s: Seq<DisplayedGlyph>, ks: Set<(u32, u32)>, inside: bool)
    requires
        keys_unique(s),
    ensures
        keys_unique(filter_keys(s, ks, inside)),
    decreases s.len(),
{
    if s.len() > 0 {
        let sd = s.drop_last();
        assert(keys_unique(sd)) by {
            assert forall|i: int, j: int| 0 <= i < j < sd.len() implies key_of(#[trigger] sd[i])
                != key_of(#[trigger] sd[j]) by {
                assert(sd[i] == s[i] && sd[j] == s[j]);
            }
        }
        lemma_filter_keys_unique(sd, ks, inside);
        let rest = filter_keys(sd, ks, inside);
        if ks.contains(key_of(s.last())) == inside {
            let f = rest.push(s.last());
            assert forall|i: int, j: int| 0 <= i < j < f.len() implies key_of(#[trigger] f[i])
                != key_of(#[trigger] f[j]) by {
                if j == rest.len() {
                    lemma_filter_keys_members(sd, ks, inside, i);
                    let t = choose|t: int| 0 <= t < sd.len() && sd[t] == rest[i];
                    assert(s[t] == rest[i]);
                    assert(s[s.len() - 1] == s.last());
                } else {
                    assert(f[i] == rest[i] && f[j] == rest[j]);
                }
            }
        }
    }
}

/// Filtering keeps drawn glyphs apart.
pub proof fn lemma_filter_keys_no_overlaps(s: Seq<DisplayedGlyph>, ks: Set<(u32, u32)>, inside: bool)
    requires
        no_overlaps(s),
    ensures
        no_overlaps(filter_keys(s, ks, inside)),
{
    let f = filter_keys(s, ks, inside);
    assert forall|i: int, j: int| 0 <= i < f.len() && 0 <= j < f.len() implies !overlaps(
        #[trigger] f[i],
        #[trigger] f[j],
    ) by {
        lemma_filter_keys_members(s, ks, inside, i);
        lemma_filter_keys_members(s, ks, inside, j);
        let a = choose|a: int| 0 <= a < s.len() && s[a] == f[i];
        let b = choose|b: int| 0 <= b < s.len() && s[b] == f[j];
        assert(!overlaps(s[a], s[b]));
    }
}

/// Filtering a second time by the same keys changes nothing.
pub proof fn lemma_filter_keys_idempotent(
    s: Seq<DisplayedGlyph>,
    ks: Set<(u32, u32)>,
    inside: bool,
)
    ensures
        filter_keys(filter_keys(s, ks, inside), ks, inside) == filter_keys(s, ks, inside),
    decreases s.len(),
{
    if s.len() > 0 {
        lemma_filter_keys_idempotent(s.drop_last(), ks, inside);
        let rest = filter_keys(s.drop_last(), ks, inside);
        if ks.contains(key_of(s.last())) == inside {
            assert(rest.push(s.last()).drop_last() =~= rest);
        }
    }
}

/// Every entry kept by a filter comes from the filtered sequence and obeys
/// the filter.
pub proof fn lemma_filter_keys_members(
    s: Seq<DisplayedGlyph>,
    ks: Set<(u32, u32)>,
    inside: bool,
    i: int,
)
    requires
        0 <= i < filter_keys(s, ks, inside).len(),
    ensures
        s.contains(filter_keys(s, ks, inside)[i]),
        ks.contains(key_of(filter_keys(s, ks, inside)[i])) == inside,
    decreases s.len(),
{
    let rest = filter_keys(s.drop_last(), ks, inside);
    if i < rest.len() {
        lemma_filter_keys_members(s.drop_last(), ks, inside, i);
        let d = rest[i];
        let j = choose|j: int| 0 <= j < s.drop_last().len() && s.drop_last()[j] == d;
        assert(s[j] == d);
    } else {
        assert(s[s.len() - 1] == s.last());
    }
}

/// Filtering out one set of keys and then another is filtering out both.
pub proof fn lemma_filter_keys_union(
    s: Seq<DisplayedGlyph>,
    a: Set<(u32, u32)>,
    b: Set<(u32, u32)>,
)
    ensures
        filter_keys(filter_keys(s, a, false), b, false) == filter_keys(s, a.union(b), false),
    decreases s.len(),
{
    if s.len() > 0 {
        lemma_filter_keys_union(s.drop_last(), a, b);
        let rest = filter_keys(s.drop_last(), a, false);
        if !a.contains(key_of(s.last())) {
            assert(rest.push(s.last()).drop_last() =~= rest);
        }
    }
}

/// Hiding a glyph twice in succession leaves the same drawn set as hiding
/// it once.
pub proof fn lemma_hide_idempotent(s: Seq<DisplayedGlyph>, g: GlyphRef)
    ensures
        filter_keys(filter_keys(s, set![ref_key(g)], false), set![ref_key(g)], false)
            == filter_keys(s, set![ref_key(g)], false),
{
    lemma_filter_keys_idempotent(s, set![ref_key(g)], false);
}

fn contains_key(keys: &Vec<(u32, u32)>, k: (u32, u32)) -> (r: bool)
    ensures
        r == keys@.contains(k),
{
    let mut j: usize = 0;
    while j < keys.len()
        invariant
            j <= keys@.len(),
            forall|t: int| 0 <= t < j ==> keys@[t] != k,
        decreases keys@.len() - j,
    {
        if keys[j].0 == k.0 && keys[j].1 == k.1 {
            return true;
        }
        j = j + 1;
    }
    false
}

impl EmoteOverlayManager {
    pub fn new(enabled: bool) -> (r: Self)
        ensures
            r.enabled == enabled,
            r.displayed@ == Seq::<DisplayedGlyph>::empty(),
            r.wf(),
    {
        EmoteOverlayManager { enabled, displayed: Vec::new() }
    }

    /// Removes every drawn glyph.
    pub fn clear(&mut self)
        ensures
            final(self).enabled == old(self).enabled,
            final(self).displayed@ == Seq::<DisplayedGlyph>::empty(),
            final(self).wf(),
    {
        self.displayed = Vec::new();
    }

    pub fn is_empty(&self) -> (r: bool)
        ensures
            r == (self.displayed@.len() == 0),
    {
        self.displayed.len() == 0
    }

    /// Keeps the drawn glyphs whose key is in `keys` (when `inside`), or
    /// those whose key is not in `keys` (otherwise).
    fn filter_by_keys(&mut self, keys: &Vec<(u32, u32)>, inside: bool)
        ensures
            old(self).wf() ==> final(self).wf(),
            final(self).enabled == old(self).enabled,
            final(self).displayed@ == filter_keys(old(self).displayed@, keys@.to_set(), inside),
    {
        let ghost s = self.displayed@;
        let mut out: Vec<DisplayedGlyph> = Vec::new();
        let mut i: usize = 0;
        while i < self.displayed.len()
            invariant
                i <= s.len(),
                self.displayed@ == s,
                out@ == filter_keys(s.subrange(0, i as int), keys@.to_set(), inside),
            decreases s.len() - i,
        {
            let d = self.displayed[i];
            assert(s.subrange(0, i as int + 1).drop_last() =~= s.subrange(0, i as int));
            let found = contains_key(keys, (d.glyph_id, d.placement_id));
            if found == inside {
                out.push(d);
            }
            i = i + 1;
        }
        assert(s.subrange(0, s.len() as int) =~= s);
        proof {
            if keys_unique(s) {
                lemma_filter_keys_unique(s, keys@.to_set(), inside);
            }
            if no_overlaps(s) {
                lemma_filter_keys_no_overlaps(s, keys@.to_set(), inside);
            }
        }
        self.displayed = out;
    }

    /// Removes the glyph with the key of `g`; a no-op when it is not drawn.
    pub fn hide_glyph(&mut self, g: &GlyphRef)
        ensures
            old(self).wf() ==> final(self).wf(),
            final(self).enabled == old(self).enabled,
            final(self).displayed@ == filter_keys(old(self).displayed@, set![ref_key(*g)], false),
    {
        let keys: Vec<(u32, u32)> = vec![(g.glyph_id, g.placement_id)];
        assert(keys@.to_set() =~= set![ref_key(*g)]) by {
            assert(keys@[0] == ref_key(*g));
        }
        self.filter_by_keys(&keys, false);
    }

    /// Removes every glyph whose key is that of one of `gs`.
    pub fn hide_all(&mut self, gs: &Vec<GlyphRef>)
        ensures
            old(self).wf() ==> final(self).wf(),
            final(self).enabled == old(self).enabled,
            final(self).displayed@ == filter_keys(old(self).displayed@, ref_keys(gs@), false),
    {
        let keys = glyph_keys(gs);
        self.filter_by_keys(&keys, false);
    }

    /// Removes every glyph whose key is not in `keys`.
    pub fn retain_keys(&mut self, keys: &Vec<(u32, u32)>)
        ensures
            old(self).wf() ==> final(self).wf(),
            final(self).enabled == old(self).enabled,
            final(self).displayed@ == filter_keys(old(self).displayed@, keys@.to_set(), true),
    {
        self.filter_by_keys(keys, true);
    }

    /// Tries to draw `g` on `row`, against the rendered `text` it belongs to.
    /// On success the glyph replaces any earlier entry with its key; on
    /// failure nothing changes.
    pub fn try_place(
        &mut self,
        g: &GlyphRef,
        text: &str,
        row: usize,
        available_width: usize,
        margin: usize,
    ) -> (r: Result<DisplayedGlyph, PlaceError>)
        ensures
            old(self).wf() ==> final(self).wf(),
            r == place_outcome(
                old(self).enabled,
                old(self).displayed@,
                text.spec_bytes(),
                *g,
                row,
                available_width,
                margin,
            ),
            final(self).enabled == old(self).enabled,
            r is Ok ==> final(self).displayed@ == filter_keys(
                old(self).displayed@,
                set![ref_key(*g)],
                false,
            ).push(r->Ok_0),
            r is Err ==> final(self).displayed@ == old(self).displayed@,
    {
        if !self.enabled {
            return Err(PlaceError::Disabled);
        }
        let ghost bytes = text.spec_bytes();
        proof {
            vstd::utf8::encode_utf8_valid_utf8(text@);
        }
        if !(g.byte_start <= g.byte_end && text.is_char_boundary(g.byte_start) && text.is_char_boundary(g.byte_end)) {
            return Err(PlaceError::MalformedRange);
        }
        let (before, from_start) = text.split_at(g.byte_start);
        assert(before.spec_bytes() =~= bytes.subrange(0, g.byte_start as int));
        proof {
            let rest = bytes.subrange(g.byte_start as int, bytes.len() as int);
            let j = g.byte_end - g.byte_start;
            vstd::utf8::valid_utf8_split(bytes, g.byte_start as int);
            if j == rest.len() {
                vstd::utf8::is_char_boundary_start_end_of_seq(rest);
            } else if j > 0 {
                vstd::utf8::is_char_boundary_iff_is_leading_byte(rest, j);
                vstd::utf8::is_char_boundary_iff_is_leading_byte(bytes, g.byte_end as int);
                assert(rest[j] == bytes[g.byte_end as int]);
            }
        }
        let (inner, _) = from_start.split_at(g.byte_end - g.byte_start);
        assert(inner.spec_bytes() =~= bytes.subrange(g.byte_start as int, g.byte_end as int));
        let pw = str_width(before);
        let span = str_width(inner);
        self.place_measured(g, row, pw, span, available_width, margin)
    }

    /// Tries to draw `g` on `row` when the text before it takes
    /// `prefix_width` columns and its own text `span_width` columns. On
    /// success the glyph replaces any earlier entry with its key; on failure
    /// nothing changes.
    pub fn place_measured(
        &mut self,
        g: &GlyphRef,
        row: usize,
        prefix_width: usize,
        span_width: usize,
        available_width: usize,
        margin: usize,
    ) -> (r: Result<DisplayedGlyph, PlaceError>)
        ensures
            old(self).wf() ==> final(self).wf(),
            r == measured_outcome(
                old(self).enabled,
                old(self).displayed@,
                *g,
                row,
                prefix_width as int,
                span_width as int,
                available_width,
                margin,
            ),
            final(self).enabled == old(self).enabled,
            r is Ok ==> final(self).displayed@ == filter_keys(
                old(self).displayed@,
                set![ref_key(*g)],
                false,
            ).push(r->Ok_0),
            r is Err ==> final(self).displayed@ == old(self).displayed@,
    {
        if !self.enabled {
            return Err(PlaceError::Disabled);
        }
        if !((margin as u128) + (prefix_width as u128) + (span_width as u128) + (margin as u128)
            <= available_width as u128) {
            return Err(PlaceError::TooWide);
        }
        let d = DisplayedGlyph {
            glyph_id: g.glyph_id,
            placement_id: g.placement_id,
            row,
            col_start: margin + prefix_width,
            col_span: span_width,
        };
        assert(d == measured_placement(*g, row, prefix_width as int, span_width as int, margin));
        let mut i: usize = 0;
        while i < self.displayed.len()
            invariant
                i <= self.displayed@.len(),
                self.displayed@ == old(self).displayed@,
                self.enabled == old(self).enabled,
                self.enabled,
                margin + prefix_width + span_width + margin <= available_width,
                d == measured_placement(*g, row, prefix_width as int, span_width as int, margin),
                forall|t: int| 0 <= t < i ==> !overlaps(self.displayed@[t], d),
            decreases self.displayed@.len() - i,
        {
            let e = self.displayed[i];
            if e.row == d.row && !(e.glyph_id == d.glyph_id && e.placement_id == d.placement_id)
                && (e.col_start as u128) < (d.col_start as u128) + (d.col_span as u128)
                && (d.col_start as u128) < (e.col_start as u128) + (e.col_span as u128) {
                assert(overlaps(self.displayed@[i as int], d));
                assert(collides(old(self).displayed@, d));
                return Err(PlaceError::Collision);
            }
            i = i + 1;
        }
        self.hide_glyph(g);
        let ghost hidden = self.displayed@;
        self.displayed.push(d);
        proof {
            assert forall|t: int| 0 <= t < hidden.len() implies key_of(hidden[t]) != key_of(d) by {
                lemma_filter_keys_members(old(self).displayed@, set![ref_key(*g)], false, t);
            }
            if no_overlaps(old(self).displayed@) {
                lemma_filter_keys_no_overlaps(old(self).displayed@, set![ref_key(*g)], false);
                assert forall|t: int| 0 <= t < hidden.len() implies !overlaps(hidden[t], d) && !overlaps(d, hidden[t]) by {
                    lemma_filter_keys_members(old(self).displayed@, set![ref_key(*g)], false, t);
                    let a = choose|a: int| 0 <= a < old(self).displayed@.len() && old(self).displayed@[a] == hidden[t];
                    assert(!overlaps(old(self).displayed@[a], d));
                }
                assert forall|i: int, j: int|
                    0 <= i < self.displayed@.len() && 0 <= j < self.displayed@.len() implies !overlaps(
                    #[trigger] self.displayed@[i],
                    #[trigger] self.displayed@[j],
                ) by {
                    if i < hidden.len() {
                        assert(self.displayed@[i] == hidden[i]);
                    }
                    if j < hidden.len() {
                        assert(self.displayed@[j] == hidden[j]);
                    }
                }
            }
            if keys_unique(old(self).displayed@) {
                lemma_filter_keys_unique(old(self).displayed@, set![ref_key(*g)], false);
                assert forall|i: int, j: int|
                    0 <= i < j < self.displayed@.len() implies key_of(
                    #[trigger] self.displayed@[i],
                ) != key_of(#[trigger] self.displayed@[j]) by {
                    if j == hidden.len() {
                        assert(self.displayed@[i] == hidden[i]);
                    } else {
                        assert(self.displayed@[i] == hidden[i] && self.displayed@[j] == hidden[j]);
                    }
                }
            }
        }
        Ok(d)
    }
}

/// The identity keys of `gs`, in order.
pub fn glyph_keys(gs: &Vec<GlyphRef>) -> (r: Vec<(u32, u32)>)
    ensures
        r@.len() == gs@.len(),
        forall|i: int| 0 <= i < gs@.len() ==> r@[i] == ref_key(gs@[i]),
        r@.to_set() == ref_keys(gs@),
{
    let mut out: Vec<(u32, u32)> = Vec::new();
    let mut i: usize = 0;
    while i < gs.len()
        invariant
            i <= gs@.len(),
            out@.len() == i,
            forall|t: int| 0 <= t < i ==> out@[t] == ref_key(gs@[t]),
        decreases gs@.len() - i,
    {
        out.push((gs[i].glyph_id, gs[i].placement_id));
        i = i + 1;
    }
    assert(out@.to_set() =~= ref_keys(gs@)) by {
        assert forall|k: (u32, u32)| out@.to_set().contains(k) implies ref_keys(gs@).contains(k) by {
            let t = choose|t: int| 0 <= t < out@.len() && out@[t] == k;
        }
        assert forall|k: (u32, u32)| ref_keys(gs@).contains(k) implies out@.to_set().contains(k) by {
            let t = choose|t: int| 0 <= t < gs@.len() && ref_key(gs@[t]) == k;
            assert(out@[t] == k);
        }
    }
    out
}

} // verus!
