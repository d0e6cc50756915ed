use vstd::prelude::*;
use std::collections::VecDeque;
use crate::data::Data;
use crate::layout::{fill_rows, heights, layout, place_records, record_failures, visible, Row};
use crate::overlay::{DisplayedGlyph, EmoteOverlayManager, GlyphRef, PlaceError};
use crate::store::MessageStore;

verus! {

/// The single owner of the records and the drawn glyphs; all changes go
/// through it, one redraw at a time.
pub struct ChatCore {
    pub messages: MessageStore,
    pub emotes: EmoteOverlayManager,
}

/// The records left after enforcing `capacity`: the newest `capacity` ones.
pub open spec fn kept(msgs: Seq<Data>, capacity: usize) -> Seq<Data> {
    if msgs.len() <= capacity {
        msgs
    } else {
        msgs.subrange(msgs.len() - capacity, msgs.len() as int)
    }
}

impl ChatCore {
    pub fn new(emotes_enabled: bool) -> (r: Self)
        ensures
            r.messages.messages@.len() == 0,
            r.emotes.enabled == emotes_enabled,
            r.emotes.displayed@.len() == 0,
            r.emotes.wf(),
    {
        ChatCore { messages: MessageStore::new(), emotes: EmoteOverlayManager::new(emotes_enabled) }
    }

    /// Takes in a new record at the newest end.
    pub fn push(&mut self, d: Data)
        ensures
            final(self).messages.messages@ == old(self).messages.messages@.push(d),
            final(self).emotes == old(self).emotes,
    {
        self.messages.push(d);
    }

    /// One redraw: first drop the records beyond `capacity`, so that layout
    /// never sees more, then lay out the panel.
    pub fn redraw(
        &mut self,
        capacity: usize,
        height: usize,
        limit: usize,
        scroll_offset: usize,
        available_width: usize,
        margin: usize,
    ) -> (r: (VecDeque<Row>, Vec<(GlyphRef, PlaceError)>))
        ensures
            final(self).messages.messages@ == kept(old(self).messages.messages@, capacity),
            final(self).messages.messages@.len() <= capacity,
            r.0@ == fill_rows(
                heights(final(self).messages.messages@, limit),
                scroll_offset as int,
                height as int,
            ),
            r.1@ == record_failures(
                Seq::<DisplayedGlyph>::empty(),
                old(self).emotes.enabled,
                final(self).messages.messages@,
                visible(heights(final(self).messages.messages@, limit), scroll_offset as int, height as int),
                limit,
                available_width,
                margin,
            ),
            final(self).emotes.displayed@ == place_records(
                Seq::<DisplayedGlyph>::empty(),
                old(self).emotes.enabled,
                final(self).messages.messages@,
                visible(heights(final(self).messages.messages@, limit), scroll_offset as int, height as int),
                limit,
                available_width,
                margin,
            ),
            final(self).emotes.enabled == old(self).emotes.enabled,
            final(self).emotes.wf(),
    {
        self.messages.enforce_capacity(capacity, &mut self.emotes);
        layout(&self.messages, &mut self.emotes, height, limit, scroll_offset, available_width, margin)
    }
}

} // verus!
