use vstd::prelude::*;
use crate::data::Data;
use crate::overlay::{
    filter_keys, lemma_filter_keys_union, ref_keys, EmoteOverlayManager,
};

verus! {

/// Chat records, oldest first.
#[derive(Debug)]
pub struct MessageStore {
    pub messages: Vec<Data>,
}

/// The glyph keys of the first `k` records of `msgs`.
pub open spec fn removed_keys(msgs: Seq<Data>, k: int) -> Set<(u32, u32)> {
    Set::new(
        |key: (u32, u32)|
            exists|j: int| 0 <= j < k && j < msgs.len() && ref_keys(msgs[j].glyphs@).contains(key),
    )
}

impl MessageStore {
    pub fn new() -> (r: Self)
        ensures
            r.messages@.len() == 0,
    {
        MessageStore { messages: Vec::new() }
    }

    pub fn len(&self) -> (r: usize)
        ensures
            r == self.messages@.len(),
    {
        self.messages.len()
    }

    /// Appends a record at the newest end.
    pub fn push(&mut self, d: Data)
        ensures
            final(self).messages@ == old(self).messages@.push(d),
    {
        self.messages.push(d);
    }

    /// Drops the oldest records until at most `limit` are left, hiding the
    /// glyphs of every dropped record first.
    pub fn enforce_capacity(&mut self, limit: usize, overlay: &mut EmoteOverlayManager)
        ensures
            old(self).messages@.len() <= limit ==> final(self).messages@ == old(self).messages@
                && final(overlay).displayed@ == old(overlay).displayed@,
            old(self).messages@.len() > limit ==> final(self).messages@
                == old(self).messages@.subrange(
                old(self).messages@.len() - limit,
                old(self).messages@.len() as int,
            ) && final(overlay).displayed@ == filter_keys(
                old(overlay).displayed@,
                removed_keys(old(self).messages@, old(self).messages@.len() - limit),
                false,
            ),
            final(overlay).enabled == old(overlay).enabled,
            old(overlay).wf() ==> final(overlay).wf(),
    {
        let n = self.messages.len();
        if n <= limit {
            return;
        }
        let cut = n - limit;
        let ghost msgs = self.messages@;
        let ghost s0 = overlay.displayed@;
        assert(removed_keys(msgs, 0) =~= Set::<(u32, u32)>::empty());
        assert(filter_keys(s0, Set::<(u32, u32)>::empty(), false) == s0) by {
            lemma_filter_none(s0);
        }
        let mut j: usize = 0;
        while j < cut
            invariant
                j <= cut,
                cut == msgs.len() - limit,
                self.messages@ == msgs,
                overlay.enabled == old(overlay).enabled,
                old(overlay).wf() ==> overlay.wf(),
                overlay.displayed@ == filter_keys(s0, removed_keys(msgs, j as int), false),
            decreases cut - j,
        {
            let ghost prev = overlay.displayed@;
            overlay.hide_all(&self.messages[j].glyphs);
            proof {
                lemma_filter_keys_union(
                    s0,
                    removed_keys(msgs, j as int),
                    ref_keys(msgs[j as int].glyphs@),
                );
                assert(removed_keys(msgs, j as int).union(ref_keys(msgs[j as int].glyphs@))
                    =~= removed_keys(msgs, j as int + 1));
            }
            j = j + 1;
        }
        let tail = self.messages.split_off(cut);
        self.messages = tail;
    }
}

/// Enforcing a capacity `c` on `n > c` records keeps exactly the `c` newest,
/// in their order, and no drawn glyph keeps the key of a dropped record's
/// glyph.
pub proof fn lemma_capacity_enforced(
    msgs: Seq<Data>,
    drawn: Seq<crate::overlay::DisplayedGlyph>,
    c: int,
)
    requires
        0 <= c < msgs.len(),
    ensures
        msgs.subrange(msgs.len() - c, msgs.len() as int).len() == c,
        forall|t: int|
            0 <= t < c ==> #[trigger] msgs.subrange(msgs.len() - c, msgs.len() as int)[t]
                == msgs[msgs.len() - c + t],
        forall|t: int, j: int, g: int|
            0 <= t < filter_keys(drawn, removed_keys(msgs, msgs.len() - c), false).len() && 0 <= j
                < msgs.len() - c && 0 <= g < msgs[j].glyphs@.len() ==> crate::overlay::key_of(
                #[trigger] filter_keys(drawn, removed_keys(msgs, msgs.len() - c), false)[t],
            ) != crate::overlay::ref_key(#[trigger] msgs[j].glyphs@[g]),
{
    let ks = removed_keys(msgs, msgs.len() - c);
    let f = filter_keys(drawn, ks, false);
    assert forall|t: int, j: int, g: int|
        0 <= t < f.len() && 0 <= j < msgs.len() - c && 0 <= g < msgs[j].glyphs@.len() implies crate::overlay::key_of(
        #[trigger] f[t],
    ) != crate::overlay::ref_key(#[trigger] msgs[j].glyphs@[g]) by {
        crate::overlay::lemma_filter_keys_members(drawn, ks, false, t);
        assert(ref_keys(msgs[j].glyphs@).contains(crate::overlay::ref_key(msgs[j].glyphs@[g])));
    }
}

proof fn lemma_filter_none(s: Seq<crate::overlay::DisplayedGlyph>)
    ensures
        filter_keys(s, Set::<(u32, u32)>::empty(), false) == s,
    decreases s.len(),
{
    if s.len() > 0 {
        lemma_filter_none(s.drop_last());
        assert(s.drop_last().push(s.last()) =~= s);
    }
}

} // verus!
