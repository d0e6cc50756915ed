use vstd::prelude::*;
use crate::color::{author_color, color_for, Palette, Rgb};
use crate::overlay::GlyphRef;
use crate::text::{clamp_usize, fill, wrap_height, wrapped_height, wrapped_text};

verus! {

/// The body of a chat record.
#[derive(Debug, Clone)]
pub enum PayLoad {
    Message(String),
    Error(String),
}

/// Makes chat records that share a timestamp format.
#[derive(Debug, Clone, Copy)]
pub struct DataBuilder<'conf> {
    pub date_format: &'conf str,
}

/// One chat record.
#[derive(Debug, Clone)]
pub struct Data {
    pub time_sent: String,
    pub author: String,
    pub system: bool,
    pub payload: PayLoad,
    /// Inline glyph references into the payload text, in order.
    pub glyphs: Vec<GlyphRef>,
}

/// The text carried by a payload, whichever its kind.
pub open spec fn payload_text(p: PayLoad) -> Seq<char> {
    match p {
        PayLoad::Message(m) => m@,
        PayLoad::Error(m) => m@,
    }
}

/// The number of rows a record takes when wrapped to `limit` columns; an
/// error record takes none, since it is never laid out as a row.
pub open spec fn message_height(d: Data, limit: usize) -> usize {
    match d.payload {
        PayLoad::Message(m) => clamp_usize(wrapped_height(m@, limit)),
        PayLoad::Error(_) => 0,
    }
}

impl<'conf> DataBuilder<'conf> {
    pub fn new(date_format: &'conf str) -> (r: Self)
        ensures
            r.date_format == date_format,
    {
        DataBuilder { date_format }
    }

    /// A record written by the user `user`, sent at `time_sent`.
    pub fn user(self, time_sent: String, user: String, message: String) -> (r: Data)
        ensures
            r.time_sent@ == time_sent@,
            r.author@ == user@,
            !r.system,
            r.payload == PayLoad::Message(message),
            r.glyphs@.len() == 0,
    {
        Data {
            time_sent,
            author: user,
            system: false,
            payload: PayLoad::Message(message),
            glyphs: Vec::new(),
        }
    }

    /// A record from the program itself.
    pub fn system(self, time_sent: String, message: String) -> (r: Data)
        ensures
            r.time_sent@ == time_sent@,
            r.author@ == "System"@,
            r.system,
            r.payload == PayLoad::Message(message),
            r.glyphs@.len() == 0,
    {
        Data {
            time_sent,
            author: "System".to_owned(),
            system: true,
            payload: PayLoad::Message(message),
            glyphs: Vec::new(),
        }
    }

    /// A record from the chat service.
    pub fn twitch(self, time_sent: String, message: String) -> (r: Data)
        ensures
            r.time_sent@ == time_sent@,
            r.author@ == "Twitch"@,
            r.system,
            r.payload == PayLoad::Message(message),
            r.glyphs@.len() == 0,
    {
        Data {
            time_sent,
            author: "Twitch".to_owned(),
            system: true,
            payload: PayLoad::Message(message),
            glyphs: Vec::new(),
        }
    }
}

impl Data {
    /// The colour of the author's name in `palette`.
    pub fn hash_username(&self, palette: &Palette) -> (r: Rgb)
        ensures
            r == author_color(vstd::utf8::encode_utf8(self.author@), *palette),
    {
        color_for(self.author.as_str().as_bytes(), *palette)
    }

    /// The colour of the author column: none for a system record, which has
    /// a fixed style, and the author's hashed colour otherwise.
    pub fn author_color(&self, palette: &Palette) -> (r: Option<Rgb>)
        ensures
            r == (if self.system {
                None::<Rgb>
            } else {
                Some(author_color(vstd::utf8::encode_utf8(self.author@), *palette))
            }),
    {
        if self.system {
            None
        } else {
            Some(self.hash_username(palette))
        }
    }

    /// The payload text.
    pub fn text(&self) -> (r: &str)
        ensures
            r@ == payload_text(self.payload),
    {
        match &self.payload {
            PayLoad::Message(m) => m.as_str(),
            PayLoad::Error(m) => m.as_str(),
        }
    }

    /// The payload text word-wrapped to `limit` columns, lines joined by '\n'.
    pub fn wrapped(&self, limit: usize) -> (r: String)
        ensures
            r@ == wrapped_text(payload_text(self.payload), limit),
    {
        fill(self.text(), limit)
    }

    /// The number of rows a text record takes at `limit` columns; `None` for
    /// an error record, which is never laid out as a row of its own.
    pub fn row_height(&self, limit: usize) -> (r: Option<usize>)
        ensures
            r == (match self.payload {
                PayLoad::Message(_) => Some(message_height(*self, limit)),
                PayLoad::Error(_) => None::<usize>,
            }),
    {
        match &self.payload {
            PayLoad::Message(m) => Some(wrap_height(m.as_str(), limit)),
            PayLoad::Error(_) => None,
        }
    }
}

} // verus!
