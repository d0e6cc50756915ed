use chat_view::color::{Palette, Rgb};
use chat_view::controller::ChatCore;
use chat_view::data::{Data, DataBuilder, PayLoad};
use chat_view::layout::{fill_layout, layout, Row};
use chat_view::overlay::{DisplayedGlyph, EmoteOverlayManager, GlyphRef, PlaceError};
use chat_view::store::MessageStore;
use chat_view::text::{count_lines, wrap_height};
use chrono::Local;

fn create_data() -> Data {
    Data {
        time_sent: Local::now().format("%c").to_string(),
        author: "human".to_string(),
        system: false,
        payload: PayLoad::Message("beep boop".to_string()),
        glyphs: Vec::new(),
    }
}

fn record(author: &str, text: &str, glyphs: Vec<GlyphRef>) -> Data {
    Data {
        time_sent: "12:00".to_string(),
        author: author.to_string(),
        system: false,
        payload: PayLoad::Message(text.to_string()),
        glyphs,
    }
}

fn glyph(id: u32, pid: u32, start: usize, end: usize) -> GlyphRef {
    GlyphRef { glyph_id: id, placement_id: pid, byte_start: start, byte_end: end }
}

fn has_key(m: &EmoteOverlayManager, id: u32, pid: u32) -> bool {
    m.displayed.iter().any(|d| d.glyph_id == id && d.placement_id == pid)
}

fn line(src: usize, l: usize) -> Row {
    Row { source: Some(src), line: l }
}

fn blank() -> Row {
    Row { source: None, line: 0 }
}

#[test]
fn test_username_hash() {
    assert_eq!(create_data().hash_username(&Palette::Pastel), Rgb(159, 223, 221));
}

#[test]
fn username_hash_other_palettes() {
    let d = create_data();
    assert_eq!(d.hash_username(&Palette::Vibrant), Rgb(51, 255, 248));
    assert_eq!(d.hash_username(&Palette::Warm), Rgb(239, 210, 117));
}

#[test]
fn username_hash_is_deterministic() {
    let a = record("someone", "x", Vec::new());
    let b = record("someone", "y", Vec::new());
    for p in [Palette::Pastel, Palette::Vibrant, Palette::Warm, Palette::Cool] {
        assert_eq!(a.hash_username(&p), a.hash_username(&p));
        assert_eq!(a.hash_username(&p), b.hash_username(&p));
    }
}

#[test]
fn username_hash_empty_name() {
    let d = record("", "x", Vec::new());
    assert_eq!(d.hash_username(&Palette::Pastel), Rgb(223, 160, 159));
}

#[test]
fn builder_sets_fields() {
    let b = DataBuilder::new("%H:%M");
    assert_eq!(b.date_format, "%H:%M");
    let u = b.user("10:00".to_string(), "alice".to_string(), "hi".to_string());
    assert_eq!(u.author, "alice");
    assert!(!u.system);
    assert!(matches!(u.payload, PayLoad::Message(ref m) if m == "hi"));
    let s = b.system("10:01".to_string(), "joined".to_string());
    assert_eq!(s.author, "System");
    assert!(s.system);
    let t = b.twitch("10:02".to_string(), "notice".to_string());
    assert_eq!(t.author, "Twitch");
    assert!(t.system);
    assert_eq!(t.time_sent, "10:02");
}

#[test]
fn wrapping_counts_lines() {
    assert_eq!(wrap_height("", 10), 0);
    assert_eq!(wrap_height("short", 10), 1);
    assert_eq!(wrap_height("one two three four five", 10), 3);
    assert_eq!(count_lines("a\nb\n"), 3);
    assert_eq!(count_lines(""), 0);
}

#[test]
fn row_height_rejects_error_payload() {
    let mut d = record("a", "x", Vec::new());
    assert_eq!(d.row_height(10), Some(1));
    d.payload = PayLoad::Error("boom".to_string());
    assert_eq!(d.row_height(10), None);
}

#[test]
fn place_measures_columns_by_display_width() {
    let mut m = EmoteOverlayManager::new(true);
    let r = m.try_place(&glyph(1, 0, 7, 8), "日本 x", 2, 40, 0);
    let d = DisplayedGlyph { glyph_id: 1, placement_id: 0, row: 2, col_start: 5, col_span: 1 };
    assert_eq!(r, Ok(d));
    assert_eq!(m.displayed, vec![d]);
}

#[test]
fn place_too_wide_is_not_displayed() {
    let mut m = EmoteOverlayManager::new(true);
    let r = m.try_place(&glyph(1, 0, 6, 11), "hello world", 0, 10, 2);
    assert_eq!(r, Err(PlaceError::TooWide));
    assert!(m.is_empty());
}

#[test]
fn place_malformed_range() {
    let mut m = EmoteOverlayManager::new(true);
    assert_eq!(m.try_place(&glyph(1, 0, 3, 20), "hello", 0, 80, 0), Err(PlaceError::MalformedRange));
    assert_eq!(m.try_place(&glyph(1, 0, 4, 2), "hello", 0, 80, 0), Err(PlaceError::MalformedRange));
    assert_eq!(m.try_place(&glyph(1, 0, 1, 2), "日本", 0, 80, 0), Err(PlaceError::MalformedRange));
    assert!(m.is_empty());
}

#[test]
fn place_collision_and_disabled() {
    let mut m = EmoteOverlayManager::new(true);
    assert!(m.try_place(&glyph(1, 0, 0, 4), "abcd efgh", 0, 80, 0).is_ok());
    assert_eq!(m.try_place(&glyph(2, 0, 2, 6), "abcd efgh", 0, 80, 0), Err(PlaceError::Collision));
    assert!(m.try_place(&glyph(2, 0, 2, 6), "abcd efgh", 1, 80, 0).is_ok());
    assert!(m.try_place(&glyph(1, 0, 0, 4), "abcd efgh", 0, 80, 0).is_ok());
    assert_eq!(m.displayed.len(), 2);
    let mut off = EmoteOverlayManager::new(false);
    assert_eq!(off.try_place(&glyph(1, 0, 0, 1), "a", 0, 80, 0), Err(PlaceError::Disabled));
}

#[test]
fn hide_twice_equals_once() {
    let mut m = EmoteOverlayManager::new(true);
    m.try_place(&glyph(1, 0, 0, 1), "a b c", 0, 80, 0).unwrap();
    m.try_place(&glyph(2, 0, 2, 3), "a b c", 0, 80, 0).unwrap();
    m.hide_glyph(&glyph(1, 0, 0, 1));
    let once = m.displayed.clone();
    m.hide_glyph(&glyph(1, 0, 0, 1));
    assert_eq!(m.displayed, once);
    assert!(!has_key(&m, 1, 0));
    assert!(has_key(&m, 2, 0));
    m.hide_all(&vec![glyph(2, 0, 0, 0), glyph(9, 9, 0, 0)]);
    assert!(m.is_empty());
}

#[test]
fn enforce_capacity_keeps_newest() {
    let mut m = EmoteOverlayManager::new(true);
    let mut s = MessageStore::new();
    for i in 0..5u32 {
        let g = glyph(i, 0, 0, 1);
        m.try_place(&g, "x", i as usize, 80, 0).unwrap();
        s.push(record(&format!("u{i}"), "x", vec![g]));
    }
    s.enforce_capacity(3, &mut m);
    assert_eq!(s.len(), 3);
    let names: Vec<&str> = s.messages.iter().map(|d| d.author.as_str()).collect();
    assert_eq!(names, vec!["u2", "u3", "u4"]);
    assert!(!has_key(&m, 0, 0));
    assert!(!has_key(&m, 1, 0));
    assert!(has_key(&m, 2, 0) && has_key(&m, 3, 0) && has_key(&m, 4, 0));
    s.enforce_capacity(3, &mut m);
    assert_eq!(s.len(), 3);
    assert_eq!(m.displayed.len(), 3);
}

#[test]
fn layout_heights_one_three_one() {
    let mut s = MessageStore::new();
    s.push(record("a", "aaa", Vec::new()));
    s.push(record("b", "one two three four five", Vec::new()));
    s.push(record("c", "ccc", Vec::new()));
    let mut m = EmoteOverlayManager::new(true);
    let rows = layout(&s, &mut m, 4, 10, 0, 80, 0).0;
    let rows: Vec<Row> = rows.into_iter().collect();
    assert_eq!(rows, vec![line(1, 0), line(1, 1), line(1, 2), line(2, 0)]);
}

#[test]
fn layout_pads_at_top() {
    let mut s = MessageStore::new();
    s.push(record("a", "aaa", Vec::new()));
    s.push(record("b", "bbb", Vec::new()));
    let mut m = EmoteOverlayManager::new(true);
    let rows: Vec<Row> = layout(&s, &mut m, 4, 10, 0, 80, 0).0.into_iter().collect();
    assert_eq!(rows, vec![blank(), blank(), line(0, 0), line(1, 0)]);
    let empty = MessageStore::new();
    let rows: Vec<Row> = layout(&empty, &mut m, 3, 10, 0, 80, 0).0.into_iter().collect();
    assert_eq!(rows, vec![blank(), blank(), blank()]);
}

#[test]
fn layout_skips_empty_records() {
    let mut s = MessageStore::new();
    s.push(record("a", "aaa", Vec::new()));
    s.push(record("b", "", Vec::new()));
    let mut m = EmoteOverlayManager::new(true);
    let rows: Vec<Row> = layout(&s, &mut m, 2, 10, 0, 80, 0).0.into_iter().collect();
    assert_eq!(rows, vec![blank(), line(0, 0)]);
}

#[test]
fn layout_always_fills_height() {
    let mut s = MessageStore::new();
    for i in 0..6 {
        s.push(record("a", &format!("message number {i} with words"), Vec::new()));
    }
    let mut m = EmoteOverlayManager::new(true);
    for h in 0..12usize {
        for off in 0..8usize {
            assert_eq!(layout(&s, &mut m, h, 10, off, 80, 0).0.len(), h);
        }
    }
}

#[test]
fn layout_too_wide_glyph_keeps_text() {
    let mut s = MessageStore::new();
    s.push(record("a", "hello world", vec![glyph(1, 0, 6, 11)]));
    let mut m = EmoteOverlayManager::new(true);
    let (rows, failures) = layout(&s, &mut m, 2, 40, 0, 10, 2);
    let rows: Vec<Row> = rows.into_iter().collect();
    assert_eq!(rows, vec![blank(), line(0, 0)]);
    assert!(m.is_empty());
    assert_eq!(failures, vec![(glyph(1, 0, 6, 11), PlaceError::TooWide)]);
}

#[test]
fn layout_scroll_hides_one_record() {
    let mut s = MessageStore::new();
    s.push(record("a", "x a", vec![glyph(1, 0, 0, 1)]));
    s.push(record("b", "y b", vec![glyph(2, 0, 0, 1)]));
    let mut m = EmoteOverlayManager::new(true);
    let rows: Vec<Row> = layout(&s, &mut m, 3, 40, 0, 80, 0).0.into_iter().collect();
    assert_eq!(rows, vec![blank(), line(0, 0), line(1, 0)]);
    assert!(has_key(&m, 1, 0) && has_key(&m, 2, 0));
    let rows: Vec<Row> = layout(&s, &mut m, 3, 40, 1, 80, 0).0.into_iter().collect();
    assert_eq!(rows, vec![blank(), blank(), line(0, 0)]);
    assert!(!has_key(&m, 2, 0));
    assert!(has_key(&m, 1, 0));
}

#[test]
fn layout_partial_record_hides_its_glyphs() {
    let mut s = MessageStore::new();
    s.push(record("a", "one two three four five", vec![glyph(1, 0, 0, 3)]));
    s.push(record("b", "zz", Vec::new()));
    let mut m = EmoteOverlayManager::new(true);
    let rows: Vec<Row> = layout(&s, &mut m, 3, 10, 0, 80, 0).0.into_iter().collect();
    assert_eq!(rows, vec![line(0, 1), line(0, 2), line(1, 0)]);
    assert!(m.is_empty());
}

#[test]
fn layout_drops_glyph_that_no_longer_fits() {
    let mut s = MessageStore::new();
    s.push(record("a", "hello world", vec![glyph(1, 0, 6, 11)]));
    let mut m = EmoteOverlayManager::new(true);
    layout(&s, &mut m, 2, 40, 0, 80, 0);
    assert!(has_key(&m, 1, 0));
    layout(&s, &mut m, 2, 40, 0, 10, 2);
    assert!(!has_key(&m, 1, 0));
    assert!(m.is_empty());
}

#[test]
fn layout_skips_error_records() {
    let mut s = MessageStore::new();
    s.push(record("a", "aaa", Vec::new()));
    let mut e = record("b", "bad", vec![glyph(3, 0, 0, 1)]);
    e.payload = PayLoad::Error("bad".to_string());
    s.push(e);
    let mut m = EmoteOverlayManager::new(true);
    let rows: Vec<Row> = layout(&s, &mut m, 2, 10, 0, 80, 0).0.into_iter().collect();
    assert_eq!(rows, vec![blank(), line(0, 0)]);
    assert!(m.is_empty());
}

#[test]
fn fill_layout_on_given_heights() {
    let (rows, shown) = fill_layout(&vec![1, 3, 1], 4, 0);
    let rows: Vec<Row> = rows.into_iter().collect();
    assert_eq!(rows, vec![line(1, 0), line(1, 1), line(1, 2), line(2, 0)]);
    let shown: Vec<(usize, usize, usize, usize)> = shown.into_iter().collect();
    assert_eq!(shown, vec![(1, 0, 3, 0), (2, 0, 1, 3)]);
    let (rows, shown) = fill_layout(&vec![1, 3, 1], 4, 1);
    let rows: Vec<Row> = rows.into_iter().collect();
    assert_eq!(rows, vec![line(0, 0), line(1, 0), line(1, 1), line(1, 2)]);
    let shown: Vec<(usize, usize, usize, usize)> = shown.into_iter().collect();
    assert_eq!(shown, vec![(0, 0, 1, 0), (1, 0, 3, 1)]);
    let (rows, shown) = fill_layout(&vec![1, 3, 1], 3, 2);
    let rows: Vec<Row> = rows.into_iter().collect();
    assert_eq!(rows, vec![line(0, 0), line(1, 0), line(1, 1)]);
    let shown: Vec<(usize, usize, usize, usize)> = shown.into_iter().collect();
    assert_eq!(shown, vec![(0, 0, 1, 0), (1, 0, 2, 1)]);
}

#[test]
fn place_measured_on_given_widths() {
    let mut m = EmoteOverlayManager::new(true);
    let g = glyph(4, 1, 0, 0);
    assert_eq!(m.place_measured(&g, 0, 5, 4, 12, 2), Err(PlaceError::TooWide));
    let d = DisplayedGlyph { glyph_id: 4, placement_id: 1, row: 0, col_start: 7, col_span: 3 };
    assert_eq!(m.place_measured(&g, 0, 5, 3, 12, 2), Ok(d));
    assert_eq!(m.place_measured(&glyph(5, 0, 0, 0), 0, 6, 2, 12, 2), Err(PlaceError::Collision));
    assert!(m.place_measured(&glyph(5, 0, 0, 0), 0, 10, 2, 12, 0).is_ok());
    assert_eq!(m.displayed.len(), 2);
}

#[test]
fn layout_places_glyph_on_visible_line_of_cut_record() {
    let mut s = MessageStore::new();
    s.push(record("a", "one two three four five", vec![glyph(1, 0, 0, 3), glyph(2, 0, 19, 23)]));
    let mut m = EmoteOverlayManager::new(true);
    let (rows, failures) = layout(&s, &mut m, 2, 10, 0, 80, 0);
    let rows: Vec<Row> = rows.into_iter().collect();
    assert_eq!(rows, vec![line(0, 1), line(0, 2)]);
    assert!(failures.is_empty());
    let d = DisplayedGlyph { glyph_id: 2, placement_id: 0, row: 1, col_start: 0, col_span: 4 };
    assert_eq!(m.displayed, vec![d]);
}

#[test]
fn layout_scroll_keeps_glyph_of_older_visible_line() {
    let mut s = MessageStore::new();
    s.push(record("a", "ab cd", vec![glyph(1, 0, 3, 5)]));
    s.push(record("b", "zz", vec![glyph(2, 0, 0, 2)]));
    let mut m = EmoteOverlayManager::new(true);
    let (rows, _) = layout(&s, &mut m, 1, 3, 1, 80, 0);
    let rows: Vec<Row> = rows.into_iter().collect();
    assert_eq!(rows, vec![line(0, 1)]);
    let d = DisplayedGlyph { glyph_id: 1, placement_id: 0, row: 0, col_start: 0, col_span: 2 };
    assert_eq!(m.displayed, vec![d]);
}

#[test]
fn layout_second_line_of_single_record() {
    let mut s = MessageStore::new();
    s.push(record("a", "ab cd", vec![glyph(1, 0, 3, 5)]));
    let mut m = EmoteOverlayManager::new(true);
    let (rows, _) = layout(&s, &mut m, 1, 3, 0, 80, 2);
    let rows: Vec<Row> = rows.into_iter().collect();
    assert_eq!(rows, vec![line(0, 1)]);
    let d = DisplayedGlyph { glyph_id: 1, placement_id: 0, row: 0, col_start: 2, col_span: 2 };
    assert_eq!(m.displayed, vec![d]);
}

#[test]
fn layout_glyph_across_a_line_break_is_malformed() {
    let mut s = MessageStore::new();
    s.push(record("a", "ab cd", vec![glyph(1, 0, 0, 5)]));
    let mut m = EmoteOverlayManager::new(true);
    let (_, failures) = layout(&s, &mut m, 2, 3, 0, 80, 0);
    assert_eq!(failures, vec![(glyph(1, 0, 0, 5), PlaceError::MalformedRange)]);
    assert!(m.is_empty());
}

#[test]
fn controller_truncates_before_layout() {
    let mut core = ChatCore::new(true);
    for i in 0..4u32 {
        core.push(record(&format!("u{i}"), "x y", vec![glyph(i, 0, 0, 1)]));
    }
    let (rows, failures) = core.redraw(2, 3, 10, 0, 40, 0);
    let rows: Vec<Row> = rows.into_iter().collect();
    assert_eq!(rows, vec![blank(), line(0, 0), line(1, 0)]);
    assert!(failures.is_empty());
    assert_eq!(core.messages.len(), 2);
    assert!(!has_key(&core.emotes, 0, 0) && !has_key(&core.emotes, 1, 0));
    assert!(has_key(&core.emotes, 2, 0) && has_key(&core.emotes, 3, 0));
}

#[test]
fn system_records_skip_colour_hashing() {
    let b = DataBuilder::new("%H:%M");
    let s = b.system("1".to_string(), "hello".to_string());
    assert_eq!(s.author_color(&Palette::Pastel), None);
    let u = create_data();
    assert_eq!(u.author_color(&Palette::Pastel), Some(Rgb(159, 223, 221)));
}
