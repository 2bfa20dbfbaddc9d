//! The composite renderer and the pixel canvas, with test plugin
//! capabilities standing in for the build-time registry.

use std::cell::Cell;
use std::collections::HashMap;

use experiences::canvas::{PixelCanvas, BLACK};
use experiences::payload::encode_connection_payload;
use experiences::render::{
    canvas_of_render, entire_experience_cover, favorite_items, layout_fits_check,
    layout_fits_upto_check, PluginRenderer, Renderer,
};
use experiences::store::{ExperienceManager, Step};
use experiences::types::{
    AvailableExperiencesPlugins, CompressedEvent, CompressedExperienceEvent, Experience,
    ExperienceResult, Timing,
};

const CONN: AvailableExperiencesPlugins = AvailableExperiencesPlugins::timeline_plugin_experience;
const NOTES: AvailableExperiencesPlugins = AvailableExperiencesPlugins::timeline_plugin_notes;

/// Renders a solid color, fails always, or fails once per distinct title.
enum TestPlugin {
    Solid(u32),
    AlwaysFails,
    FailsOnceFor(String, Cell<bool>),
}

impl PluginRenderer for TestPlugin {
    fn render(&self, dimensions: (u32, u32), event: &CompressedEvent) -> Result<Vec<u32>, String> {
        let count = (dimensions.0 as usize) * (dimensions.1 as usize);
        match self {
            TestPlugin::Solid(color) => Ok(vec![*color; count]),
            TestPlugin::AlwaysFails => Err(String::from("no picture")),
            TestPlugin::FailsOnceFor(title, tripped) => {
                if event.title == *title && !tripped.get() {
                    tripped.set(true);
                    Err(String::from("transient failure"))
                } else {
                    Ok(vec![0xFF00FF00; count])
                }
            }
        }
    }
}

fn note_event(title: &str) -> CompressedEvent {
    CompressedEvent {
        title: String::from(title),
        time: Timing::Instant(0),
        data: String::from("payload"),
    }
}

fn record_with_events(events: Vec<(AvailableExperiencesPlugins, bool, CompressedEvent)>) -> Experience {
    let mut buckets: Vec<(AvailableExperiencesPlugins, Vec<experiences::types::ExperienceEvent>)> =
        Vec::new();
    let mut n = 0usize;
    for (kind, favorite, event) in events {
        n += 1;
        let ev = experiences::types::ExperienceEvent {
            favorite,
            id: format!("event-{}", n),
            event,
        };
        match buckets.iter_mut().find(|(k, _)| *k == kind) {
            Some((_, b)) => b.push(ev),
            None => buckets.push((kind, vec![ev])),
        }
    }
    Experience { name: String::from("record"), public: false, events: buckets }
}

#[test]
fn canvas_of_render_takes_exact_buffers_and_blanks_the_rest() {
    let good = canvas_of_render((2, 2), Ok(vec![1, 2, 3, 4]));
    assert_eq!(good.width(), 2);
    assert_eq!(good.height(), 2);
    assert_eq!(good.pixel(0, 0), 1);
    assert_eq!(good.pixel(1, 0), 2);
    assert_eq!(good.pixel(0, 1), 3);
    assert_eq!(good.pixel(1, 1), 4);

    let short = canvas_of_render((2, 2), Ok(vec![1, 2, 3]));
    assert_eq!(short.pixel(1, 1), 0);
    let failed = canvas_of_render((2, 2), Err(String::from("x")));
    assert_eq!(failed.pixel(0, 0), 0);
}

#[test]
fn blit_copies_and_clips() {
    let mut dst = PixelCanvas::new(4, 4, BLACK);
    let src = PixelCanvas::new(2, 2, 0xFFFF0000);
    dst.blit(&src, 3, 3);
    assert_eq!(dst.pixel(3, 3), 0xFFFF0000);
    assert_eq!(dst.pixel(2, 3), BLACK);
    assert_eq!(dst.pixel(3, 2), BLACK);
    assert_eq!(dst.pixel(0, 0), BLACK);
}

#[test]
fn rgba_bytes_reorder_the_argb_words() {
    let c = PixelCanvas::new(1, 1, 0x80402010);
    let bytes = c.to_rgba_bytes();
    assert_eq!(bytes, vec![0x40, 0x20, 0x10, 0x80]);
}

#[test]
fn argb_packing_inverts_the_rgba_bytes() {
    let bytes: Vec<u8> = vec![0x40, 0x20, 0x10, 0x80, 0xFF, 0x00, 0x7F, 0x01];
    let words = PixelCanvas::argb_words_of_rgba(&bytes);
    assert_eq!(words, vec![0x80402010, 0x01FF007F]);
    // trailing bytes short of a whole pixel are not packed
    let ragged: Vec<u8> = vec![1, 2, 3, 4, 5];
    assert_eq!(PixelCanvas::argb_words_of_rgba(&ragged).len(), 1);
}

#[test]
fn render_event_uses_the_registered_plugin() {
    let renderer = Renderer::new(vec![(NOTES, TestPlugin::Solid(0xFF123456))]);
    let tile = renderer.render_event(NOTES, &note_event("t"), (3, 2));
    assert_eq!(tile.width(), 3);
    assert_eq!(tile.height(), 2);
    assert_eq!(tile.pixel(2, 1), 0xFF123456);
    // an unregistered kind yields a transparent tile
    let blank = renderer.render_event(CONN, &note_event("t"), (3, 2));
    assert_eq!(blank.pixel(0, 0), 0);
}

#[test]
fn favorites_cover_paints_only_favorite_events() {
    let record = record_with_events(vec![
        (NOTES, true, note_event("a")),
        (NOTES, false, note_event("b")),
    ]);
    let favorites = favorite_items(&record);
    assert_eq!(favorites.len(), 1);
    assert_eq!(favorites[0].1.title, "a");
    let renderer = Renderer::new(vec![(NOTES, TestPlugin::Solid(0xFFABCDEF))]);
    assert!(layout_fits_upto_check(2, 64));
    let cover = renderer.render_experience(&record, 64);
    assert_eq!(cover.width(), 64);
    assert_eq!(cover.height(), 64);
    // one favorite gets the whole square
    assert_eq!(cover.pixel(0, 0), 0xFFABCDEF);
    assert_eq!(cover.pixel(63, 63), 0xFFABCDEF);
}

#[test]
fn full_cover_survives_every_delegate_failing() {
    let record = record_with_events(vec![
        (NOTES, false, note_event("a")),
        (NOTES, false, note_event("b")),
        (NOTES, false, note_event("c")),
    ]);
    let renderer = Renderer::new(vec![(NOTES, TestPlugin::AlwaysFails)]);
    let cover = renderer.render_entire_experience(&record, 32);
    assert_eq!(cover.width(), 32);
    assert_eq!(cover.height(), 32);
    // every item was pruned: only the black background remains
    for x in [0u32, 15, 31] {
        for y in [0u32, 15, 31] {
            assert_eq!(cover.pixel(x, y), BLACK);
        }
    }
}

#[test]
fn full_cover_retries_after_a_single_transient_failure() {
    // five events, one of which fails once and then renders: the retry
    // composition of the remaining four still yields a complete canvas
    let record = record_with_events(vec![
        (NOTES, false, note_event("a")),
        (NOTES, false, note_event("b")),
        (NOTES, false, note_event("flaky")),
        (NOTES, false, note_event("d")),
        (NOTES, false, note_event("e")),
    ]);
    let renderer = Renderer::new(vec![(
        NOTES,
        TestPlugin::FailsOnceFor(String::from("flaky"), Cell::new(false)),
    )]);
    let cover = renderer.render_entire_experience(&record, 40);
    assert_eq!(cover.width(), 40);
    assert_eq!(cover.height(), 40);
    // after the retry the four remaining tiles cover the square
    assert_eq!(cover.pixel(0, 0), 0xFF00FF00);
    assert_eq!(cover.pixel(39, 39), 0xFF00FF00);
    assert_eq!(cover.pixel(20, 20), 0xFF00FF00);
}

#[test]
fn cover_png_has_the_png_signature() {
    let record = record_with_events(vec![(NOTES, false, note_event("a"))]);
    let renderer = Renderer::new(vec![(NOTES, TestPlugin::Solid(0xFF0000FF))]);
    let png = entire_experience_cover(&renderer, &record, 16).expect("encoding should succeed");
    assert_eq!(&png[0..8], &[0x89, 0x50, 0x4E, 0x47, 0x0D, 0x0A, 0x1A, 0x0A]);
}

#[test]
fn fits_checks_accept_everyday_sizes() {
    assert!(layout_fits_check(0, 500));
    assert!(layout_fits_check(24, 500));
    assert!(layout_fits_upto_check(24, 500));
}

#[test]
fn cover_regeneration_flow_after_save() {
    // the side effect of every save: covers are regenerated from the
    // persisted snapshot
    let mut mgr = ExperienceManager::new();
    let mut disk: HashMap<String, Experience> = HashMap::new();
    let (id, persist) = mgr.create_experience(String::from("Trip"), Timing::Instant(3));
    disk.insert(persist.id.clone(), persist.record.clone());
    mgr.commit_saved(&persist.id, &persist.record);

    let b = String::from("other-id");
    let other = record_with_events(vec![(NOTES, false, note_event("n"))]);
    disk.insert(b.clone(), other.clone());
    mgr.admit_loaded(&b, Ok(other)).unwrap();

    let event = CompressedEvent {
        title: String::from("link"),
        time: Timing::Instant(9),
        data: encode_connection_payload(&CompressedExperienceEvent::Experience(b.clone())),
    };
    let persists = drive_append(&mut mgr, &mut disk, &id, event).unwrap();
    assert_eq!(persists, b);

    let renderer = Renderer::new(vec![(NOTES, TestPlugin::Solid(0xFF101010))]);
    let snapshot = mgr.get_cached(&id).unwrap();
    let cover = renderer.render_experience(&snapshot, 50);
    assert_eq!(cover.width(), 50);
}

fn drive_append(
    mgr: &mut ExperienceManager,
    disk: &mut HashMap<String, Experience>,
    id: &String,
    event: CompressedEvent,
) -> ExperienceResult<String> {
    loop {
        match mgr.append_event(id, CONN, event.clone())? {
            Step::Ready { value, persists } => {
                for p in persists {
                    disk.insert(p.id.clone(), p.record.clone());
                    mgr.commit_saved(&p.id, &p.record);
                }
                return Ok(value);
            }
            Step::Missing { id: missing } => {
                let rec = disk.get(&missing).cloned().unwrap();
                mgr.admit_loaded(&missing, Ok(rec))?;
            }
            Step::Fail { error, persists } => {
                for p in persists {
                    disk.insert(p.id.clone(), p.record.clone());
                    mgr.commit_saved(&p.id, &p.record);
                }
                return Err(error);
            }
        }
    }
}
