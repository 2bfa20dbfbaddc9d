//! The store and connection graph manager, driven the way the surrounding
//! application drives them: an in-memory map stands in for the record
//! files.

use std::collections::HashMap;

use experiences::payload::encode_connection_payload;
use experiences::store::{ExperienceManager, Persist, Step};
use experiences::types::{
    AvailableExperiencesPlugins, CompressedEvent, CompressedExperienceEvent, Experience,
    ExperienceError, ExperienceEvent, ExperienceResult, Timing,
};

type Disk = HashMap<String, Experience>;

const CONN: AvailableExperiencesPlugins = AvailableExperiencesPlugins::timeline_plugin_experience;
const NOTES: AvailableExperiencesPlugins = AvailableExperiencesPlugins::timeline_plugin_notes;

fn write_all(mgr: &mut ExperienceManager, disk: &mut Disk, persists: Vec<Persist>) {
    for p in persists {
        disk.insert(p.id.clone(), p.record.clone());
        mgr.commit_saved(&p.id, &p.record);
    }
}

fn load_missing(mgr: &mut ExperienceManager, disk: &Disk, id: &String) -> ExperienceResult<()> {
    let loaded = match disk.get(id) {
        Some(r) => Ok(r.clone()),
        None => Err(ExperienceError::NotFound(String::from("no record file"))),
    };
    mgr.admit_loaded(id, loaded)?;
    Ok(())
}

fn drive_create(mgr: &mut ExperienceManager, disk: &mut Disk, name: &str, time: Timing) -> String {
    let (id, persist) = mgr.create_experience(String::from(name), time);
    write_all(mgr, disk, vec![persist]);
    id
}

fn drive_append(
    mgr: &mut ExperienceManager,
    disk: &mut Disk,
    id: &String,
    kind: AvailableExperiencesPlugins,
    event: CompressedEvent,
) -> ExperienceResult<String> {
    loop {
        match mgr.append_event(id, kind, event.clone())? {
            Step::Ready { value, persists } => {
                write_all(mgr, disk, persists);
                return Ok(value);
            }
            Step::Missing { id: missing } => load_missing(mgr, disk, &missing)?,
            Step::Fail { error, persists } => {
                write_all(mgr, disk, persists);
                return Err(error);
            }
        }
    }
}

fn drive_delete(
    mgr: &mut ExperienceManager,
    disk: &mut Disk,
    id: &String,
    event_id: &String,
) -> ExperienceResult<Option<(AvailableExperiencesPlugins, ExperienceEvent)>> {
    loop {
        match mgr.delete_event(id, event_id)? {
            Step::Ready { value, persists } => {
                write_all(mgr, disk, persists);
                return Ok(value);
            }
            Step::Missing { id: missing } => load_missing(mgr, disk, &missing)?,
            Step::Fail { error, persists } => {
                write_all(mgr, disk, persists);
                return Err(error);
            }
        }
    }
}

fn connect_event(target: &String, time: Timing) -> CompressedEvent {
    CompressedEvent {
        title: String::from("link"),
        time,
        data: encode_connection_payload(&CompressedExperienceEvent::Experience(target.clone())),
    }
}

fn connection_ids(record: &Experience) -> Vec<String> {
    let mut out = Vec::new();
    for (kind, bucket) in record.events.iter() {
        if *kind == CONN {
            for ev in bucket.iter() {
                out.push(ev.id.clone());
            }
        }
    }
    out
}

fn get(mgr: &ExperienceManager, id: &String) -> Experience {
    mgr.get_cached(id).expect("record should be cached")
}

#[test]
fn create_seeds_one_creation_event() {
    let mut mgr = ExperienceManager::new();
    let mut disk = Disk::new();
    let x = drive_create(&mut mgr, &mut disk, "Trip", Timing::Instant(10));
    let record = get(&mgr, &x);
    assert_eq!(record.name, "Trip");
    assert!(!record.public);
    assert_eq!(record.events.len(), 1);
    assert_eq!(record.events[0].0, CONN);
    assert_eq!(record.events[0].1.len(), 1);
    let creation = &record.events[0].1[0];
    assert_eq!(creation.id, x);
    assert!(!creation.favorite);
    assert_eq!(creation.event.title, "Trip");
    assert_eq!(creation.event.time, Timing::Instant(10));
}

#[test]
fn connect_builds_reciprocal_events() {
    let mut mgr = ExperienceManager::new();
    let mut disk = Disk::new();
    let a = drive_create(&mut mgr, &mut disk, "A", Timing::Instant(1));
    let b = drive_create(&mut mgr, &mut disk, "B", Timing::Instant(2));
    let returned = drive_append(&mut mgr, &mut disk, &a, CONN, connect_event(&b, Timing::Instant(7)))
        .expect("connect should succeed");
    assert_eq!(returned, b);
    let ra = get(&mgr, &a);
    let rb = get(&mgr, &b);
    assert!(connection_ids(&ra).contains(&b));
    assert!(connection_ids(&rb).contains(&a));
    // the new edges carry the counterpart names as titles
    let edge_on_a = ra.events[0].1.iter().find(|e| e.id == b).unwrap();
    assert_eq!(edge_on_a.event.title, "B");
    let edge_on_b = rb.events[0].1.iter().find(|e| e.id == a).unwrap();
    assert_eq!(edge_on_b.event.title, "A");
}

#[test]
fn relink_twice_leaves_one_reciprocal_pair() {
    let mut mgr = ExperienceManager::new();
    let mut disk = Disk::new();
    let a = drive_create(&mut mgr, &mut disk, "A", Timing::Instant(1));
    let b = drive_create(&mut mgr, &mut disk, "B", Timing::Instant(2));
    drive_append(&mut mgr, &mut disk, &a, CONN, connect_event(&b, Timing::Instant(3))).unwrap();
    drive_append(&mut mgr, &mut disk, &a, CONN, connect_event(&b, Timing::Instant(9))).unwrap();
    let ra = get(&mgr, &a);
    let rb = get(&mgr, &b);
    assert_eq!(connection_ids(&ra).iter().filter(|i| **i == b).count(), 1);
    assert_eq!(connection_ids(&rb).iter().filter(|i| **i == a).count(), 1);
}

#[test]
fn relink_keeps_the_earlier_link_time_on_the_target_side() {
    let mut mgr = ExperienceManager::new();
    let mut disk = Disk::new();
    let a = drive_create(&mut mgr, &mut disk, "A", Timing::Instant(1));
    let b = drive_create(&mut mgr, &mut disk, "B", Timing::Instant(2));
    drive_append(&mut mgr, &mut disk, &a, CONN, connect_event(&b, Timing::Instant(100))).unwrap();
    drive_append(&mut mgr, &mut disk, &a, CONN, connect_event(&b, Timing::Instant(200))).unwrap();
    let ra = get(&mgr, &a);
    let rb = get(&mgr, &b);
    // the caller's side always takes the supplied timing of the latest link
    let edge_on_a = ra.events[0].1.iter().find(|e| e.id == b).unwrap();
    assert_eq!(edge_on_a.event.time, Timing::Instant(200));
    // the target's side keeps the time of the caller's earlier reverse edge
    let edge_on_b = rb.events[0].1.iter().find(|e| e.id == a).unwrap();
    assert_eq!(edge_on_b.event.time, Timing::Instant(100));
}

#[test]
fn first_link_stamps_the_target_with_the_supplied_timing() {
    let mut mgr = ExperienceManager::new();
    let mut disk = Disk::new();
    let a = drive_create(&mut mgr, &mut disk, "A", Timing::Instant(1));
    let b = drive_create(&mut mgr, &mut disk, "B", Timing::Instant(2));
    drive_append(&mut mgr, &mut disk, &a, CONN, connect_event(&b, Timing::Instant(100))).unwrap();
    let rb = get(&mgr, &b);
    let edge_on_b = rb.events[0].1.iter().find(|e| e.id == a).unwrap();
    assert_eq!(edge_on_b.event.time, Timing::Instant(100));
}

#[test]
fn delete_removes_both_reciprocal_events() {
    let mut mgr = ExperienceManager::new();
    let mut disk = Disk::new();
    let a = drive_create(&mut mgr, &mut disk, "A", Timing::Instant(1));
    let b = drive_create(&mut mgr, &mut disk, "B", Timing::Instant(2));
    drive_append(&mut mgr, &mut disk, &a, CONN, connect_event(&b, Timing::Instant(3))).unwrap();

    let removed = drive_delete(&mut mgr, &mut disk, &a, &b).unwrap();
    let (kind, event) = removed.expect("the edge should be removed");
    assert_eq!(kind, CONN);
    assert_eq!(event.id, b);
    assert!(!connection_ids(&get(&mgr, &a)).contains(&b));
    assert!(!connection_ids(&get(&mgr, &b)).contains(&a));

    // a second delete finds nothing
    let again = drive_delete(&mut mgr, &mut disk, &a, &b).unwrap();
    assert!(again.is_none());
}

#[test]
fn delete_self_is_rejected_and_mutates_nothing() {
    let mut mgr = ExperienceManager::new();
    let mut disk = Disk::new();
    let a = drive_create(&mut mgr, &mut disk, "A", Timing::Instant(1));
    let before = get(&mgr, &a);
    let res = drive_delete(&mut mgr, &mut disk, &a, &a);
    assert!(matches!(res, Err(ExperienceError::OperationNotAllowed(_))));
    let after = get(&mgr, &a);
    assert_eq!(after.name, before.name);
    assert_eq!(after.events.len(), before.events.len());
    assert_eq!(after.events[0].1.len(), before.events[0].1.len());
    assert_eq!(after.events[0].1[0].id, before.events[0].1[0].id);
}

#[test]
fn append_generic_assigns_fresh_id_and_keeps_payload() {
    let mut mgr = ExperienceManager::new();
    let mut disk = Disk::new();
    let a = drive_create(&mut mgr, &mut disk, "A", Timing::Instant(1));
    let event = CompressedEvent {
        title: String::from("a note"),
        time: Timing::Period(3, 9),
        data: String::from("anything the plugin wrote"),
    };
    let new_id = drive_append(&mut mgr, &mut disk, &a, NOTES, event).unwrap();
    assert_eq!(new_id.len(), 36);
    let ra = get(&mgr, &a);
    assert_eq!(ra.events.len(), 2);
    assert_eq!(ra.events[1].0, NOTES);
    assert_eq!(ra.events[1].1[0].id, new_id);
    assert_eq!(ra.events[1].1[0].event.data, "anything the plugin wrote");
    assert_eq!(ra.events[1].1[0].event.time, Timing::Period(3, 9));
}

#[test]
fn append_connection_with_garbage_payload_is_a_parsing_error() {
    let mut mgr = ExperienceManager::new();
    let mut disk = Disk::new();
    let a = drive_create(&mut mgr, &mut disk, "A", Timing::Instant(1));
    let event = CompressedEvent {
        title: String::from("bad"),
        time: Timing::Instant(0),
        data: String::from("not a payload"),
    };
    let res = drive_append(&mut mgr, &mut disk, &a, CONN, event);
    assert!(matches!(res, Err(ExperienceError::ParsingError(_))));
}

#[test]
fn append_connection_create_payload_takes_generic_path() {
    let mut mgr = ExperienceManager::new();
    let mut disk = Disk::new();
    let a = drive_create(&mut mgr, &mut disk, "A", Timing::Instant(1));
    let event = CompressedEvent {
        title: String::from("created"),
        time: Timing::Instant(5),
        data: encode_connection_payload(&CompressedExperienceEvent::Create(Timing::Instant(5))),
    };
    let new_id = drive_append(&mut mgr, &mut disk, &a, CONN, event).unwrap();
    assert_eq!(new_id.len(), 36);
    let ra = get(&mgr, &a);
    // the event went under the reserved kind with a fresh id, payload kept
    assert_eq!(ra.events.len(), 1);
    assert_eq!(ra.events[0].1.len(), 2);
    assert_eq!(ra.events[0].1[1].id, new_id);
}

#[test]
fn deleting_a_connection_edge_with_garbage_payload_persists_then_errors() {
    // a removed connection event whose payload does not parse: the removal
    // itself is persisted first, and the error surfaces afterwards
    let mut mgr = ExperienceManager::new();
    let mut disk = Disk::new();
    let a = drive_create(&mut mgr, &mut disk, "A", Timing::Instant(1));
    let corrupt = Experience {
        name: String::from("A"),
        public: false,
        events: vec![(
            CONN,
            vec![ExperienceEvent {
                favorite: false,
                id: String::from("stray"),
                event: CompressedEvent {
                    title: String::from("broken edge"),
                    time: Timing::Instant(0),
                    data: String::from("not a payload"),
                },
            }],
        )],
    };
    disk.insert(a.clone(), corrupt.clone());
    mgr.admit_loaded(&a, Ok(corrupt)).unwrap();
    let stray = String::from("stray");
    let res = drive_delete(&mut mgr, &mut disk, &a, &stray);
    assert!(matches!(res, Err(ExperienceError::ParsingError(_))));
    // the removal reached the cache and the disk all the same
    let ra = get(&mgr, &a);
    assert!(ra.events.is_empty());
    assert!(disk.get(&a).unwrap().events.is_empty());
}

#[test]
fn favorite_flag_is_set_on_the_matching_event() {
    let mut mgr = ExperienceManager::new();
    let mut disk = Disk::new();
    let a = drive_create(&mut mgr, &mut disk, "A", Timing::Instant(1));
    let ev = CompressedEvent {
        title: String::from("n"),
        time: Timing::Instant(2),
        data: String::from("d"),
    };
    let eid = drive_append(&mut mgr, &mut disk, &a, NOTES, ev).unwrap();
    match mgr.favorite_event(&a, &eid, true).unwrap() {
        Step::Ready { persists, .. } => write_all(&mut mgr, &mut disk, persists),
        _ => panic!("record should be cached"),
    }
    let ra = get(&mgr, &a);
    assert!(ra.events[1].1[0].favorite);
    assert!(!ra.events[0].1[0].favorite);
}

#[test]
fn visibility_is_set_wholesale() {
    let mut mgr = ExperienceManager::new();
    let mut disk = Disk::new();
    let a = drive_create(&mut mgr, &mut disk, "A", Timing::Instant(1));
    assert!(!get(&mgr, &a).public);
    match mgr.set_experience_visibility(&a, true).unwrap() {
        Step::Ready { persists, .. } => write_all(&mut mgr, &mut disk, persists),
        _ => panic!("record should be cached"),
    }
    assert!(get(&mgr, &a).public);
}

#[test]
fn load_failures_pass_through_admit_loaded() {
    let mut mgr = ExperienceManager::new();
    let missing = String::from("nowhere");
    let res = mgr.admit_loaded(&missing, Err(ExperienceError::NotFound(String::from("gone"))));
    assert!(matches!(res, Err(ExperienceError::NotFound(_))));
    let res = mgr.admit_loaded(&missing, Err(ExperienceError::FileError(String::from("io"))));
    assert!(matches!(res, Err(ExperienceError::FileError(_))));
    let res = mgr.admit_loaded(
        &missing,
        Err(ExperienceError::UnableToWrite(String::from("io"))),
    );
    assert!(matches!(res, Err(ExperienceError::UnableToWrite(_))));
    assert!(mgr.get_cached(&missing).is_none());
}

#[test]
fn connections_listing_excludes_the_own_id() {
    let mut mgr = ExperienceManager::new();
    let mut disk = Disk::new();
    let a = drive_create(&mut mgr, &mut disk, "A", Timing::Instant(1));
    let b = drive_create(&mut mgr, &mut disk, "B", Timing::Instant(2));
    drive_append(&mut mgr, &mut disk, &a, CONN, connect_event(&b, Timing::Instant(3))).unwrap();
    let ra = get(&mgr, &a);
    let listed = experiences::store::connections_of(&ra, &a);
    assert_eq!(listed.len(), 1);
    assert_eq!(listed[0].id, b);
    let response = experiences::store::connection_response(&ra, &a);
    assert_eq!(response.experience_name, "A");
    assert!(!response.public);
    assert_eq!(response.connections.len(), 1);
}

#[test]
fn deleting_a_generic_event_drops_its_emptied_bucket() {
    let mut mgr = ExperienceManager::new();
    let mut disk = Disk::new();
    let a = drive_create(&mut mgr, &mut disk, "A", Timing::Instant(1));
    let ev = CompressedEvent {
        title: String::from("n"),
        time: Timing::Instant(2),
        data: String::from("d"),
    };
    let eid = drive_append(&mut mgr, &mut disk, &a, NOTES, ev).unwrap();
    assert_eq!(get(&mgr, &a).events.len(), 2);
    let removed = drive_delete(&mut mgr, &mut disk, &a, &eid).unwrap();
    let (kind, event) = removed.unwrap();
    assert_eq!(kind, NOTES);
    assert_eq!(event.id, eid);
    // the emptied bucket is gone
    assert_eq!(get(&mgr, &a).events.len(), 1);
    assert_eq!(get(&mgr, &a).events[0].0, CONN);
}

#[test]
fn accessors_round_trip_the_compressed_event() {
    let ev = ExperienceEvent {
        favorite: false,
        id: String::from("x"),
        event: CompressedEvent {
            title: String::from("t"),
            time: Timing::Instant(4),
            data: String::from("d"),
        },
    };
    let c = ev.get_compressed_event();
    assert_eq!(c.title, "t");
    assert_eq!(c.data, "d");
    let p = experiences::types::PluginExperienceEvent(NOTES, ev);
    assert_eq!(p.get_compressed_event().title, "t");
    let e = ExperienceError::ParsingError(String::from("m"));
    assert_eq!(e.describe(), "unable to parse data");
}
