//! The data model: experiences, their events, event kinds, timings, and the
//! error taxonomy of the store.

use vstd::prelude::*;

verus! {

/// The enumerable, build-time fixed set of plugin kinds. Each event of a
/// record belongs to exactly one kind; the kind owns the payload format.
/// `timeline_plugin_experience` is the reserved kind under which connection
/// and creation events live.
#[allow(non_camel_case_types)]
#[derive(Clone, Copy, PartialEq, Eq, Structural, Debug)]
pub enum AvailableExperiencesPlugins {
    timeline_plugin_experience,
    timeline_plugin_media_scan,
    timeline_plugin_notes,
}

/// When an event happened: a single instant or a period, in milliseconds
/// since the Unix epoch.
#[derive(Clone, Copy, PartialEq, Eq, Structural, Debug)]
pub enum Timing {
    Instant(i64),
    Period(i64, i64),
}

/// The persisted form of an event: a title, a timing, and an opaque payload
/// string whose schema is owned by the event's plugin kind. The core only
/// round-trips `data`, except for the reserved connection kind (see
/// `payload`).
pub struct CompressedEvent {
    pub title: String,
    pub time: Timing,
    pub data: String,
}

/// Mathematical value of a `CompressedEvent`.
pub ghost struct CompressedEventV {
    pub title: Seq<char>,
    pub time: Timing,
    pub data: Seq<char>,
}

/// An event stored on an experience. `id` identifies the event within the
/// owning record across all kind buckets.
pub struct ExperienceEvent {
    pub favorite: bool,
    pub id: String,
    pub event: CompressedEvent,
}

/// Mathematical value of an `ExperienceEvent`.
pub ghost struct ExperienceEventV {
    pub favorite: bool,
    pub id: Seq<char>,
    pub event: CompressedEventV,
}

/// An event together with the kind bucket it was found under.
pub struct PluginExperienceEvent(pub AvailableExperiencesPlugins, pub ExperienceEvent);

/// A record: a name, a public/private flag, and events grouped in buckets by
/// plugin kind. Bucket order and the order of events inside a bucket are
/// kept; each kind sits in at most one bucket (`store::kinds_unique`, which
/// the store requires of loaded records and preserves through every plan).
pub struct Experience {
    pub name: String,
    pub public: bool,
    pub events: Vec<(AvailableExperiencesPlugins, Vec<ExperienceEvent>)>,
}

/// Mathematical value of an `Experience`.
pub ghost struct ExperienceV {
    pub name: Seq<char>,
    pub public: bool,
    pub events: Seq<(AvailableExperiencesPlugins, Seq<ExperienceEventV>)>,
}

/// The tagged union carried by the payload of an event of the reserved
/// connection kind: a link to a counterpart record, or a creation marker.
pub enum CompressedExperienceEvent {
    Experience(String),
    Create(Timing),
}

/// Mathematical value of a `CompressedExperienceEvent`.
pub ghost enum CompressedExperienceEventV {
    Experience(Seq<char>),
    Create(Timing),
}

/// A request to create a new record.
pub struct CreateExperienceRequest {
    pub name: String,
    pub time: Timing,
}

/// A request to set or clear the favorite flag of one event.
pub struct FavoriteRequest {
    pub event_id: String,
    pub favorite: bool,
}

/// One navigable link of a record, as shown to a browsing client.
pub struct ExperienceConnection {
    pub id: String,
    pub name: String,
}

/// What a browsing client learns about a record: its links, its name, and
/// whether it is public.
pub struct ExperienceConnectionResponse {
    pub connections: Vec<ExperienceConnection>,
    pub experience_name: String,
    pub public: bool,
}

/// Mathematical value of an `ExperienceConnection`.
pub ghost struct ExperienceConnectionV {
    pub id: Seq<char>,
    pub name: Seq<char>,
}

/// Mathematical value of an `ExperienceConnectionResponse`.
pub ghost struct ExperienceConnectionResponseV {
    pub connections: Seq<ExperienceConnectionV>,
    pub experience_name: Seq<char>,
    pub public: bool,
}

/// The error taxonomy of the store. All variants are recoverable and
/// surfaced to the caller; the message strings carry detail for operators.
#[derive(Debug)]
pub enum ExperienceError {
    NotFound(String),
    FileError(String),
    ParsingError(String),
    UnableToWrite(String),
    OperationNotAllowed(String),
}

pub type ExperienceResult<T> = Result<T, ExperienceError>;

impl DeepView for AvailableExperiencesPlugins {
    type V = AvailableExperiencesPlugins;

    open spec fn deep_view(&self) -> AvailableExperiencesPlugins {
        *self
    }
}

impl DeepView for Timing {
    type V = Timing;

    open spec fn deep_view(&self) -> Timing {
        *self
    }
}

impl DeepView for CompressedEvent {
    type V = CompressedEventV;

    open spec fn deep_view(&self) -> CompressedEventV {
        CompressedEventV { title: self.title@, time: self.time, data: self.data@ }
    }
}

impl DeepView for ExperienceEvent {
    type V = ExperienceEventV;

    open spec fn deep_view(&self) -> ExperienceEventV {
        ExperienceEventV { favorite: self.favorite, id: self.id@, event: self.event.deep_view() }
    }
}

impl DeepView for Experience {
    type V = ExperienceV;

    open spec fn deep_view(&self) -> ExperienceV {
        ExperienceV { name: self.name@, public: self.public, events: self.events.deep_view() }
    }
}

impl DeepView for CompressedExperienceEvent {
    type V = CompressedExperienceEventV;

    open spec fn deep_view(&self) -> CompressedExperienceEventV {
        match self {
            CompressedExperienceEvent::Experience(id) => CompressedExperienceEventV::Experience(
                id@,
            ),
            CompressedExperienceEvent::Create(t) => CompressedExperienceEventV::Create(*t),
        }
    }
}

impl DeepView for ExperienceConnection {
    type V = ExperienceConnectionV;

    open spec fn deep_view(&self) -> ExperienceConnectionV {
        ExperienceConnectionV { id: self.id@, name: self.name@ }
    }
}

impl DeepView for ExperienceConnectionResponse {
    type V = ExperienceConnectionResponseV;

    open spec fn deep_view(&self) -> ExperienceConnectionResponseV {
        ExperienceConnectionResponseV {
            connections: self.connections.deep_view(),
            experience_name: self.experience_name@,
            public: self.public,
        }
    }
}

impl Clone for CompressedEvent {
    fn clone(&self) -> (res: Self)
        ensures
            res.deep_view() == self.deep_view(),
    {
        CompressedEvent { title: self.title.clone(), time: self.time, data: self.data.clone() }
    }
}

impl Clone for ExperienceEvent {
    fn clone(&self) -> (res: Self)
        ensures
            res.deep_view() == self.deep_view(),
    {
        ExperienceEvent { favorite: self.favorite, id: self.id.clone(), event: self.event.clone() }
    }
}

impl PartialEq for CompressedEvent {
    fn eq(&self, other: &Self) -> (r: bool) {
        self.title == other.title && self.time == other.time && self.data == other.data
    }
}

impl vstd::std_specs::cmp::PartialEqSpecImpl for CompressedEvent {
    open spec fn obeys_eq_spec() -> bool {
        true
    }

    open spec fn eq_spec(&self, other: &Self) -> bool {
        self.deep_view() == other.deep_view()
    }
}

impl Clone for Experience {
    fn clone(&self) -> (res: Self)
        ensures
            res.deep_view() == self.deep_view(),
    {
        let mut events: Vec<(AvailableExperiencesPlugins, Vec<ExperienceEvent>)> = Vec::new();
        let mut i: usize = 0;
        while i < self.events.len()
            invariant
                i <= self.events.len(),
                events@.len() == i,
                events.deep_view() =~= self.events.deep_view().take(i as int),
            decreases self.events.len() - i,
        {
            let kind = self.events[i].0;
            let bucket = &self.events[i].1;
            let mut bucket2: Vec<ExperienceEvent> = Vec::new();
            let mut j: usize = 0;
            while j < bucket.len()
                invariant
                    j <= bucket.len(),
                    bucket2@.len() == j,
                    bucket2.deep_view() =~= bucket.deep_view().take(j as int),
                decreases bucket.len() - j,
            {
                bucket2.push(bucket[j].clone());
                proof {
                    assert(bucket2.deep_view() =~= bucket.deep_view().take(j + 1int));
                }
                j += 1;
            }
            proof {
                assert(bucket2.deep_view() =~= bucket.deep_view());
            }
            events.push((kind, bucket2));
            proof {
                assert(events.deep_view() =~= self.events.deep_view().take(i + 1int));
            }
            i += 1;
        }
        let res = Experience { name: self.name.clone(), public: self.public, events };
        proof {
            assert(res.events.deep_view() =~= self.events.deep_view());
        }
        res
    }
}

impl ExperienceEvent {
    /// The persisted form of this event.
    pub fn get_compressed_event(&self) -> (res: CompressedEvent)
        ensures
            res.deep_view() == self.event.deep_view(),
    {
        self.event.clone()
    }
}

impl PluginExperienceEvent {
    /// The persisted form of the wrapped event.
    pub fn get_compressed_event(&self) -> (res: CompressedEvent)
        ensures
            res.deep_view() == self.1.event.deep_view(),
    {
        self.1.get_compressed_event()
    }
}

impl ExperienceError {
    /// A human-readable rendering of the error, for operator logs.
    pub fn describe(&self) -> (res: &'static str)
        ensures
            res@ == match self {
                ExperienceError::NotFound(_) => "could not find experience"@,
                ExperienceError::FileError(_) => "unable to read the file correctly"@,
                ExperienceError::ParsingError(_) => "unable to parse data"@,
                ExperienceError::UnableToWrite(_) => "unable to write experience to file"@,
                ExperienceError::OperationNotAllowed(_) => "the performed operation is not allowed"@,
            },
    {
        match self {
            ExperienceError::NotFound(_) => "could not find experience",
            ExperienceError::FileError(_) => "unable to read the file correctly",
            ExperienceError::ParsingError(_) => "unable to parse data",
            ExperienceError::UnableToWrite(_) => "unable to write experience to file",
            ExperienceError::OperationNotAllowed(_) => "the performed operation is not allowed",
        }
    }
}

} // verus!
