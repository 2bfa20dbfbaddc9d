//! The experience store and connection graph manager.
//!
//! The manager owns the id-to-record cache. Reading and writing the
//! persisted record files is outside work: every mutating operation is a
//! plan, computed from the cached state, that returns the records to
//! persist; the surrounding driver writes each file and commits the new
//! value into the cache with `commit_saved` on success. When a record that
//! an operation needs is not cached, the operation answers
//! `Step::Missing` with the id to load, and the driver hands the loaded
//! record in through `admit_loaded` and asks again.

use vstd::prelude::*;

use crate::payload::{
    encode_connection_payload,
    encode_payload_spec,
    parse_connection_payload,
    parse_payload_spec,
};
use crate::types::{
    AvailableExperiencesPlugins,
    CompressedEvent,
    CompressedEventV,
    CompressedExperienceEvent,
    CompressedExperienceEventV,
    Experience,
    ExperienceConnection,
    ExperienceConnectionResponse,
    ExperienceConnectionV,
    ExperienceError,
    ExperienceEvent,
    ExperienceEventV,
    ExperienceResult,
    ExperienceV,
    Timing,
};

verus! {

/// The reserved kind under which connection and creation events live.
pub open spec fn conn_kind() -> AvailableExperiencesPlugins {
    AvailableExperiencesPlugins::timeline_plugin_experience
}

/// The index of the first bucket of kind `k`, or `evs.len()` if there is
/// none.
pub open spec fn kind_idx(
    evs: Seq<(AvailableExperiencesPlugins, Seq<ExperienceEventV>)>,
    k: AvailableExperiencesPlugins,
) -> int
    decreases evs.len(),
{
    if evs.len() == 0 {
        0
    } else if evs[0].0 == k {
        0
    } else {
        1 + kind_idx(evs.skip(1), k)
    }
}

pub open spec fn has_kind(
    evs: Seq<(AvailableExperiencesPlugins, Seq<ExperienceEventV>)>,
    k: AvailableExperiencesPlugins,
) -> bool {
    kind_idx(evs, k) < evs.len()
}

/// The bucket of kind `k`, or the empty sequence if there is none.
pub open spec fn bucket(v: ExperienceV, k: AvailableExperiencesPlugins) -> Seq<ExperienceEventV> {
    if has_kind(v.events, k) {
        v.events[kind_idx(v.events, k)].1
    } else {
        Seq::empty()
    }
}

/// `kind_idx` is the least index holding kind `k`, or the length.
pub proof fn lemma_kind_idx(
    evs: Seq<(AvailableExperiencesPlugins, Seq<ExperienceEventV>)>,
    k: AvailableExperiencesPlugins,
)
    ensures
        0 <= kind_idx(evs, k) <= evs.len(),
        forall|i: int| 0 <= i < kind_idx(evs, k) ==> evs[i].0 != k,
        kind_idx(evs, k) < evs.len() ==> evs[kind_idx(evs, k)].0 == k,
    decreases evs.len(),
{
    if evs.len() > 0 && evs[0].0 != k {
        lemma_kind_idx(evs.skip(1), k);
        assert forall|i: int| 0 <= i < kind_idx(evs, k) implies evs[i].0 != k by {
            if i > 0 {
                assert(evs.skip(1)[i - 1] == evs[i]);
            }
        }
        if kind_idx(evs, k) < evs.len() {
            assert(evs.skip(1)[kind_idx(evs, k) - 1] == evs[kind_idx(evs, k)]);
        }
    }
}

/// `b` without the events whose id is `id` (order otherwise kept).
pub open spec fn without_id(b: Seq<ExperienceEventV>, id: Seq<char>) -> Seq<ExperienceEventV>
    decreases b.len(),
{
    if b.len() == 0 {
        Seq::empty()
    } else {
        let rest = without_id(b.drop_last(), id);
        if b.last().id == id {
            rest
        } else {
            rest.push(b.last())
        }
    }
}

/// The events of `b` whose id is `id`, in order.
pub open spec fn matches_of(b: Seq<ExperienceEventV>, id: Seq<char>) -> Seq<ExperienceEventV>
    decreases b.len(),
{
    if b.len() == 0 {
        Seq::empty()
    } else {
        let rest = matches_of(b.drop_last(), id);
        if b.last().id == id {
            rest.push(b.last())
        } else {
            rest
        }
    }
}

/// The first event of `b` with id `id`, if any.
pub open spec fn find_in_bucket(b: Seq<ExperienceEventV>, id: Seq<char>) -> Option<ExperienceEventV>
    decreases b.len(),
{
    if b.len() == 0 {
        None
    } else if b[0].id == id {
        Some(b[0])
    } else {
        find_in_bucket(b.skip(1), id)
    }
}

/// A connection-kind event pointing at `to_id`: its id names the
/// counterpart, and its payload round-trips to `Experience(to_id)`. The
/// creation event seeded at record creation has the same shape, pointing at
/// the record itself.
pub open spec fn connection_event(to_id: Seq<char>, title: Seq<char>, time: Timing) -> ExperienceEventV {
    ExperienceEventV {
        favorite: false,
        id: to_id,
        event: CompressedEventV {
            title,
            time,
            data: encode_payload_spec(CompressedExperienceEventV::Experience(to_id)),
        },
    }
}

/// The record seeded by `create_experience`: private, with one creation
/// event under the reserved kind whose id is the record's own id.
pub open spec fn create_spec(name: Seq<char>, time: Timing, id: Seq<char>) -> ExperienceV {
    ExperienceV {
        name,
        public: false,
        events: seq![(conn_kind(), seq![connection_event(id, name, time)])],
    }
}

/// `v` with `e` appended to the bucket of kind `k` (creating the bucket at
/// the end if there is none).
pub open spec fn append_to_bucket(
    v: ExperienceV,
    k: AvailableExperiencesPlugins,
    e: ExperienceEventV,
) -> ExperienceV {
    if has_kind(v.events, k) {
        let i = kind_idx(v.events, k);
        ExperienceV { events: v.events.update(i, (k, v.events[i].1.push(e))), ..v }
    } else {
        ExperienceV { events: v.events.push((k, seq![e])), ..v }
    }
}

/// `v` with every connection event to `counterpart` replaced by the single
/// new event `e`: re-linking never duplicates.
pub open spec fn relink_bucket(v: ExperienceV, counterpart: Seq<char>, e: ExperienceEventV) -> ExperienceV {
    if has_kind(v.events, conn_kind()) {
        let i = kind_idx(v.events, conn_kind());
        ExperienceV {
            events: v.events.update(i, (conn_kind(), without_id(v.events[i].1, counterpart).push(e))),
            ..v
        }
    } else {
        ExperienceV { events: v.events.push((conn_kind(), seq![e])), ..v }
    }
}

/// The timing for the new edge placed on the target of a connect: the
/// timing of the caller's existing reverse edge to the target if one
/// exists (a re-link keeps the earlier link time), else the supplied
/// timing.
pub open spec fn reverse_edge_time(b: ExperienceV, target_id: Seq<char>, supplied: Timing) -> Timing {
    match find_in_bucket(bucket(b, conn_kind()), target_id) {
        Some(e) => e.event.time,
        None => supplied,
    }
}

/// The update applied to the target record `a` when the caller `b` links to
/// it: a reciprocal event with id `b_id`, payload `Experience(b_id)`,
/// titled with `b`'s current name.
pub open spec fn connect_target_update(
    a: ExperienceV,
    b: ExperienceV,
    a_id: Seq<char>,
    b_id: Seq<char>,
    supplied: Timing,
) -> ExperienceV {
    relink_bucket(a, b_id, connection_event(b_id, b.name, reverse_edge_time(b, a_id, supplied)))
}

/// The update applied to the caller record `b` when it links to `a`: an
/// event with id `a_id`, payload `Experience(a_id)`, titled with `a`'s
/// name, timed with the supplied timing.
pub open spec fn connect_caller_update(
    a: ExperienceV,
    b: ExperienceV,
    a_id: Seq<char>,
    b_id: Seq<char>,
    supplied: Timing,
) -> ExperienceV {
    relink_bucket(b, a_id, connection_event(a_id, a.name, supplied))
}

/// The event a delete removes: the last event with the given id, bucket
/// order then event order, with its kind.
pub open spec fn removed_from_buckets(
    evs: Seq<(AvailableExperiencesPlugins, Seq<ExperienceEventV>)>,
    id: Seq<char>,
) -> Option<(AvailableExperiencesPlugins, ExperienceEventV)>
    decreases evs.len(),
{
    if evs.len() == 0 {
        None
    } else {
        let m = matches_of(evs.last().1, id);
        if m.len() > 0 {
            Some((evs.last().0, m.last()))
        } else {
            removed_from_buckets(evs.drop_last(), id)
        }
    }
}

/// All buckets of `evs`, each without the events whose id is `id`.
pub open spec fn retain_buckets(
    evs: Seq<(AvailableExperiencesPlugins, Seq<ExperienceEventV>)>,
    id: Seq<char>,
) -> Seq<(AvailableExperiencesPlugins, Seq<ExperienceEventV>)> {
    Seq::new(evs.len(), |i: int| (evs[i].0, without_id(evs[i].1, id)))
}

/// `evs` without the now-empty buckets of kind `k`.
pub open spec fn drop_empty_of_kind(
    evs: Seq<(AvailableExperiencesPlugins, Seq<ExperienceEventV>)>,
    k: AvailableExperiencesPlugins,
) -> Seq<(AvailableExperiencesPlugins, Seq<ExperienceEventV>)>
    decreases evs.len(),
{
    if evs.len() == 0 {
        Seq::empty()
    } else {
        let rest = drop_empty_of_kind(evs.drop_last(), k);
        if evs.last().0 == k && evs.last().1.len() == 0 {
            rest
        } else {
            rest.push(evs.last())
        }
    }
}

/// The record after removing every event with id `id`, dropping the
/// removed event's bucket if the removal emptied it.
pub open spec fn remove_event_spec(v: ExperienceV, id: Seq<char>) -> ExperienceV {
    let evs = retain_buckets(v.events, id);
    match removed_from_buckets(v.events, id) {
        None => ExperienceV { events: evs, ..v },
        Some((k, _)) => ExperienceV { events: drop_empty_of_kind(evs, k), ..v },
    }
}

/// The record with the favorite flag of every event with id `id` set to
/// `f`.
pub open spec fn favorite_spec(v: ExperienceV, id: Seq<char>, f: bool) -> ExperienceV {
    ExperienceV {
        events: Seq::new(
            v.events.len(),
            |i: int|
                (
                    v.events[i].0,
                    Seq::new(
                        v.events[i].1.len(),
                        |j: int|
                            if v.events[i].1[j].id == id {
                                ExperienceEventV { favorite: f, ..v.events[i].1[j] }
                            } else {
                                v.events[i].1[j]
                            },
                    ),
                ),
        ),
        ..v
    }
}

/// Every kind appears in at most one bucket: the shape the original
/// per-kind mapping of a record guarantees, established by `create_spec`
/// and preserved by every planning operation.
pub open spec fn kinds_unique(evs: Seq<(AvailableExperiencesPlugins, Seq<ExperienceEventV>)>) -> bool {
    forall|i: int, j: int| 0 <= i < j < evs.len() ==> evs[i].0 != evs[j].0
}

/// Every bucket that survives the empty-bucket drop was a bucket before.
pub proof fn lemma_drop_empty_members(
    evs: Seq<(AvailableExperiencesPlugins, Seq<ExperienceEventV>)>,
    k: AvailableExperiencesPlugins,
)
    ensures
        forall|i: int|
            0 <= i < drop_empty_of_kind(evs, k).len() ==> exists|si: int|
                0 <= si < evs.len() && #[trigger] drop_empty_of_kind(evs, k)[i] == evs[si],
    decreases evs.len(),
{
    if evs.len() > 0 {
        lemma_drop_empty_members(evs.drop_last(), k);
        let d = drop_empty_of_kind(evs, k);
        let rest = drop_empty_of_kind(evs.drop_last(), k);
        assert forall|i: int|
            0 <= i < d.len() implies exists|si: int|
            0 <= si < evs.len() && #[trigger] d[i] == evs[si] by {
            if evs.last().0 == k && evs.last().1.len() == 0 {
                let si = choose|si: int|
                    0 <= si < evs.drop_last().len() && rest[i] == evs.drop_last()[si];
                assert(d[i] == evs[si]);
            } else {
                if i < rest.len() {
                    let si = choose|si: int|
                        0 <= si < evs.drop_last().len() && rest[i] == evs.drop_last()[si];
                    assert(d[i] == evs[si]);
                } else {
                    assert(d[i] == evs[evs.len() - 1]);
                }
            }
        }
    }
}

/// Appending under a kind keeps every kind in at most one bucket.
pub proof fn lemma_append_keeps_kinds(
    v: ExperienceV,
    k: AvailableExperiencesPlugins,
    e: ExperienceEventV,
)
    requires
        kinds_unique(v.events),
    ensures
        kinds_unique(append_to_bucket(v, k, e).events),
{
    lemma_kind_idx(v.events, k);
    let evs2 = append_to_bucket(v, k, e).events;
    if has_kind(v.events, k) {
        assert(forall|i: int| 0 <= i < evs2.len() ==> evs2[i].0 == v.events[i].0);
    } else {
        assert(forall|i: int| 0 <= i < v.events.len() ==> evs2[i] == v.events[i]);
        assert(forall|i: int| 0 <= i < v.events.len() ==> v.events[i].0 != k);
    }
}

/// Re-linking keeps every kind in at most one bucket.
pub proof fn lemma_relink_keeps_kinds(v: ExperienceV, counterpart: Seq<char>, e: ExperienceEventV)
    requires
        kinds_unique(v.events),
    ensures
        kinds_unique(relink_bucket(v, counterpart, e).events),
{
    lemma_kind_idx(v.events, conn_kind());
    let evs2 = relink_bucket(v, counterpart, e).events;
    if has_kind(v.events, conn_kind()) {
        assert(forall|i: int| 0 <= i < evs2.len() ==> evs2[i].0 == v.events[i].0);
    } else {
        assert(forall|i: int| 0 <= i < v.events.len() ==> evs2[i] == v.events[i]);
        assert(forall|i: int| 0 <= i < v.events.len() ==> v.events[i].0 != conn_kind());
    }
}

/// Dropping emptied buckets keeps every kind in at most one bucket.
proof fn lemma_drop_empty_keeps_kinds(
    evs: Seq<(AvailableExperiencesPlugins, Seq<ExperienceEventV>)>,
    k: AvailableExperiencesPlugins,
)
    requires
        kinds_unique(evs),
    ensures
        kinds_unique(drop_empty_of_kind(evs, k)),
    decreases evs.len(),
{
    if evs.len() > 0 {
        assert(forall|i: int| 0 <= i < evs.drop_last().len() ==> evs.drop_last()[i] == evs[i]);
        lemma_drop_empty_keeps_kinds(evs.drop_last(), k);
        lemma_drop_empty_members(evs.drop_last(), k);
        let d = drop_empty_of_kind(evs, k);
        let rest = drop_empty_of_kind(evs.drop_last(), k);
        if !(evs.last().0 == k && evs.last().1.len() == 0) {
            assert forall|i: int, j: int| 0 <= i < j < d.len() implies d[i].0 != d[j].0 by {
                assert(forall|x: int| 0 <= x < rest.len() ==> d[x] == rest[x]);
                if j == d.len() - 1 {
                    let si = choose|si: int|
                        0 <= si < evs.drop_last().len() && rest[i] == evs.drop_last()[si];
                    assert(d[i] == evs[si]);
                    assert(d[j] == evs.last());
                    assert(evs[si].0 != evs.last().0);
                }
            }
        }
    }
}

/// Removing an event id keeps every kind in at most one bucket.
pub proof fn lemma_remove_keeps_kinds(v: ExperienceV, id: Seq<char>)
    requires
        kinds_unique(v.events),
    ensures
        kinds_unique(remove_event_spec(v, id).events),
{
    let stripped = retain_buckets(v.events, id);
    assert(forall|i: int| 0 <= i < stripped.len() ==> stripped[i].0 == v.events[i].0);
    assert(kinds_unique(stripped));
    match removed_from_buckets(v.events, id) {
        None => {},
        Some((k, _)) => {
            lemma_drop_empty_keeps_kinds(stripped, k);
        },
    }
}

/// Setting a favorite flag keeps every kind in at most one bucket.
pub proof fn lemma_favorite_keeps_kinds(v: ExperienceV, id: Seq<char>, f: bool)
    requires
        kinds_unique(v.events),
    ensures
        kinds_unique(favorite_spec(v, id, f).events),
{
    let evs2 = favorite_spec(v, id, f).events;
    assert(forall|i: int| 0 <= i < evs2.len() ==> evs2[i].0 == v.events[i].0);
}

/// An id-to-record map built from cache entries, later entries winning.
pub open spec fn map_of(s: Seq<(Seq<char>, ExperienceV)>) -> Map<Seq<char>, ExperienceV>
    decreases s.len(),
{
    if s.len() == 0 {
        Map::empty()
    } else {
        map_of(s.drop_last()).insert(s.last().0, s.last().1)
    }
}

pub open spec fn keys_unique(s: Seq<(Seq<char>, ExperienceV)>) -> bool {
    forall|i: int, j: int| 0 <= i < j < s.len() ==> s[i].0 != s[j].0
}

/// With unique keys, `map_of` is exactly the entries.
proof fn lemma_map_of(s: Seq<(Seq<char>, ExperienceV)>)
    requires
        keys_unique(s),
    ensures
        forall|k: Seq<char>|
            map_of(s).contains_key(k) <==> exists|i: int| 0 <= i < s.len() && s[i].0 == k,
        forall|i: int| 0 <= i < s.len() ==> #[trigger] map_of(s)[s[i].0] == s[i].1,
    decreases s.len(),
{
    if s.len() > 0 {
        assert(keys_unique(s.drop_last()));
        lemma_map_of(s.drop_last());
        assert forall|i: int| 0 <= i < s.len() implies #[trigger] map_of(s)[s[i].0] == s[i].1 by {
            if i < s.len() - 1 {
                assert(s.drop_last()[i] == s[i]);
                assert(s[i].0 != s.last().0);
                assert(map_of(s.drop_last())[s.drop_last()[i].0] == s.drop_last()[i].1);
                assert(map_of(s)[s[i].0] == map_of(s.drop_last())[s[i].0]);
            }
        }
        assert forall|k: Seq<char>|
            map_of(s).contains_key(k) implies exists|i: int| 0 <= i < s.len() && s[i].0 == k by {
            if k == s.last().0 {
                assert(s[s.len() - 1].0 == k);
            } else {
                assert(map_of(s.drop_last()).contains_key(k));
                let i = choose|i: int| 0 <= i < s.drop_last().len() && s.drop_last()[i].0 == k;
                assert(s.drop_last()[i] == s[i]);
                assert(s[i].0 == k);
            }
        }
        assert forall|k: Seq<char>|
            (exists|i: int| 0 <= i < s.len() && s[i].0 == k) implies map_of(s).contains_key(k) by {
            let i = choose|i: int| 0 <= i < s.len() && s[i].0 == k;
            if i < s.len() - 1 {
                assert(s.drop_last()[i] == s[i]);
                assert(exists|j: int|
                    0 <= j < s.drop_last().len() && s.drop_last()[j].0 == k);
                assert(map_of(s.drop_last()).contains_key(k));
            }
        }
    }
}

/// A record to persist: write `record` to the file of `id`, then commit it.
pub struct Persist {
    pub id: String,
    pub record: Experience,
}

/// Every record a plan asks to persist keeps each kind in one bucket, so
/// committing it preserves the cache's well-formedness.
pub open spec fn plan_kinds_unique(persists: Vec<Persist>) -> bool {
    forall|i: int|
        0 <= i < persists@.len() ==> kinds_unique(
            #[trigger] persists@[i].record.deep_view().events,
        )
}

/// The answer of a planning operation: the plan is ready; or a record must
/// be loaded into the cache first and the operation asked again; or the
/// operation fails but some persists must still run first (a delete whose
/// removed connection event carries an unparsable payload persists the
/// removal before surfacing the error). The driver runs the persists of
/// `Ready` and `Fail` in order, committing each written record, and then
/// returns the value or the error.
pub enum Step<T> {
    Ready { value: T, persists: Vec<Persist> },
    Missing { id: String },
    Fail { error: ExperienceError, persists: Vec<Persist> },
}

/// The cached, file-backed record store and connection graph manager.
pub struct ExperienceManager {
    cache: Vec<(String, Experience)>,
}

impl View for ExperienceManager {
    type V = Map<Seq<char>, ExperienceV>;

    closed spec fn view(&self) -> Map<Seq<char>, ExperienceV> {
        map_of(self.cache.deep_view())
    }
}

impl ExperienceManager {
    /// The cache holds at most one entry per id. Established by `new` and
    /// preserved by every method.
    pub closed spec fn wf(&self) -> bool {
        &&& keys_unique(self.cache.deep_view())
        &&& forall|i: int|
            0 <= i < self.cache.deep_view().len() ==> kinds_unique(
                #[trigger] self.cache.deep_view()[i].1.events,
            )
    }

    /// A manager with an empty cache.
    pub fn new() -> (r: Self)
        ensures
            r@ == Map::<Seq<char>, ExperienceV>::empty(),
            r.wf(),
    {
        let r = ExperienceManager { cache: Vec::new() };
        proof {
            assert(r.cache.deep_view() =~= Seq::<(Seq<char>, ExperienceV)>::empty());
        }
        r
    }

    /// The index of the cache entry for `id`, if one exists.
    fn position_of(&self, id: &String) -> (r: Option<usize>)
        ensures
            match r {
                Some(i) => i < self.cache@.len() && self.cache@[i as int].0@ == id@,
                None => forall|i: int| 0 <= i < self.cache@.len() ==> self.cache@[i].0@ != id@,
            },
    {
        let mut i: usize = 0;
        while i < self.cache.len()
            invariant
                i <= self.cache@.len(),
                forall|j: int| 0 <= j < i ==> self.cache@[j].0@ != id@,
            decreases self.cache@.len() - i,
        {
            if self.cache[i].0 == *id {
                return Some(i);
            }
            i += 1;
        }
        None
    }

    proof fn lemma_view(&self)
        requires
            self.wf(),
        ensures
            forall|k: Seq<char>|
                self@.contains_key(k) <==> exists|i: int|
                    0 <= i < self.cache.deep_view().len() && self.cache.deep_view()[i].0 == k,
            forall|i: int|
                0 <= i < self.cache.deep_view().len() ==> #[trigger] self@[self.cache.deep_view()[i].0]
                    == self.cache.deep_view()[i].1,
    {
        lemma_map_of(self.cache.deep_view());
    }

    /// Every cached record keeps each kind in at most one bucket.
    proof fn lemma_cached_kinds(&self, k: Seq<char>)
        requires
            self.wf(),
            self@.contains_key(k),
        ensures
            kinds_unique(self@[k].events),
    {
        self.lemma_view();
        let i = choose|i: int|
            0 <= i < self.cache.deep_view().len() && self.cache.deep_view()[i].0 == k;
        assert(self@[self.cache.deep_view()[i].0] == self.cache.deep_view()[i].1);
    }

    /// The cached snapshot of `id`, if one is cached: a whole record with
    /// each kind in at most one bucket.
    pub fn get_cached(&self, id: &String) -> (r: Option<Experience>)
        requires
            self.wf(),
        ensures
            match r {
                Some(e) => self@.contains_key(id@) && e.deep_view() == self@[id@]
                    && kinds_unique(e.deep_view().events),
                None => !self@.contains_key(id@),
            },
    {
        proof {
            self.lemma_view();
        }
        match self.position_of(id) {
            Some(i) => {
                proof {
                    assert(self.cache.deep_view()[i as int].0 == id@);
                    assert(kinds_unique(self.cache.deep_view()[i as int].1.events));
                }
                Some(self.cache[i].1.clone())
            },
            None => {
                proof {
                    if self@.contains_key(id@) {
                        let i = choose|i: int|
                            0 <= i < self.cache.deep_view().len() && self.cache.deep_view()[i].0
                                == id@;
                        assert(self.cache@[i].0@ == id@);
                    }
                }
                None
            },
        }
    }

    /// Replaces the cache entry of `id` wholesale. Called by the driver
    /// after the record file of `id` was written successfully; the record
    /// comes from a plan or a load, so each kind sits in one bucket.
    pub fn commit_saved(&mut self, id: &String, record: &Experience)
        requires
            old(self).wf(),
            kinds_unique(record.deep_view().events),
        ensures
            final(self).wf(),
            final(self)@ == old(self)@.insert(id@, record.deep_view()),
    {
        let entry = (id.clone(), record.clone());
        let ghost pre = self.cache.deep_view();
        match self.position_of(id) {
            Some(i) => {
                self.cache.set(i, entry);
                proof {
                    assert(self.cache.deep_view() =~= pre.update(
                        i as int,
                        (id@, record.deep_view()),
                    ));
                    lemma_map_of_update(pre, i as int, id@, record.deep_view());
                    assert(forall|j: int|
                        0 <= j < pre.len() && j != i ==> self.cache.deep_view()[j] == pre[j]);
                }
            },
            None => {
                self.cache.push(entry);
                proof {
                    assert(self.cache.deep_view() =~= pre.push((id@, record.deep_view())));
                    assert(self.cache.deep_view().drop_last() =~= pre);
                    assert(forall|j: int|
                        0 <= j < pre.len() ==> self.cache.deep_view()[j] == pre[j]);
                    assert(keys_unique(self.cache.deep_view()));
                }
            },
        }
    }

    /// The outcome of a load the driver performed for `id`: a successfully
    /// loaded record is cached and returned, a load failure is passed
    /// through unchanged. A loaded record deserializes from the per-kind
    /// mapping of the record file, so each kind sits in one bucket.
    pub fn admit_loaded(&mut self, id: &String, loaded: ExperienceResult<Experience>) -> (r:
        ExperienceResult<Experience>)
        requires
            old(self).wf(),
            loaded matches Ok(e) ==> kinds_unique(e.deep_view().events),
        ensures
            final(self).wf(),
            match loaded {
                Ok(e) => final(self)@ == old(self)@.insert(id@, e.deep_view()) && (r matches Ok(v)
                    && v.deep_view() == e.deep_view()),
                Err(_) => final(self)@ == old(self)@ && r == loaded,
            },
    {
        match loaded {
            Ok(e) => {
                self.commit_saved(id, &e);
                Ok(e)
            },
            Err(x) => Err(x),
        }
    }
}

/// A copy of a bucket with the same mathematical value.
fn clone_bucket(b: &Vec<ExperienceEvent>) -> (r: Vec<ExperienceEvent>)
    ensures
        r.deep_view() == b.deep_view(),
{
    let mut out: Vec<ExperienceEvent> = Vec::new();
    let mut j: usize = 0;
    while j < b.len()
        invariant
            j <= b.len(),
            out@.len() == j,
            out.deep_view() =~= b.deep_view().take(j as int),
        decreases b.len() - j,
    {
        out.push(b[j].clone());
        proof {
            assert(out.deep_view() =~= b.deep_view().take(j + 1int));
        }
        j += 1;
    }
    proof {
        assert(out.deep_view() =~= b.deep_view());
    }
    out
}

/// `record` with `ev` appended under `kind`'s bucket, the bucket created at
/// the end if the record had none.
#[verifier::loop_isolation(false)]
pub fn append_generic(record: &Experience, kind: AvailableExperiencesPlugins, ev: ExperienceEvent) -> (r:
    Experience)
    ensures
        r.deep_view() == append_to_bucket(record.deep_view(), kind, ev.deep_view()),
{
    let ghost v = record.deep_view();
    proof {
        lemma_kind_idx(v.events, kind);
    }
    let ghost kidx = kind_idx(v.events, kind);
    let ghost evv = ev.deep_view();
    let ghost target: Seq<(AvailableExperiencesPlugins, Seq<ExperienceEventV>)> = if kidx
        < v.events.len() {
        v.events.update(kidx, (kind, v.events[kidx].1.push(evv)))
    } else {
        v.events.push((kind, seq![evv]))
    };
    let mut events: Vec<(AvailableExperiencesPlugins, Vec<ExperienceEvent>)> = Vec::new();
    let mut found = false;
    let mut i: usize = 0;
    while i < record.events.len()
        invariant
            i <= record.events@.len(),
            events@.len() == i,
            found <==> kidx < i,
            forall|j: int| 0 <= j < i ==> events.deep_view()[j] == target[j],
        decreases record.events@.len() - i,
    {
        let pk = record.events[i].0;
        proof {
            assert(v.events[i as int] == (record.events@[i as int].0,
                record.events@[i as int].1.deep_view()));
        }
        if pk == kind && !found {
            proof {
                if kidx > i {
                    assert(v.events[i as int].0 != kind);
                }
                assert(kidx == i);
            }
            let mut b2 = clone_bucket(&record.events[i].1);
            b2.push(ev.clone());
            proof {
                assert(b2.deep_view() =~= v.events[i as int].1.push(evv));
            }
            events.push((pk, b2));
            found = true;
            proof {
                assert(events.deep_view()[i as int] == (kind, v.events[i as int].1.push(evv)));
                assert(target[i as int] == (kind, v.events[i as int].1.push(evv)));
            }
        } else {
            let b2 = clone_bucket(&record.events[i].1);
            events.push((pk, b2));
            proof {
                assert(events.deep_view()[i as int] == v.events[i as int]);
                assert(target[i as int] == v.events[i as int]);
            }
        }
        i += 1;
    }
    if !found {
        let mut nb: Vec<ExperienceEvent> = Vec::new();
        nb.push(ev);
        proof {
            assert(nb@[0] == ev);
            assert(nb.deep_view() =~= seq![evv]);
        }
        events.push((kind, nb));
        proof {
            assert(events.deep_view()[v.events.len() as int] == (kind, seq![evv]));
        }
    }
    let r = Experience { name: record.name.clone(), public: record.public, events };
    proof {
        assert(r.events.deep_view() =~= target);
    }
    r
}

/// `record` with every connection event to `counterpart` removed and `ev`
/// appended to the connection bucket: the re-link step of a connect.
#[verifier::loop_isolation(false)]
pub fn relink(record: &Experience, counterpart: &String, ev: ExperienceEvent) -> (r: Experience)
    ensures
        r.deep_view() == relink_bucket(record.deep_view(), counterpart@, ev.deep_view()),
{
    let ghost v = record.deep_view();
    let kind = AvailableExperiencesPlugins::timeline_plugin_experience;
    proof {
        lemma_kind_idx(v.events, conn_kind());
    }
    let ghost kidx = kind_idx(v.events, conn_kind());
    let ghost evv = ev.deep_view();
    let ghost target: Seq<(AvailableExperiencesPlugins, Seq<ExperienceEventV>)> = if kidx
        < v.events.len() {
        v.events.update(kidx, (conn_kind(), without_id(v.events[kidx].1, counterpart@).push(evv)))
    } else {
        v.events.push((conn_kind(), seq![evv]))
    };
    let mut events: Vec<(AvailableExperiencesPlugins, Vec<ExperienceEvent>)> = Vec::new();
    let mut found = false;
    let mut i: usize = 0;
    while i < record.events.len()
        invariant
            i <= record.events@.len(),
            events@.len() == i,
            found <==> kidx < i,
            forall|j: int| 0 <= j < i ==> events.deep_view()[j] == target[j],
        decreases record.events@.len() - i,
    {
        let pk = record.events[i].0;
        proof {
            assert(v.events[i as int] == (record.events@[i as int].0,
                record.events@[i as int].1.deep_view()));
        }
        if pk == kind && !found {
            proof {
                if kidx > i {
                    assert(v.events[i as int].0 != conn_kind());
                }
                assert(kidx == i);
            }
            let b = &record.events[i].1;
            let mut b2: Vec<ExperienceEvent> = Vec::new();
            let mut jj: usize = 0;
            while jj < b.len()
                invariant
                    jj <= b@.len(),
                    b.deep_view() == v.events[i as int].1,
                    b2.deep_view() =~= without_id(b.deep_view().take(jj as int), counterpart@),
                decreases b@.len() - jj,
            {
                proof {
                    assert(b.deep_view().take(jj + 1int).drop_last() =~= b.deep_view().take(
                        jj as int,
                    ));
                    assert(b.deep_view().take(jj + 1int).last() == b.deep_view()[jj as int]);
                }
                if !(b[jj].id == *counterpart) {
                    b2.push(b[jj].clone());
                    proof {
                        assert(b2.deep_view() =~= without_id(
                            b.deep_view().take(jj + 1int),
                            counterpart@,
                        ));
                    }
                }
                jj += 1;
            }
            proof {
                assert(b.deep_view().take(b@.len() as int) =~= b.deep_view());
            }
            b2.push(ev.clone());
            proof {
                assert(b2.deep_view() =~= without_id(v.events[i as int].1, counterpart@).push(evv));
            }
            events.push((pk, b2));
            found = true;
            proof {
                assert(events.deep_view()[i as int] == (conn_kind(), without_id(
                    v.events[i as int].1,
                    counterpart@,
                ).push(evv)));
                assert(target[i as int] == (conn_kind(), without_id(
                    v.events[i as int].1,
                    counterpart@,
                ).push(evv)));
            }
        } else {
            let b2 = clone_bucket(&record.events[i].1);
            events.push((pk, b2));
            proof {
                assert(events.deep_view()[i as int] == v.events[i as int]);
                assert(target[i as int] == v.events[i as int]);
            }
        }
        i += 1;
    }
    if !found {
        let mut nb: Vec<ExperienceEvent> = Vec::new();
        nb.push(ev);
        proof {
            assert(nb@[0] == ev);
            assert(nb.deep_view() =~= seq![evv]);
        }
        events.push((kind, nb));
        proof {
            assert(events.deep_view()[v.events.len() as int] == (conn_kind(), seq![evv]));
        }
    }
    let r = Experience { name: record.name.clone(), public: record.public, events };
    proof {
        assert(r.events.deep_view() =~= target);
    }
    r
}

/// Removes every event with id `event_id` from `record`, dropping the
/// removed event's bucket if that emptied it; returns the new record and
/// the removed event with its kind (the last match, in bucket order then
/// event order), or `None` if nothing matched.
#[verifier::loop_isolation(false)]
pub fn remove_event(record: &Experience, event_id: &String) -> (r: (
    Experience,
    Option<(AvailableExperiencesPlugins, ExperienceEvent)>,
))
    ensures
        r.0.deep_view() == remove_event_spec(record.deep_view(), event_id@),
        match r.1 {
            Some(p) => removed_from_buckets(record.deep_view().events, event_id@) == Some(
                (p.0, p.1.deep_view()),
            ),
            None => removed_from_buckets(record.deep_view().events, event_id@) is None,
        },
{
    let ghost v = record.deep_view();
    let ghost id = event_id@;
    let ghost rb = retain_buckets(v.events, id);
    let mut stripped: Vec<(AvailableExperiencesPlugins, Vec<ExperienceEvent>)> = Vec::new();
    let mut removed: Option<(AvailableExperiencesPlugins, ExperienceEvent)> = None;
    let mut i: usize = 0;
    while i < record.events.len()
        invariant
            i <= record.events@.len(),
            stripped@.len() == i,
            forall|j: int| 0 <= j < i ==> stripped.deep_view()[j] == rb[j],
            match removed {
                Some(p) => removed_from_buckets(v.events.take(i as int), id) == Some(
                    (p.0, p.1.deep_view()),
                ),
                None => removed_from_buckets(v.events.take(i as int), id) is None,
            },
        decreases record.events@.len() - i,
    {
        let pk = record.events[i].0;
        let b = &record.events[i].1;
        proof {
            assert(v.events[i as int] == (record.events@[i as int].0,
                record.events@[i as int].1.deep_view()));
        }
        let mut b2: Vec<ExperienceEvent> = Vec::new();
        let mut last: Option<ExperienceEvent> = None;
        let mut j: usize = 0;
        while j < b.len()
            invariant
                j <= b@.len(),
                b.deep_view() == v.events[i as int].1,
                b2.deep_view() =~= without_id(b.deep_view().take(j as int), id),
                match last {
                    Some(e) => matches_of(b.deep_view().take(j as int), id).len() > 0 && matches_of(
                        b.deep_view().take(j as int),
                        id,
                    ).last() == e.deep_view(),
                    None => matches_of(b.deep_view().take(j as int), id).len() == 0,
                },
            decreases b@.len() - j,
        {
            proof {
                assert(b.deep_view().take(j + 1int).drop_last() =~= b.deep_view().take(j as int));
                assert(b.deep_view().take(j + 1int).last() == b.deep_view()[j as int]);
            }
            if b[j].id == *event_id {
                last = Some(b[j].clone());
            } else {
                b2.push(b[j].clone());
                proof {
                    assert(b2.deep_view() =~= without_id(b.deep_view().take(j + 1int), id));
                }
            }
            j += 1;
        }
        proof {
            assert(b.deep_view().take(b@.len() as int) =~= b.deep_view());
            assert(v.events.take(i + 1int).drop_last() =~= v.events.take(i as int));
            assert(v.events.take(i + 1int).last() == v.events[i as int]);
        }
        proof {
            assert(pk == v.events[i as int].0);
            assert(b2.deep_view() =~= without_id(v.events[i as int].1, id));
        }
        match last {
            Some(e) => {
                removed = Some((pk, e));
            },
            None => {},
        }
        stripped.push((pk, b2));
        proof {
            assert(rb[i as int] == (v.events[i as int].0, without_id(v.events[i as int].1, id)));
            assert(stripped.deep_view()[i as int] == (pk, b2.deep_view()));
            assert(stripped.deep_view()[i as int] == rb[i as int]);
        }
        i += 1;
    }
    proof {
        assert(v.events.take(record.events@.len() as int) =~= v.events);
        assert(stripped.deep_view() =~= rb);
    }
    let dropkind: Option<AvailableExperiencesPlugins> = match &removed {
        Some(p) => Some(p.0),
        None => None,
    };
    let events_final: Vec<(AvailableExperiencesPlugins, Vec<ExperienceEvent>)> = match dropkind {
        None => stripped,
        Some(k) => {
            let ghost sv = stripped.deep_view();
            let mut out: Vec<(AvailableExperiencesPlugins, Vec<ExperienceEvent>)> = Vec::new();
            let mut x: usize = 0;
            while x < stripped.len()
                invariant
                    x <= stripped@.len(),
                    sv == stripped.deep_view(),
                    out.deep_view() =~= drop_empty_of_kind(sv.take(x as int), k),
                decreases stripped@.len() - x,
            {
                proof {
                    assert(sv.take(x + 1int).drop_last() =~= sv.take(x as int));
                    assert(sv.take(x + 1int).last() == sv[x as int]);
                    assert(sv[x as int] == (stripped@[x as int].0,
                        stripped@[x as int].1.deep_view()));
                }
                let pk2 = stripped[x].0;
                let bl = stripped[x].1.len();
                if pk2 == k && bl == 0 {
                } else {
                    let b2 = clone_bucket(&stripped[x].1);
                    out.push((pk2, b2));
                    proof {
                        assert(out.deep_view().last() == sv[x as int]);
                    }
                }
                proof {
                    assert(out.deep_view() =~= drop_empty_of_kind(sv.take(x + 1int), k));
                }
                x += 1;
            }
            proof {
                assert(sv.take(stripped@.len() as int) =~= sv);
            }
            out
        },
    };
    let r0 = Experience {
        name: record.name.clone(),
        public: record.public,
        events: events_final,
    };
    (r0, removed)
}

/// `record` with the favorite flag of every event with id `event_id` set to
/// `favorite`.
#[verifier::loop_isolation(false)]
pub fn set_favorite(record: &Experience, event_id: &String, favorite: bool) -> (r: Experience)
    ensures
        r.deep_view() == favorite_spec(record.deep_view(), event_id@, favorite),
{
    let ghost v = record.deep_view();
    let ghost target = favorite_spec(v, event_id@, favorite).events;
    let mut events: Vec<(AvailableExperiencesPlugins, Vec<ExperienceEvent>)> = Vec::new();
    let mut i: usize = 0;
    while i < record.events.len()
        invariant
            i <= record.events@.len(),
            events@.len() == i,
            forall|j: int| 0 <= j < i ==> events.deep_view()[j] == target[j],
        decreases record.events@.len() - i,
    {
        let pk = record.events[i].0;
        let b = &record.events[i].1;
        proof {
            assert(v.events[i as int] == (record.events@[i as int].0,
                record.events@[i as int].1.deep_view()));
        }
        let ghost tb = target[i as int].1;
        let mut b2: Vec<ExperienceEvent> = Vec::new();
        let mut j: usize = 0;
        while j < b.len()
            invariant
                j <= b@.len(),
                b.deep_view() == v.events[i as int].1,
                b2@.len() == j,
                i < record.events@.len(),
                tb == target[i as int].1,
                forall|x: int| 0 <= x < j ==> b2.deep_view()[x] == tb[x],
            decreases b@.len() - j,
        {
            if b[j].id == *event_id {
                let e = ExperienceEvent {
                    favorite,
                    id: b[j].id.clone(),
                    event: b[j].event.clone(),
                };
                b2.push(e);
                proof {
                    assert(b2.deep_view()[j as int] == ExperienceEventV {
                        favorite,
                        ..b.deep_view()[j as int]
                    });
                    assert(tb[j as int] == ExperienceEventV {
                        favorite,
                        ..v.events[i as int].1[j as int]
                    });
                }
            } else {
                b2.push(b[j].clone());
                proof {
                    assert(b2.deep_view()[j as int] == b.deep_view()[j as int]);
                    assert(tb[j as int] == v.events[i as int].1[j as int]);
                }
            }
            j += 1;
        }
        events.push((pk, b2));
        proof {
            assert(b2.deep_view() =~= tb);
            assert(target[i as int] == (v.events[i as int].0, tb));
            assert(events.deep_view()[i as int] == target[i as int]);
        }
        i += 1;
    }
    let r = Experience { name: record.name.clone(), public: record.public, events };
    proof {
        assert(r.events.deep_view() =~= target);
    }
    r
}

/// `record` with its public flag set to `public`.
pub fn set_visibility(record: &Experience, public: bool) -> (r: Experience)
    ensures
        r.deep_view() == (ExperienceV { public, ..record.deep_view() }),
{
    let mut r = record.clone();
    r.public = public;
    r
}

/// The links of a record as shown to a browsing client: every connection
/// event except the record's own creation marker, newest last, each carrying
/// the counterpart id and the title under which it was linked.
pub open spec fn connections_spec(b: Seq<ExperienceEventV>, self_id: Seq<char>) -> Seq<
    ExperienceConnectionV,
>
    decreases b.len(),
{
    if b.len() == 0 {
        Seq::empty()
    } else {
        let rest = connections_spec(b.drop_last(), self_id);
        if b.last().id == self_id {
            rest
        } else {
            rest.push(ExperienceConnectionV { id: b.last().id, name: b.last().event.title })
        }
    }
}

/// Lists the connections of `record`, excluding its own id.
#[verifier::loop_isolation(false)]
pub fn connections_of(record: &Experience, self_id: &String) -> (r: Vec<ExperienceConnection>)
    ensures
        r.deep_view() == connections_spec(bucket(record.deep_view(), conn_kind()), self_id@),
{
    let ghost v = record.deep_view();
    proof {
        lemma_kind_idx(v.events, conn_kind());
    }
    let kind = AvailableExperiencesPlugins::timeline_plugin_experience;
    let mut out: Vec<ExperienceConnection> = Vec::new();
    let mut i: usize = 0;
    while i < record.events.len()
        invariant
            i <= record.events@.len(),
            out@.len() == 0,
            forall|j: int| 0 <= j < i ==> v.events[j].0 != conn_kind(),
        decreases record.events@.len() - i,
    {
        proof {
            assert(v.events[i as int] == (record.events@[i as int].0,
                record.events@[i as int].1.deep_view()));
        }
        if record.events[i].0 == kind {
            proof {
                if kind_idx(v.events, conn_kind()) > i {
                    assert(v.events[i as int].0 != conn_kind());
                }
                assert(kind_idx(v.events, conn_kind()) == i);
            }
            let b = &record.events[i].1;
            let mut j: usize = 0;
            while j < b.len()
                invariant
                    j <= b@.len(),
                    b.deep_view() == v.events[i as int].1,
                    b.deep_view() == bucket(v, conn_kind()),
                    out.deep_view() =~= connections_spec(b.deep_view().take(j as int), self_id@),
                decreases b@.len() - j,
            {
                proof {
                    assert(b.deep_view().take(j + 1int).drop_last() =~= b.deep_view().take(
                        j as int,
                    ));
                    assert(b.deep_view().take(j + 1int).last() == b.deep_view()[j as int]);
                }
                if !(b[j].id == *self_id) {
                    out.push(
                        ExperienceConnection { id: b[j].id.clone(), name: b[j].event.title.clone() },
                    );
                    proof {
                        assert(out.deep_view() =~= connections_spec(
                            b.deep_view().take(j + 1int),
                            self_id@,
                        ));
                    }
                }
                j += 1;
            }
            proof {
                assert(b.deep_view().take(b@.len() as int) =~= b.deep_view());
            }
            return out;
        }
        i += 1;
    }
    proof {
        assert(!has_kind(v.events, conn_kind()));
        assert(bucket(v, conn_kind()) =~= Seq::<ExperienceEventV>::empty());
        assert(out.deep_view() =~= connections_spec(bucket(v, conn_kind()), self_id@));
    }
    out
}

/// What a browsing client learns about `record`: its name, its visibility,
/// and its links.
pub fn connection_response(record: &Experience, self_id: &String) -> (r: ExperienceConnectionResponse)
    ensures
        r.connections.deep_view() == connections_spec(
            bucket(record.deep_view(), conn_kind()),
            self_id@,
        ),
        r.experience_name@ == record.name@,
        r.public == record.public,
{
    ExperienceConnectionResponse {
        connections: connections_of(record, self_id),
        experience_name: record.name.clone(),
        public: record.public,
    }
}

/// When no event of the first connection bucket matches `id`, `find_in_bucket`
/// looks only at the rest.
proof fn lemma_find_skip(b: Seq<ExperienceEventV>, id: Seq<char>, i: int)
    requires
        0 <= i <= b.len(),
        forall|j: int| 0 <= j < i ==> b[j].id != id,
    ensures
        find_in_bucket(b, id) == find_in_bucket(b.skip(i), id),
    decreases i,
{
    if i > 0 {
        lemma_find_skip(b, id, i - 1);
        assert(b.skip(i - 1)[0] == b[i - 1]);
        assert(b.skip(i - 1).len() > 0);
        assert(b.skip(i - 1)[0].id != id);
        assert(find_in_bucket(b.skip(i - 1), id) == find_in_bucket(b.skip(i - 1).skip(1), id));
        assert(b.skip(i - 1).skip(1) =~= b.skip(i));
        assert(find_in_bucket(b.skip(i - 1).skip(1), id) == find_in_bucket(b.skip(i), id));
    } else {
        assert(b.skip(0) =~= b);
    }
}

/// The timing of the first connection event of `record` with id
/// `target_id`, or `supplied` if there is none.
#[verifier::loop_isolation(false)]
fn reverse_time_of(record: &Experience, target_id: &String, supplied: Timing) -> (t: Timing)
    ensures
        t == reverse_edge_time(record.deep_view(), target_id@, supplied),
{
    let ghost v = record.deep_view();
    proof {
        lemma_kind_idx(v.events, conn_kind());
    }
    let kind = AvailableExperiencesPlugins::timeline_plugin_experience;
    let mut i: usize = 0;
    while i < record.events.len()
        invariant
            i <= record.events@.len(),
            forall|j: int| 0 <= j < i ==> v.events[j].0 != conn_kind(),
        decreases record.events@.len() - i,
    {
        proof {
            assert(v.events[i as int] == (record.events@[i as int].0,
                record.events@[i as int].1.deep_view()));
        }
        if record.events[i].0 == kind {
            proof {
                if kind_idx(v.events, conn_kind()) > i {
                    assert(v.events[i as int].0 != conn_kind());
                }
                assert(kind_idx(v.events, conn_kind()) == i);
            }
            let b = &record.events[i].1;
            let ghost bv = bucket(v, conn_kind());
            let mut j: usize = 0;
            while j < b.len()
                invariant
                    j <= b@.len(),
                    b.deep_view() == bv,
                    bv == bucket(v, conn_kind()),
                    forall|x: int| 0 <= x < j ==> bv[x].id != target_id@,
                decreases b@.len() - j,
            {
                if b[j].id == *target_id {
                    proof {
                        lemma_find_skip(bv, target_id@, j as int);
                        assert(bv.skip(j as int)[0] == bv[j as int]);
                    }
                    return b[j].event.time;
                }
                j += 1;
            }
            proof {
                lemma_find_skip(bv, target_id@, b@.len() as int);
                assert(bv.skip(b@.len() as int) =~= Seq::<ExperienceEventV>::empty());
            }
            return supplied;
        }
        i += 1;
    }
    proof {
        assert(!has_kind(v.events, conn_kind()));
        assert(bucket(v, conn_kind()) =~= Seq::<ExperienceEventV>::empty());
    }
    supplied
}

/// Relies on `uuid::Uuid::new_v4` and its `Display` impl: a random
/// version-4 UUID, rendered in the hyphenated form of 36 characters.
/// Nothing else is assumed of the value: it is random.
#[verifier::external_body]
fn fresh_id() -> (r: String)
    ensures
        r@.len() == 36,
{
    uuid::Uuid::new_v4().to_string()
}

/// What a generic (non-connection) append plans: one new event with a fresh
/// id under the requested kind, and one persist of the grown record.
pub open spec fn generic_append_plan(
    m: Map<Seq<char>, ExperienceV>,
    eid: Seq<char>,
    kind: AvailableExperiencesPlugins,
    evv: CompressedEventV,
    r: ExperienceResult<Step<String>>,
) -> bool {
    if m.contains_key(eid) {
        match r {
            Ok(Step::Ready { value, persists }) => value@.len() == 36 && persists@.len() == 1
                && persists@[0].id@ == eid && persists@[0].record.deep_view() == append_to_bucket(
                m[eid],
                kind,
                ExperienceEventV { favorite: false, id: value@, event: evv },
            ),
            _ => false,
        }
    } else {
        match r {
            Ok(Step::Missing { id }) => id@ == eid,
            _ => false,
        }
    }
}

impl ExperienceManager {
    /// Allocates a fresh id and plans a new private record named `name`,
    /// seeded with one creation event timed `time` whose id is the record's
    /// own id. The caller persists the returned record and commits it.
    pub fn create_experience(&self, name: String, time: Timing) -> (r: (String, Persist))
        ensures
            r.0@.len() == 36,
            r.1.id@ == r.0@,
            r.1.record.deep_view() == create_spec(name@, time, r.0@),
            kinds_unique(r.1.record.deep_view().events),
    {
        let id = fresh_id();
        let data = encode_connection_payload(&CompressedExperienceEvent::Experience(id.clone()));
        let ev = ExperienceEvent {
            favorite: false,
            id: id.clone(),
            event: CompressedEvent { title: name.clone(), time, data },
        };
        let mut bucket0: Vec<ExperienceEvent> = Vec::new();
        bucket0.push(ev);
        let mut events: Vec<(AvailableExperiencesPlugins, Vec<ExperienceEvent>)> = Vec::new();
        events.push((AvailableExperiencesPlugins::timeline_plugin_experience, bucket0));
        let record = Experience { name, public: false, events };
        proof {
            assert(bucket0.deep_view() =~= seq![connection_event(id@, name@, time)]);
            assert(record.events.deep_view() =~= seq![
                (conn_kind(), seq![connection_event(id@, name@, time)]),
            ]);
        }
        let pid = id.clone();
        (id, Persist { id: pid, record })
    }

    /// Plans appending `event` under `kind` to the record `experience_id`.
    ///
    /// For the reserved connection kind with an `Experience(target)` payload
    /// this plans the symmetric link: the target gains a reciprocal event
    /// (id and payload naming the caller, titled with the caller's name,
    /// timed per `reverse_edge_time`), the caller gains the mirror event
    /// timed with the supplied timing; in each record, pre-existing events
    /// with the new event's id are removed first, so re-linking never
    /// duplicates. The target's update is persisted first; the returned
    /// value is the target's id. An unparsable connection payload is a
    /// `ParsingError`; a `Create` payload and every other kind take the
    /// generic path, which appends one event under a fresh id.
    pub fn append_event(
        &self,
        experience_id: &String,
        kind: AvailableExperiencesPlugins,
        event: CompressedEvent,
    ) -> (r: ExperienceResult<Step<String>>)
        requires
            self.wf(),
        ensures
            ({
                let eid = experience_id@;
                if kind == conn_kind() {
                    match parse_payload_spec(event.data@) {
                        None => r matches Err(ExperienceError::ParsingError(_)),
                        Some(CompressedExperienceEventV::Create(_)) => generic_append_plan(
                            self@,
                            eid,
                            kind,
                            event.deep_view(),
                            r,
                        ),
                        Some(CompressedExperienceEventV::Experience(aid)) => {
                            if !self@.contains_key(aid) {
                                r matches Ok(Step::Missing { id }) && id@ == aid
                            } else if !self@.contains_key(eid) {
                                r matches Ok(Step::Missing { id }) && id@ == eid
                            } else {
                                r matches Ok(Step::Ready { value, persists }) && value@ == aid
                                    && persists@.len() == 2 && persists@[0].id@ == aid
                                    && persists@[0].record.deep_view() == connect_target_update(
                                    self@[aid],
                                    self@[eid],
                                    aid,
                                    eid,
                                    event.time,
                                ) && persists@[1].id@ == eid
                                    && persists@[1].record.deep_view() == connect_caller_update(
                                    self@[aid],
                                    self@[eid],
                                    aid,
                                    eid,
                                    event.time,
                                )
                            }
                        },
                    }
                } else {
                    generic_append_plan(self@, eid, kind, event.deep_view(), r)
                }
            }),
            r matches Ok(Step::Ready { value, persists }) ==> plan_kinds_unique(persists),
    {
        let kind_conn = AvailableExperiencesPlugins::timeline_plugin_experience;
        if kind == kind_conn {
            match parse_connection_payload(event.data.as_str()) {
                None => {
                    return Err(
                        ExperienceError::ParsingError(
                            String::from_str("connection payload did not parse"),
                        ),
                    );
                },
                Some(CompressedExperienceEvent::Create(_)) => {
                    return self.append_event_unchecked(experience_id, kind, event);
                },
                Some(CompressedExperienceEvent::Experience(a_id)) => {
                    let a = match self.get_cached(&a_id) {
                        Some(a) => a,
                        None => {
                            return Ok(Step::Missing { id: a_id });
                        },
                    };
                    let b = match self.get_cached(experience_id) {
                        Some(b) => b,
                        None => {
                            return Ok(Step::Missing { id: experience_id.clone() });
                        },
                    };
                    let t = reverse_time_of(&b, &a_id, event.time);
                    let ev_a = ExperienceEvent {
                        favorite: false,
                        id: experience_id.clone(),
                        event: CompressedEvent {
                            title: b.name.clone(),
                            time: t,
                            data: encode_connection_payload(
                                &CompressedExperienceEvent::Experience(experience_id.clone()),
                            ),
                        },
                    };
                    let ghost ev_a_v = ev_a.deep_view();
                    let a2 = relink(&a, experience_id, ev_a);
                    proof {
                        lemma_relink_keeps_kinds(a.deep_view(), experience_id@, ev_a_v);
                    }
                    let ev_b = ExperienceEvent {
                        favorite: false,
                        id: a_id.clone(),
                        event: CompressedEvent {
                            title: a.name.clone(),
                            time: event.time,
                            data: encode_connection_payload(
                                &CompressedExperienceEvent::Experience(a_id.clone()),
                            ),
                        },
                    };
                    let ghost ev_b_v = ev_b.deep_view();
                    let b2 = relink(&b, &a_id, ev_b);
                    proof {
                        lemma_relink_keeps_kinds(b.deep_view(), a_id@, ev_b_v);
                    }
                    let mut persists: Vec<Persist> = Vec::new();
                    persists.push(Persist { id: a_id.clone(), record: a2 });
                    persists.push(Persist { id: experience_id.clone(), record: b2 });
                    return Ok(Step::Ready { value: a_id, persists });
                },
            }
        }
        self.append_event_unchecked(experience_id, kind, event)
    }

    /// The generic append path: one new event with a fresh id under `kind`.
    fn append_event_unchecked(
        &self,
        experience_id: &String,
        kind: AvailableExperiencesPlugins,
        event: CompressedEvent,
    ) -> (r: ExperienceResult<Step<String>>)
        requires
            self.wf(),
        ensures
            generic_append_plan(self@, experience_id@, kind, event.deep_view(), r),
            r is Ok,
            r matches Ok(Step::Ready { value, persists }) ==> plan_kinds_unique(persists),
    {
        let record = match self.get_cached(experience_id) {
            Some(v) => v,
            None => {
                return Ok(Step::Missing { id: experience_id.clone() });
            },
        };
        let new_id = fresh_id();
        let ev = ExperienceEvent { favorite: false, id: new_id.clone(), event };
        let ghost ev_v = ev.deep_view();
        let record2 = append_generic(&record, kind, ev);
        proof {
            lemma_append_keeps_kinds(record.deep_view(), kind, ev_v);
        }
        let mut persists: Vec<Persist> = Vec::new();
        persists.push(Persist { id: experience_id.clone(), record: record2 });
        Ok(Step::Ready { value: new_id, persists })
    }

    /// Plans the deletion of event `event_id` from record `experience_id`.
    ///
    /// Deleting the record's self-creation marker through this path is
    /// rejected with `OperationNotAllowed` and nothing changes. Otherwise
    /// every matching event is removed (the emptied bucket with it) and the
    /// record is persisted even when nothing matched; the removed event, if
    /// any, is the value. When the removed event was a connection whose
    /// payload names a counterpart, a second persist removes the reciprocal
    /// event from the counterpart; the driver treats a failure of that
    /// second write as a fatal loss of graph symmetry.
    pub fn delete_event(&self, experience_id: &String, event_id: &String) -> (r: ExperienceResult<
        Step<Option<(AvailableExperiencesPlugins, ExperienceEvent)>>,
    >)
        requires
            self.wf(),
        ensures
            ({
                let eid = experience_id@;
                let evid = event_id@;
                if evid == eid {
                    r matches Err(ExperienceError::OperationNotAllowed(_))
                } else if !self@.contains_key(eid) {
                    r matches Ok(Step::Missing { id }) && id@ == eid
                } else {
                    let v = self@[eid];
                    let v2 = remove_event_spec(v, evid);
                    match removed_from_buckets(v.events, evid) {
                        None => r matches Ok(Step::Ready { value, persists }) && value is None
                            && persists@.len() == 1 && persists@[0].id@ == eid
                            && persists@[0].record.deep_view() == v2,
                        Some((k, e)) => {
                            if k != conn_kind() {
                                r matches Ok(Step::Ready { value, persists }) && (value matches Some(
                                    p,
                                ) && p.0 == k && p.1.deep_view() == e) && persists@.len() == 1
                                    && persists@[0].id@ == eid && persists@[0].record.deep_view()
                                    == v2
                            } else {
                                match parse_payload_spec(e.event.data) {
                                    None => r matches Ok(Step::Fail { error, persists }) && (error
                                        matches ExperienceError::ParsingError(_))
                                        && persists@.len() == 1 && persists@[0].id@ == eid
                                        && persists@[0].record.deep_view() == v2,
                                    Some(CompressedExperienceEventV::Create(_)) => r matches Ok(
                                        Step::Ready { value, persists },
                                    ) && (value matches Some(p) && p.0 == k && p.1.deep_view() == e)
                                        && persists@.len() == 1 && persists@[0].id@ == eid
                                        && persists@[0].record.deep_view() == v2,
                                    Some(CompressedExperienceEventV::Experience(cid)) => {
                                        if cid == eid {
                                            r matches Ok(Step::Ready { value, persists }) && (value
                                                matches Some(p) && p.0 == k && p.1.deep_view() == e)
                                                && persists@.len() == 2 && persists@[0].id@ == eid
                                                && persists@[0].record.deep_view() == v2
                                                && persists@[1].id@ == eid
                                                && persists@[1].record.deep_view()
                                                == remove_event_spec(v2, eid)
                                        } else if !self@.contains_key(cid) {
                                            r matches Ok(Step::Missing { id }) && id@ == cid
                                        } else {
                                            r matches Ok(Step::Ready { value, persists }) && (value
                                                matches Some(p) && p.0 == k && p.1.deep_view() == e)
                                                && persists@.len() == 2 && persists@[0].id@ == eid
                                                && persists@[0].record.deep_view() == v2
                                                && persists@[1].id@ == cid
                                                && persists@[1].record.deep_view()
                                                == remove_event_spec(self@[cid], eid)
                                        }
                                    },
                                }
                            }
                        },
                    }
                }
            }),
            r matches Ok(Step::Ready { value, persists }) ==> plan_kinds_unique(persists),
            r matches Ok(Step::Fail { error, persists }) ==> plan_kinds_unique(persists),
    {
        if *event_id == *experience_id {
            return Err(
                ExperienceError::OperationNotAllowed(
                    String::from_str("not allowed to delete experience from self"),
                ),
            );
        }
        let record = match self.get_cached(experience_id) {
            Some(v) => v,
            None => {
                return Ok(Step::Missing { id: experience_id.clone() });
            },
        };
        let (record2, removed) = remove_event(&record, event_id);
        proof {
            lemma_remove_keeps_kinds(record.deep_view(), event_id@);
        }
        let kind_conn = AvailableExperiencesPlugins::timeline_plugin_experience;
        match &removed {
            None => {
                let mut persists: Vec<Persist> = Vec::new();
                persists.push(Persist { id: experience_id.clone(), record: record2 });
                Ok(Step::Ready { value: removed, persists })
            },
            Some(p) => {
                if !(p.0 == kind_conn) {
                    let mut persists: Vec<Persist> = Vec::new();
                    persists.push(Persist { id: experience_id.clone(), record: record2 });
                    return Ok(Step::Ready { value: removed, persists });
                }
                match parse_connection_payload(p.1.event.data.as_str()) {
                    None => {
                        let mut persists: Vec<Persist> = Vec::new();
                        persists.push(Persist { id: experience_id.clone(), record: record2 });
                        Ok(
                            Step::Fail {
                                error: ExperienceError::ParsingError(
                                    String::from_str("connection payload did not parse"),
                                ),
                                persists,
                            },
                        )
                    },
                    Some(CompressedExperienceEvent::Create(_)) => {
                        let mut persists: Vec<Persist> = Vec::new();
                        persists.push(Persist { id: experience_id.clone(), record: record2 });
                        Ok(Step::Ready { value: removed, persists })
                    },
                    Some(CompressedExperienceEvent::Experience(c_id)) => {
                        if c_id == *experience_id {
                            let (record3, _) = remove_event(&record2, experience_id);
                            proof {
                                lemma_remove_keeps_kinds(record2.deep_view(), experience_id@);
                            }
                            let mut persists: Vec<Persist> = Vec::new();
                            persists.push(Persist { id: experience_id.clone(), record: record2 });
                            persists.push(Persist { id: experience_id.clone(), record: record3 });
                            return Ok(Step::Ready { value: removed, persists });
                        }
                        let counterpart = match self.get_cached(&c_id) {
                            Some(v) => v,
                            None => {
                                return Ok(Step::Missing { id: c_id });
                            },
                        };
                        let (record3, _) = remove_event(&counterpart, experience_id);
                        proof {
                            lemma_remove_keeps_kinds(counterpart.deep_view(), experience_id@);
                        }
                        let mut persists: Vec<Persist> = Vec::new();
                        persists.push(Persist { id: experience_id.clone(), record: record2 });
                        persists.push(Persist { id: c_id, record: record3 });
                        Ok(Step::Ready { value: removed, persists })
                    },
                }
            },
        }
    }

    /// Plans setting the favorite flag of event `event_id` to `favorite` on
    /// record `experience_id`; the record is persisted even when no event
    /// matched.
    pub fn favorite_event(&self, experience_id: &String, event_id: &String, favorite: bool) -> (r:
        ExperienceResult<Step<()>>)
        requires
            self.wf(),
        ensures
            ({
                let eid = experience_id@;
                if self@.contains_key(eid) {
                    r matches Ok(Step::Ready { value, persists }) && persists@.len() == 1
                        && persists@[0].id@ == eid && persists@[0].record.deep_view()
                        == favorite_spec(self@[eid], event_id@, favorite)
                } else {
                    r matches Ok(Step::Missing { id }) && id@ == eid
                }
            }),
            r is Ok,
            r matches Ok(Step::Ready { value, persists }) ==> plan_kinds_unique(persists),
    {
        let record = match self.get_cached(experience_id) {
            Some(v) => v,
            None => {
                return Ok(Step::Missing { id: experience_id.clone() });
            },
        };
        let record2 = set_favorite(&record, event_id, favorite);
        proof {
            lemma_favorite_keeps_kinds(record.deep_view(), event_id@, favorite);
        }
        let mut persists: Vec<Persist> = Vec::new();
        persists.push(Persist { id: experience_id.clone(), record: record2 });
        Ok(Step::Ready { value: (), persists })
    }

    /// Plans setting the public flag of record `id` to `visibility`.
    pub fn set_experience_visibility(&self, id: &String, visibility: bool) -> (r: ExperienceResult<
        Step<()>,
    >)
        requires
            self.wf(),
        ensures
            ({
                if self@.contains_key(id@) {
                    r matches Ok(Step::Ready { value, persists }) && persists@.len() == 1
                        && persists@[0].id@ == id@ && persists@[0].record.deep_view()
                        == (ExperienceV { public: visibility, ..self@[id@] })
                } else {
                    r matches Ok(Step::Missing { id: mid }) && mid@ == id@
                }
            }),
            r is Ok,
            r matches Ok(Step::Ready { value, persists }) ==> plan_kinds_unique(persists),
    {
        let record = match self.get_cached(id) {
            Some(v) => v,
            None => {
                return Ok(Step::Missing { id: id.clone() });
            },
        };
        let record2 = set_visibility(&record, visibility);
        let mut persists: Vec<Persist> = Vec::new();
        persists.push(Persist { id: id.clone(), record: record2 });
        Ok(Step::Ready { value: (), persists })
    }
}

/// Updating an entry in place updates the map at its key.
proof fn lemma_map_of_update(s: Seq<(Seq<char>, ExperienceV)>, i: int, k: Seq<char>, v: ExperienceV)
    requires
        keys_unique(s),
        0 <= i < s.len(),
        s[i].0 == k,
    ensures
        keys_unique(s.update(i, (k, v))),
        map_of(s.update(i, (k, v))) == map_of(s).insert(k, v),
    decreases s.len(),
{
    let s2 = s.update(i, (k, v));
    assert(keys_unique(s2)) by {
        assert(forall|j: int| 0 <= j < s.len() && j != i ==> s2[j] == s[j]);
    }
    if i == s.len() - 1 {
        assert(s2.drop_last() =~= s.drop_last());
        assert(s2.last() == (k, v));
        assert(map_of(s2) == map_of(s.drop_last()).insert(k, v));
        assert(map_of(s) == map_of(s.drop_last()).insert(k, s.last().1));
        assert(map_of(s.drop_last()).insert(k, s.last().1).insert(k, v) =~= map_of(
            s.drop_last(),
        ).insert(k, v));
    } else {
        assert(keys_unique(s.drop_last()));
        assert(s.drop_last()[i] == s[i]);
        lemma_map_of_update(s.drop_last(), i, k, v);
        assert(s2.drop_last() =~= s.drop_last().update(i, (k, v)));
        assert(s2.last() == s.last());
        assert(map_of(s2) == map_of(s.drop_last()).insert(k, v).insert(s.last().0, s.last().1));
        assert(s.last().0 != k);
        assert(map_of(s.drop_last()).insert(k, v).insert(s.last().0, s.last().1) =~= map_of(
            s.drop_last(),
        ).insert(s.last().0, s.last().1).insert(k, v));
    }
}

} // verus!
