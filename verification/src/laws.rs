//! The laws of the connection graph, proved once and for all over the spec
//! functions that the store's contracts use.

use vstd::prelude::*;

use crate::payload::{lemma_payload_round_trip, parse_payload_spec};
use crate::store::{
    bucket,
    conn_kind,
    connect_caller_update,
    connect_target_update,
    create_spec,
    lemma_drop_empty_members,
    connection_event,
    drop_empty_of_kind,
    has_kind,
    kind_idx,
    lemma_kind_idx,
    matches_of,
    relink_bucket,
    remove_event_spec,
    removed_from_buckets,
    retain_buckets,
    reverse_edge_time,
    without_id,
};
use crate::types::{
    AvailableExperiencesPlugins,
    CompressedExperienceEventV,
    ExperienceEventV,
    ExperienceV,
    Timing,
};

verus! {

/// Whether any bucket of `evs` holds an event with id `id`.
pub open spec fn record_has_id(
    evs: Seq<(AvailableExperiencesPlugins, Seq<ExperienceEventV>)>,
    id: Seq<char>,
) -> bool {
    exists|i: int, j: int|
        0 <= i < evs.len() && 0 <= j < evs[i].1.len() && evs[i].1[j].id == id
}

/// Two bucket sequences of the same length and kinds have the same first
/// index for every kind.
proof fn lemma_kind_idx_same_kinds(
    e1: Seq<(AvailableExperiencesPlugins, Seq<ExperienceEventV>)>,
    e2: Seq<(AvailableExperiencesPlugins, Seq<ExperienceEventV>)>,
    k: AvailableExperiencesPlugins,
)
    requires
        e1.len() == e2.len(),
        forall|j: int| 0 <= j < e1.len() ==> e1[j].0 == e2[j].0,
    ensures
        kind_idx(e1, k) == kind_idx(e2, k),
    decreases e1.len(),
{
    if e1.len() > 0 && e1[0].0 != k {
        assert(forall|j: int|
            0 <= j < e1.skip(1).len() ==> e1.skip(1)[j].0 == e2.skip(1)[j].0) by {
            assert(forall|j: int| 0 <= j < e1.skip(1).len() ==> e1.skip(1)[j] == e1[j + 1]);
            assert(forall|j: int| 0 <= j < e2.skip(1).len() ==> e2.skip(1)[j] == e2[j + 1]);
        }
        lemma_kind_idx_same_kinds(e1.skip(1), e2.skip(1), k);
    }
}

/// Removing an id leaves no event with that id and no match in the bucket.
proof fn lemma_without_id_clean(b: Seq<ExperienceEventV>, id: Seq<char>)
    ensures
        forall|j: int| 0 <= j < without_id(b, id).len() ==> without_id(b, id)[j].id != id,
        matches_of(without_id(b, id), id).len() == 0,
        without_id(b, id).len() <= b.len(),
    decreases b.len(),
{
    if b.len() > 0 {
        lemma_without_id_clean(b.drop_last(), id);
        if b.last().id != id {
            let w = without_id(b, id);
            assert(w == without_id(b.drop_last(), id).push(b.last()));
            assert(w.drop_last() =~= without_id(b.drop_last(), id));
        }
    }
}

/// A bucket bundle whose buckets all lack matches removes nothing.
proof fn lemma_no_match_removed_none(
    evs: Seq<(AvailableExperiencesPlugins, Seq<ExperienceEventV>)>,
    id: Seq<char>,
)
    requires
        forall|i: int| 0 <= i < evs.len() ==> matches_of(#[trigger] evs[i].1, id).len() == 0,
    ensures
        removed_from_buckets(evs, id) is None,
    decreases evs.len(),
{
    if evs.len() > 0 {
        assert(forall|i: int|
            0 <= i < evs.drop_last().len() ==> evs.drop_last()[i] == evs[i]);
        lemma_no_match_removed_none(evs.drop_last(), id);
    }
}

/// Dropping empty buckets keeps the per-bucket no-match property.
proof fn lemma_drop_empty_clean(
    evs: Seq<(AvailableExperiencesPlugins, Seq<ExperienceEventV>)>,
    k: AvailableExperiencesPlugins,
    id: Seq<char>,
)
    requires
        forall|i: int| 0 <= i < evs.len() ==> matches_of(#[trigger] evs[i].1, id).len() == 0,
    ensures
        forall|i: int|
            0 <= i < drop_empty_of_kind(evs, k).len() ==> matches_of(
                #[trigger] drop_empty_of_kind(evs, k)[i].1,
                id,
            ).len() == 0,
    decreases evs.len(),
{
    if evs.len() > 0 {
        assert(forall|i: int|
            0 <= i < evs.drop_last().len() ==> evs.drop_last()[i] == evs[i]);
        lemma_drop_empty_clean(evs.drop_last(), k, id);
        let d = drop_empty_of_kind(evs, k);
        let rest = drop_empty_of_kind(evs.drop_last(), k);
        if !(evs.last().0 == k && evs.last().1.len() == 0) {
            assert(forall|i: int| 0 <= i < rest.len() ==> d[i] == rest[i]);
            assert(d.last() == evs.last());
        }
    }
}

/// Law: deleting an event id removes every event with that id, so a second
/// delete of the same id finds nothing and returns `None`.
pub proof fn lemma_delete_idempotent(v: ExperienceV, id: Seq<char>)
    ensures
        !record_has_id(remove_event_spec(v, id).events, id),
        removed_from_buckets(remove_event_spec(v, id).events, id) is None,
{
    let stripped = retain_buckets(v.events, id);
    assert forall|i: int|
        0 <= i < stripped.len() implies matches_of(#[trigger] stripped[i].1, id).len() == 0 by {
        lemma_without_id_clean(v.events[i].1, id);
    }
    let v2 = remove_event_spec(v, id);
    match removed_from_buckets(v.events, id) {
        None => {
            lemma_no_match_removed_none(stripped, id);
            assert forall|i: int, j: int|
                0 <= i < v2.events.len() && 0 <= j < v2.events[i].1.len() implies v2.events[i].1[j].id
                != id by {
                lemma_without_id_clean(v.events[i].1, id);
            }
        },
        Some((k, _)) => {
            lemma_drop_empty_clean(stripped, k, id);
            lemma_no_match_removed_none(drop_empty_of_kind(stripped, k), id);
            lemma_drop_empty_members(stripped, k);
            assert forall|i: int, j: int|
                0 <= i < v2.events.len() && 0 <= j < v2.events[i].1.len() implies v2.events[i].1[j].id
                != id by {
                let d = drop_empty_of_kind(stripped, k);
                let src = choose|si: int| 0 <= si < stripped.len() && d[i] == stripped[si];
                lemma_without_id_clean(v.events[src].1, id);
            }
        },
    }
}

/// The connection bucket after a re-link: the new edge sits at the end.
proof fn lemma_relink_bucket(v: ExperienceV, counterpart: Seq<char>, e: ExperienceEventV)
    requires
        e.id == counterpart,
    ensures
        ({
            let b = bucket(relink_bucket(v, counterpart, e), conn_kind());
            &&& b.len() > 0
            &&& b.last() == e
            &&& matches_of(b, counterpart).len() == 1
        }),
{
    let v2 = relink_bucket(v, counterpart, e);
    lemma_kind_idx(v.events, conn_kind());
    if has_kind(v.events, conn_kind()) {
        let i = kind_idx(v.events, conn_kind());
        let nb = without_id(v.events[i].1, counterpart).push(e);
        assert(forall|j: int| 0 <= j < v2.events.len() ==> v2.events[j].0 == v.events[j].0);
        lemma_kind_idx_same_kinds(v2.events, v.events, conn_kind());
        assert(bucket(v2, conn_kind()) == nb);
        lemma_without_id_clean(v.events[i].1, counterpart);
        assert(nb.drop_last() =~= without_id(v.events[i].1, counterpart));
        assert(matches_of(nb, counterpart) == matches_of(
            without_id(v.events[i].1, counterpart),
            counterpart,
        ).push(e));
        assert(bucket(v2, conn_kind()).len() > 0);
        assert(bucket(v2, conn_kind()).last() == e);
        assert(matches_of(bucket(v2, conn_kind()), counterpart).len() == 1);
    } else {
        let i2 = kind_idx(v2.events, conn_kind());
        lemma_kind_idx(v2.events, conn_kind());
        assert(v2.events[v.events.len() as int].0 == conn_kind());
        assert(i2 <= v.events.len());
        if i2 < v.events.len() {
            assert(v2.events[i2] == v.events[i2]);
            assert(false);
        }
        let nb = bucket(v2, conn_kind());
        assert(nb == seq![e]);
        assert(nb.drop_last() =~= Seq::<ExperienceEventV>::empty());
        assert(matches_of(nb, counterpart) == matches_of(
            nb.drop_last(),
            counterpart,
        ).push(e));
        assert(bucket(v2, conn_kind()).len() > 0);
        assert(bucket(v2, conn_kind()).last() == e);
        assert(matches_of(bucket(v2, conn_kind()), counterpart).len() == 1);
    }
}

/// Law: deleting a connected pair's edge from both sides (as one delete
/// plans it: the record first, the counterpart named by the removed edge
/// second) leaves no event with either id on the respective records.
pub proof fn lemma_delete_connected_pair(a: ExperienceV, b: ExperienceV, a_id: Seq<char>, b_id: Seq<char>)
    ensures
        !record_has_id(remove_event_spec(a, b_id).events, b_id),
        !record_has_id(remove_event_spec(b, a_id).events, a_id),
        removed_from_buckets(remove_event_spec(a, b_id).events, b_id) is None,
        removed_from_buckets(remove_event_spec(b, a_id).events, a_id) is None,
{
    lemma_delete_idempotent(a, b_id);
    lemma_delete_idempotent(b, a_id);
}

/// Law: linking two records is symmetric and never duplicates. After the
/// caller `b` (id `b_id`) appends a connection to the target `a` (id
/// `a_id`), the target's update carries exactly one connection event with
/// id `b_id` — titled with the caller's name, timed per
/// `reverse_edge_time`, its payload parsing back to `Experience(b_id)` —
/// and the caller's update carries exactly one connection event with id
/// `a_id`, titled with the target's name, timed with the supplied timing,
/// its payload parsing back to `Experience(a_id)`. Exactly one such event
/// remains even when a link between the two already existed.
pub proof fn lemma_connect_reciprocal(
    a: ExperienceV,
    b: ExperienceV,
    a_id: Seq<char>,
    b_id: Seq<char>,
    t: Timing,
)
    ensures
        ({
            let a2 = connect_target_update(a, b, a_id, b_id, t);
            let ba = bucket(a2, conn_kind());
            &&& ba.len() > 0
            &&& ba.last() == connection_event(b_id, b.name, reverse_edge_time(b, a_id, t))
            &&& parse_payload_spec(ba.last().event.data) == Some(
                CompressedExperienceEventV::Experience(b_id),
            )
            &&& matches_of(ba, b_id).len() == 1
        }),
        ({
            let b2 = connect_caller_update(a, b, a_id, b_id, t);
            let bb = bucket(b2, conn_kind());
            &&& bb.len() > 0
            &&& bb.last() == connection_event(a_id, a.name, t)
            &&& parse_payload_spec(bb.last().event.data) == Some(
                CompressedExperienceEventV::Experience(a_id),
            )
            &&& matches_of(bb, a_id).len() == 1
        }),
{
    lemma_relink_bucket(a, b_id, connection_event(b_id, b.name, reverse_edge_time(b, a_id, t)));
    lemma_payload_round_trip(CompressedExperienceEventV::Experience(b_id));
    lemma_relink_bucket(b, a_id, connection_event(a_id, a.name, t));
    lemma_payload_round_trip(CompressedExperienceEventV::Experience(a_id));
}

/// Law: a freshly created record holds exactly its one creation event, and
/// connecting it to an existing counterpart with a different id leaves it
/// with exactly that creation event followed by one edge to the
/// counterpart; the counterpart's reciprocal edge is `lemma_connect_reciprocal`'s.
pub proof fn lemma_connect_fresh_record(
    y: ExperienceV,
    name: Seq<char>,
    t: Timing,
    x_id: Seq<char>,
    y_id: Seq<char>,
    st: Timing,
)
    requires
        x_id != y_id,
    ensures
        bucket(create_spec(name, t, x_id), conn_kind()) == seq![connection_event(x_id, name, t)],
        ({
            let linked = connect_caller_update(y, create_spec(name, t, x_id), y_id, x_id, st);
            let b = bucket(linked, conn_kind());
            &&& b =~= seq![connection_event(x_id, name, t), connection_event(y_id, y.name, st)]
            &&& matches_of(b, y_id).len() == 1
        }),
{
    let c = create_spec(name, t, x_id);
    assert(kind_idx(c.events, conn_kind()) == 0);
    assert(bucket(c, conn_kind()) == seq![connection_event(x_id, name, t)]);
    lemma_relink_bucket(c, y_id, connection_event(y_id, y.name, st));
    let linked = connect_caller_update(y, c, y_id, x_id, st);
    let b = bucket(linked, conn_kind());
    assert(without_id(seq![connection_event(x_id, name, t)], y_id) =~= seq![
        connection_event(x_id, name, t),
    ]) by {
        reveal_with_fuel(without_id, 3);
        assert(seq![connection_event(x_id, name, t)].last() == connection_event(x_id, name, t));
        assert(seq![connection_event(x_id, name, t)].last().id == x_id);
        assert(seq![connection_event(x_id, name, t)].drop_last() =~= Seq::<
            ExperienceEventV,
        >::empty());
        assert(without_id(seq![connection_event(x_id, name, t)].drop_last(), y_id) =~= Seq::<
            ExperienceEventV,
        >::empty());
    }
    assert(b =~= seq![connection_event(x_id, name, t), connection_event(y_id, y.name, st)]);
}

} // verus!
