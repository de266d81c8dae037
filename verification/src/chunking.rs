//! Splitting a snapshot delta into chunks that each fit one datagram.
//!
//! A delta with many entity changes can be far larger than a datagram that
//! travels unfragmented. The server sends it as a run of chunks: every chunk
//! repeats the match-wide state, the first one carries the clear flag and the
//! removed ids, and the entity creates and updates are spread over the chunks
//! in order. Applied one after another, the chunks patch a snapshot exactly as
//! the whole delta does.
use vstd::prelude::*;

use crate::delta::{patched_by, BuildingUpdate, DeltaModel, SnapshotDelta, UnitUpdate};
use crate::keyed::{not_listed, patched_all, upserted_all, without_keys, Keyed, Patch};
use crate::model::{clone_players, copy_vec, Building, SnapshotModel, Unit};

verus! {

/// Largest encoded chunk, in bytes, that a datagram carries unfragmented.
pub const SAFE_UDP_PAYLOAD_BYTES: usize = 1200;

/// Entity creates and updates a delta carries (removed ids not counted).
pub open spec fn entity_count_of(d: DeltaModel) -> int {
    (d.unit_creates.len() + d.unit_updates.len() + d.building_creates.len()
        + d.building_updates.len()) as int
}

/// `d`'s match-wide state with no entity change and no clear flag.
pub open spec fn header_of(d: DeltaModel) -> DeltaModel {
    DeltaModel {
        clear_entities: false,
        unit_creates: Seq::empty(),
        unit_updates: Seq::empty(),
        unit_removes: Seq::empty(),
        building_creates: Seq::empty(),
        building_updates: Seq::empty(),
        building_removes: Seq::empty(),
        ..d
    }
}

/// The concatenation, in order, of one entity list of each part.
pub open spec fn joined<T>(parts: Seq<DeltaModel>, field: spec_fn(DeltaModel) -> Seq<T>) -> Seq<T>
    decreases parts.len(),
{
    if parts.len() == 0 {
        Seq::empty()
    } else {
        joined(parts.drop_last(), field) + field(parts.last())
    }
}

pub open spec fn unit_creates_in() -> spec_fn(DeltaModel) -> Seq<Unit> {
    |d: DeltaModel| d.unit_creates
}

pub open spec fn unit_updates_in() -> spec_fn(DeltaModel) -> Seq<UnitUpdate> {
    |d: DeltaModel| d.unit_updates
}

pub open spec fn building_creates_in() -> spec_fn(DeltaModel) -> Seq<Building> {
    |d: DeltaModel| d.building_creates
}

pub open spec fn building_updates_in() -> spec_fn(DeltaModel) -> Seq<BuildingUpdate> {
    |d: DeltaModel| d.building_updates
}

/// No part carries creates after a part that carries updates.
pub open spec fn creates_before_updates<E, P>(
    parts: Seq<DeltaModel>,
    creates: spec_fn(DeltaModel) -> Seq<E>,
    updates: spec_fn(DeltaModel) -> Seq<P>,
) -> bool {
    forall|i: int, j: int|
        #![trigger parts[i], parts[j]]
        0 <= i < j < parts.len() && creates(parts[j]).len() > 0 ==> updates(parts[i]).len() == 0
}

/// `parts` is a chunking of `delta`: every part repeats its match-wide state,
/// only the first carries the clear flag and the removed ids, the parts'
/// creates and updates, joined in order, are the delta's, and of units and of
/// buildings alike all creates precede all updates.
pub open spec fn splits(delta: DeltaModel, parts: Seq<DeltaModel>) -> bool {
    &&& framed(delta, parts)
    &&& joined(parts, unit_creates_in()) == delta.unit_creates
    &&& joined(parts, unit_updates_in()) == delta.unit_updates
    &&& joined(parts, building_creates_in()) == delta.building_creates
    &&& joined(parts, building_updates_in()) == delta.building_updates
    &&& creates_before_updates(parts, unit_creates_in(), unit_updates_in())
    &&& creates_before_updates(parts, building_creates_in(), building_updates_in())
}

/// The views of a run of chunks.
pub open spec fn chunk_views(chunks: Seq<SnapshotDelta>) -> Seq<DeltaModel> {
    chunks.map_values(|c: SnapshotDelta| c@)
}

/// A chunk with content `chunk` travels in one datagram: `encoded_len` gave a
/// chunk with that content a size within the limit, or it carries at most one
/// entity and cannot be split further.
pub open spec fn fits_datagram<F: Fn(&SnapshotDelta) -> usize>(
    encoded_len: F,
    chunk: DeltaModel,
) -> bool {
    entity_count_of(chunk) <= 1 || exists|measured: SnapshotDelta, n: usize|
        measured@ == chunk && #[trigger] encoded_len.ensures((&measured,), n)
            && n <= SAFE_UDP_PAYLOAD_BYTES
}

/// The match-wide state, clear flag and removed ids of every part are those
/// a chunking of `delta` has.
pub open spec fn framed(delta: DeltaModel, parts: Seq<DeltaModel>) -> bool {
    &&& parts.len() >= 1
    &&& forall|i: int| 0 <= i < parts.len() ==> header_of(#[trigger] parts[i]) == header_of(delta)
    &&& parts[0].clear_entities == delta.clear_entities
    &&& parts[0].unit_removes == delta.unit_removes
    &&& parts[0].building_removes == delta.building_removes
    &&& forall|i: int|
        1 <= i < parts.len() ==> !(#[trigger] parts[i]).clear_entities
            && parts[i].unit_removes.len() == 0 && parts[i].building_removes.len() == 0
}

proof fn lemma_joined_push<T>(parts: Seq<DeltaModel>, p: DeltaModel, field: spec_fn(DeltaModel) -> Seq<T>)
    ensures
        joined(parts.push(p), field) == joined(parts, field) + field(p),
{
    assert(parts.push(p).drop_last() =~= parts);
}

proof fn lemma_joined_push_all(parts: Seq<DeltaModel>, p: DeltaModel)
    ensures
        joined(parts.push(p), unit_creates_in()) == joined(parts, unit_creates_in()) + p.unit_creates,
        joined(parts.push(p), unit_updates_in()) == joined(parts, unit_updates_in()) + p.unit_updates,
        joined(parts.push(p), building_creates_in()) == joined(parts, building_creates_in())
            + p.building_creates,
        joined(parts.push(p), building_updates_in()) == joined(parts, building_updates_in())
            + p.building_updates,
{
    lemma_joined_push(parts, p, unit_creates_in());
    lemma_joined_push(parts, p, unit_updates_in());
    lemma_joined_push(parts, p, building_creates_in());
    lemma_joined_push(parts, p, building_updates_in());
}

proof fn lemma_joined_part_len<T>(parts: Seq<DeltaModel>, field: spec_fn(DeltaModel) -> Seq<T>, k: int)
    requires
        0 <= k < parts.len(),
    ensures
        field(parts[k]).len() <= joined(parts, field).len(),
    decreases parts.len(),
{
    if k < parts.len() - 1 {
        lemma_joined_part_len(parts.drop_last(), field, k);
    }
}

/// Replacing the last part by one with the same frame keeps the framing.
proof fn lemma_framed_last(delta: DeltaModel, parts: Seq<DeltaModel>, p: DeltaModel)
    requires
        framed(delta, parts.push(p)),
    ensures
        forall|q: DeltaModel|
            header_of(q) == header_of(p) && q.clear_entities == p.clear_entities
                && q.unit_removes == p.unit_removes && q.building_removes == p.building_removes
                ==> #[trigger] framed(delta, parts.push(q)),
{
    assert forall|q: DeltaModel|
        header_of(q) == header_of(p) && q.clear_entities == p.clear_entities
            && q.unit_removes == p.unit_removes && q.building_removes
            == p.building_removes implies #[trigger] framed(delta, parts.push(q)) by {
        assert forall|i: int| 0 <= i < parts.push(q).len() implies header_of(
            #[trigger] parts.push(q)[i],
        ) == header_of(delta) by {
            assert(header_of(parts.push(p)[i]) == header_of(delta));
        }
        assert forall|i: int| 1 <= i < parts.push(q).len() implies !(
        #[trigger] parts.push(q)[i]).clear_entities && parts.push(q)[i].unit_removes.len() == 0
            && parts.push(q)[i].building_removes.len() == 0 by {
            assert(!parts.push(p)[i].clear_entities);
        }
        assert(parts.push(q)[0].clear_entities == parts.push(p)[0].clear_entities);
        assert(parts.push(q)[0].unit_removes == parts.push(p)[0].unit_removes);
        assert(parts.push(q)[0].building_removes == parts.push(p)[0].building_removes);
    }
}

/// A new part with the delta's match-wide state and no clear flag or removed
/// ids keeps the framing.
proof fn lemma_framed_push(delta: DeltaModel, parts: Seq<DeltaModel>, p: DeltaModel)
    requires
        framed(delta, parts),
        header_of(p) == header_of(delta),
        !p.clear_entities,
        p.unit_removes.len() == 0,
        p.building_removes.len() == 0,
    ensures
        framed(delta, parts.push(p)),
{
    assert forall|i: int| 0 <= i < parts.push(p).len() implies header_of(
        #[trigger] parts.push(p)[i],
    ) == header_of(delta) by {
        if i < parts.len() {
            assert(header_of(parts[i]) == header_of(delta));
        }
    }
    assert forall|i: int| 1 <= i < parts.push(p).len() implies !(
    #[trigger] parts.push(p)[i]).clear_entities && parts.push(p)[i].unit_removes.len() == 0
        && parts.push(p)[i].building_removes.len() == 0 by {
        if i < parts.len() {
            assert(!parts[i].clear_entities);
        }
    }
}

/// Changing the last part's updates, or its entities of the other kind, keeps
/// creates before updates.
proof fn lemma_order_last<E, P>(
    parts: Seq<DeltaModel>,
    p: DeltaModel,
    q: DeltaModel,
    creates: spec_fn(DeltaModel) -> Seq<E>,
    updates: spec_fn(DeltaModel) -> Seq<P>,
)
    requires
        creates_before_updates(parts.push(p), creates, updates),
        creates(q) == creates(p),
    ensures
        creates_before_updates(parts.push(q), creates, updates),
{
    assert forall|i: int, j: int|
        #![trigger parts.push(q)[i], parts.push(q)[j]]
        0 <= i < j < parts.push(q).len() && creates(parts.push(q)[j]).len() > 0 implies updates(
            parts.push(q)[i],
        ).len() == 0 by {
        assert(parts.push(q)[i] == parts.push(p)[i]);
        assert(creates(parts.push(q)[j]) == creates(parts.push(p)[j]));
        assert(updates(parts.push(p)[i]).len() == 0);
    }
}

/// A new part without creates keeps creates before updates.
proof fn lemma_order_push<E, P>(
    parts: Seq<DeltaModel>,
    p: DeltaModel,
    creates: spec_fn(DeltaModel) -> Seq<E>,
    updates: spec_fn(DeltaModel) -> Seq<P>,
)
    requires
        creates_before_updates(parts, creates, updates),
        creates(p).len() == 0,
    ensures
        creates_before_updates(parts.push(p), creates, updates),
{
    assert forall|i: int, j: int|
        #![trigger parts.push(p)[i], parts.push(p)[j]]
        0 <= i < j < parts.push(p).len() && creates(parts.push(p)[j]).len() > 0 implies updates(
            parts.push(p)[i],
        ).len() == 0 by {
        assert(parts.push(p)[i] == parts[i]);
        assert(parts.push(p)[j] == parts[j]);
    }
}

/// Parts without updates keep creates before updates, whatever their creates.
proof fn lemma_order_no_updates<E, P>(
    parts: Seq<DeltaModel>,
    creates: spec_fn(DeltaModel) -> Seq<E>,
    updates: spec_fn(DeltaModel) -> Seq<P>,
)
    requires
        joined(parts, updates).len() == 0,
    ensures
        creates_before_updates(parts, creates, updates),
{
    assert forall|i: int, j: int|
        #![trigger parts[i], parts[j]]
        0 <= i < j < parts.len() && creates(parts[j]).len() > 0 implies updates(parts[i]).len()
            == 0 by {
        lemma_joined_part_len(parts, updates, i);
    }
}

/// `chunk` with the first entity of `next` added to the list `next` holds it
/// in: the chunk as measured when that entity was tried in it.
pub open spec fn grown(chunk: DeltaModel, next: DeltaModel) -> DeltaModel {
    if next.unit_creates.len() > 0 {
        DeltaModel { unit_creates: chunk.unit_creates.push(next.unit_creates[0]), ..chunk }
    } else if next.unit_updates.len() > 0 {
        DeltaModel { unit_updates: chunk.unit_updates.push(next.unit_updates[0]), ..chunk }
    } else if next.building_creates.len() > 0 {
        DeltaModel {
            building_creates: chunk.building_creates.push(next.building_creates[0]),
            ..chunk
        }
    } else {
        DeltaModel {
            building_updates: chunk.building_updates.push(next.building_updates[0]),
            ..chunk
        }
    }
}

/// The part at `i` was closed only when full: it holds an entity, and with
/// the first entity of the part after it added, `encoded_len` gave it a size
/// over the limit.
pub open spec fn closed_when_full<F: Fn(&SnapshotDelta) -> usize>(
    encoded_len: F,
    parts: Seq<DeltaModel>,
    i: int,
) -> bool {
    entity_count_of(parts[i]) >= 1 && exists|measured: SnapshotDelta, n: usize|
        measured@ == grown(parts[i], parts[i + 1]) && #[trigger] encoded_len.ensures(
            (&measured,),
            n,
        ) && n > SAFE_UDP_PAYLOAD_BYTES
}

/// Every part but the last was closed only when full.
pub open spec fn packed_greedily<F: Fn(&SnapshotDelta) -> usize>(
    encoded_len: F,
    parts: Seq<DeltaModel>,
) -> bool {
    forall|i: int| 0 <= i < parts.len() - 1 ==> #[trigger] closed_when_full(encoded_len, parts, i)
}

/// Growing the last part so that the entity it would take first stays the
/// same keeps the packing.
proof fn lemma_packed_last<F: Fn(&SnapshotDelta) -> usize>(
    encoded_len: F,
    views: Seq<DeltaModel>,
    cur: DeltaModel,
    next: DeltaModel,
)
    requires
        packed_greedily(encoded_len, views.push(cur)),
        views.len() > 0 ==> grown(views.last(), next) == grown(views.last(), cur),
    ensures
        packed_greedily(encoded_len, views.push(next)),
{
    assert forall|i: int| 0 <= i < views.push(next).len() - 1 implies #[trigger] closed_when_full(
        encoded_len,
        views.push(next),
        i,
    ) by {
        assert(closed_when_full(encoded_len, views.push(cur), i));
        assert(views.push(next)[i] == views.push(cur)[i]);
        if i + 1 < views.len() {
            assert(views.push(next)[i + 1] == views.push(cur)[i + 1]);
        } else {
            assert(views.push(next)[i] == views.last());
            assert(grown(views.push(next)[i], views.push(next)[i + 1]) == grown(
                views.push(cur)[i],
                views.push(cur)[i + 1],
            ));
        }
    }
}

/// Closing a full part keeps the packing.
proof fn lemma_packed_push<F: Fn(&SnapshotDelta) -> usize>(
    encoded_len: F,
    parts: Seq<DeltaModel>,
    next: DeltaModel,
)
    requires
        packed_greedily(encoded_len, parts),
        parts.len() > 0,
        closed_when_full(encoded_len, parts.push(next), parts.len() - 1),
    ensures
        packed_greedily(encoded_len, parts.push(next)),
{
    assert forall|i: int| 0 <= i < parts.push(next).len() - 1 implies #[trigger] closed_when_full(
        encoded_len,
        parts.push(next),
        i,
    ) by {
        if i < parts.len() - 1 {
            assert(closed_when_full(encoded_len, parts, i));
            assert(parts.push(next)[i] == parts[i]);
            assert(parts.push(next)[i + 1] == parts[i + 1]);
        }
    }
}

/// Number of entity creates and updates in `delta`.
pub fn delta_entity_count(delta: &SnapshotDelta) -> (n: usize)
    requires
        entity_count_of(delta@) <= usize::MAX,
    ensures
        n == entity_count_of(delta@),
{
    delta.unit_creates.len() + delta.unit_updates.len() + delta.building_creates.len()
        + delta.building_updates.len()
}

/// A delta with `delta`'s match-wide state and nothing else.
pub fn empty_delta_like(delta: &SnapshotDelta) -> (empty: SnapshotDelta)
    ensures
        empty@ == header_of(delta@),
{
    let empty = SnapshotDelta {
        clear_entities: false,
        phase: delta.phase,
        tick: delta.tick,
        elapsed_secs: delta.elapsed_secs,
        sudden_death: delta.sudden_death,
        players: clone_players(&delta.players),
        economies: copy_vec(&delta.economies),
        castles: copy_vec(&delta.castles),
        bounty_events: copy_vec(&delta.bounty_events),
        winner: delta.winner,
        message: delta.message.clone(),
        unit_creates: Vec::new(),
        unit_updates: Vec::new(),
        unit_removes: Vec::new(),
        building_creates: Vec::new(),
        building_updates: Vec::new(),
        building_removes: Vec::new(),
    };
    assert(empty@ =~= header_of(delta@));
    empty
}

/// Closes the current chunk: it joins `chunks`, and a fresh chunk with the
/// same match-wide state takes its place.
pub fn flush_delta_chunk(chunks: &mut Vec<SnapshotDelta>, chunk: &mut SnapshotDelta)
    ensures
        final(chunks)@ == old(chunks)@.push(*old(chunk)),
        final(chunk)@ == header_of(old(chunk)@),
{
    let mut flushed = empty_delta_like(chunk);
    std::mem::swap(&mut flushed, chunk);
    chunks.push(flushed);
}

/// `parts` is a chunking of `d` cut short after its first `uc`, `uu`, `bc`
/// and `bu` unit creates, unit updates, building creates and building updates.
spec fn splits_upto(d: DeltaModel, parts: Seq<DeltaModel>, uc: int, uu: int, bc: int, bu: int) -> bool {
    &&& framed(d, parts)
    &&& joined(parts, unit_creates_in()) == d.unit_creates.take(uc)
    &&& joined(parts, unit_updates_in()) == d.unit_updates.take(uu)
    &&& joined(parts, building_creates_in()) == d.building_creates.take(bc)
    &&& joined(parts, building_updates_in()) == d.building_updates.take(bu)
    &&& creates_before_updates(parts, unit_creates_in(), unit_updates_in())
    &&& creates_before_updates(parts, building_creates_in(), building_updates_in())
}

/// Whether the chunk must give back its last entity: too large, and more
/// than that entity in it.
fn should_split<F: Fn(&SnapshotDelta) -> usize>(chunk: &SnapshotDelta, encoded_len: &F) -> (split: bool)
    requires
        forall|c: &SnapshotDelta| #[trigger] encoded_len.requires((c,)),
        entity_count_of(chunk@) <= usize::MAX,
    ensures
        exists|n: usize|
            #[trigger] encoded_len.ensures((chunk,), n) && split == (n > SAFE_UDP_PAYLOAD_BYTES
                && entity_count_of(chunk@) > 1),
        !split ==> fits_datagram(*encoded_len, chunk@),
{
    let n = encoded_len(chunk);
    proof {
        assert(encoded_len.ensures((chunk,), n));
    }
    n > SAFE_UDP_PAYLOAD_BYTES && delta_entity_count(chunk) > 1
}

/// Splits `delta` into chunks that each fit a datagram, as measured by
/// `encoded_len`: entities are added to the current chunk in order (unit
/// creates, unit updates, building creates, building updates), and an entity
/// that makes the chunk too large opens the next chunk instead.
pub fn chunk_delta<F: Fn(&SnapshotDelta) -> usize>(delta: SnapshotDelta, encoded_len: F) -> (chunks: Vec<SnapshotDelta>)
    requires
        forall|c: &SnapshotDelta| #[trigger] encoded_len.requires((c,)),
        entity_count_of(delta@) <= usize::MAX,
    ensures
        splits(delta@, chunk_views(chunks@)),
        forall|i: int| 0 <= i < chunks.len() ==> fits_datagram(encoded_len, #[trigger] chunks[i]@),
        packed_greedily(encoded_len, chunk_views(chunks@)),
{
    let ghost d = delta@;
    let mut chunks: Vec<SnapshotDelta> = Vec::new();
    let mut chunk = empty_delta_like(&delta);
    chunk.clear_entities = delta.clear_entities;
    chunk.unit_removes = copy_vec(&delta.unit_removes);
    chunk.building_removes = copy_vec(&delta.building_removes);
    proof {
        let none = Seq::<DeltaModel>::empty();
        assert(chunk_views(chunks@) =~= none);
        lemma_joined_push_all(none, chunk@);
        assert(d.unit_creates.take(0) =~= joined(none.push(chunk@), unit_creates_in()));
        assert(d.unit_updates.take(0) =~= joined(none.push(chunk@), unit_updates_in()));
        assert(d.building_creates.take(0) =~= joined(none.push(chunk@), building_creates_in()));
        assert(d.building_updates.take(0) =~= joined(none.push(chunk@), building_updates_in()));
        lemma_order_no_updates(none.push(chunk@), unit_creates_in(), unit_updates_in());
        lemma_order_no_updates(none.push(chunk@), building_creates_in(), building_updates_in());
    }

    let mut i: usize = 0;
    while i < delta.unit_creates.len()
        invariant
            d == delta@,
            forall|c: &SnapshotDelta| #[trigger] encoded_len.requires((c,)),
            entity_count_of(d) <= usize::MAX,
            i <= d.unit_creates.len(),
            splits_upto(d, chunk_views(chunks@).push(chunk@), i as int, 0, 0, 0),
            forall|k: int| 0 <= k < chunks.len() ==> fits_datagram(encoded_len, #[trigger] chunks[k]@),
            fits_datagram(encoded_len, chunk@),
            packed_greedily(encoded_len, chunk_views(chunks@).push(chunk@)),
            chunks.len() > 0 ==> entity_count_of(chunk@) >= 1,
        decreases d.unit_creates.len() - i,
    {
        let ghost before = chunks@;
        let ghost views = chunk_views(chunks@);
        let ghost cur = chunk@;
        let x = delta.unit_creates[i];
        proof {
            lemma_joined_push_all(views, cur);
            lemma_joined_part_len(views.push(cur), unit_creates_in(), views.len() as int);
            lemma_joined_part_len(views.push(cur), unit_updates_in(), views.len() as int);
            lemma_joined_part_len(views.push(cur), building_creates_in(), views.len() as int);
            lemma_joined_part_len(views.push(cur), building_updates_in(), views.len() as int);
            assert(d.unit_creates.take(i + 1) =~= d.unit_creates.take(i as int).push(x));
        }
        chunk.unit_creates.push(x);
        let ghost tried = chunk;
        let split = should_split(&chunk, &encoded_len);
        if split {
            let last = chunk.unit_creates.pop().unwrap();
            proof {
                assert(chunk@.unit_creates =~= cur.unit_creates);
                assert(chunk@ == cur);
            }
            flush_delta_chunk(&mut chunks, &mut chunk);
            chunk.unit_creates.push(last);
            proof {
                let parts = views.push(cur);
                assert(chunk_views(chunks@) =~= parts);
                let n = choose|n: usize|
                    #[trigger] encoded_len.ensures((&tried,), n) && split == (n
                        > SAFE_UDP_PAYLOAD_BYTES && entity_count_of(tried@) > 1);
                assert(tried@ =~= grown(cur, chunk@));
                assert(parts.push(chunk@)[parts.len() - 1] == cur);
                assert(parts.push(chunk@)[parts.len() as int] == chunk@);
                assert(closed_when_full(encoded_len, parts.push(chunk@), parts.len() - 1));
                lemma_packed_push(encoded_len, parts, chunk@);
                lemma_joined_push_all(parts, chunk@);
                lemma_framed_push(d, parts, chunk@);
                lemma_order_no_updates(parts.push(chunk@), unit_creates_in(), unit_updates_in());
                lemma_order_push(parts, chunk@, building_creates_in(), building_updates_in());
                assert forall|k: int| 0 <= k < chunks.len() implies fits_datagram(
                    encoded_len,
                    #[trigger] chunks[k]@,
                ) by {
                    if k < views.len() {
                        assert(chunks@[k] == before[k]);
                    }
                }
                let np = parts.push(chunk@);
                assert(framed(d, np));
                assert(joined(np, unit_creates_in()) == d.unit_creates.take(i + 1));
                assert(joined(np, unit_updates_in()) == d.unit_updates.take(0));
                assert(joined(np, building_creates_in()) == d.building_creates.take(0));
                assert(joined(np, building_updates_in()) == d.building_updates.take(0));
            }
        } else {
            proof {
                if views.len() > 0 {
                    assert(grown(views.last(), chunk@) =~= grown(views.last(), cur));
                }
                lemma_packed_last(encoded_len, views, cur, chunk@);
                lemma_joined_push_all(views, chunk@);
                lemma_framed_last(d, views, cur);
                lemma_order_no_updates(views.push(chunk@), unit_creates_in(), unit_updates_in());
                lemma_order_last(views, cur, chunk@, building_creates_in(), building_updates_in());
                let np = views.push(chunk@);
                assert(framed(d, np));
                assert(joined(np, unit_creates_in()) == d.unit_creates.take(i + 1));
                assert(joined(np, unit_updates_in()) == d.unit_updates.take(0));
                assert(joined(np, building_creates_in()) == d.building_creates.take(0));
                assert(joined(np, building_updates_in()) == d.building_updates.take(0));
            }
        }
        i = i + 1;
    }

    let mut i: usize = 0;
    while i < delta.unit_updates.len()
        invariant
            d == delta@,
            forall|c: &SnapshotDelta| #[trigger] encoded_len.requires((c,)),
            entity_count_of(d) <= usize::MAX,
            i <= d.unit_updates.len(),
            splits_upto(d, chunk_views(chunks@).push(chunk@), d.unit_creates.len() as int, i as int, 0, 0),
            forall|k: int| 0 <= k < chunks.len() ==> fits_datagram(encoded_len, #[trigger] chunks[k]@),
            fits_datagram(encoded_len, chunk@),
            packed_greedily(encoded_len, chunk_views(chunks@).push(chunk@)),
            chunks.len() > 0 ==> entity_count_of(chunk@) >= 1,
        decreases d.unit_updates.len() - i,
    {
        let ghost before = chunks@;
        let ghost views = chunk_views(chunks@);
        let ghost cur = chunk@;
        let x = delta.unit_updates[i];
        proof {
            lemma_joined_push_all(views, cur);
            lemma_joined_part_len(views.push(cur), unit_creates_in(), views.len() as int);
            lemma_joined_part_len(views.push(cur), unit_updates_in(), views.len() as int);
            lemma_joined_part_len(views.push(cur), building_creates_in(), views.len() as int);
            lemma_joined_part_len(views.push(cur), building_updates_in(), views.len() as int);
            assert(d.unit_updates.take(i + 1) =~= d.unit_updates.take(i as int).push(x));
        }
        chunk.unit_updates.push(x);
        let ghost tried = chunk;
        let split = should_split(&chunk, &encoded_len);
        if split {
            let last = chunk.unit_updates.pop().unwrap();
            proof {
                assert(chunk@.unit_updates =~= cur.unit_updates);
                assert(chunk@ == cur);
            }
            flush_delta_chunk(&mut chunks, &mut chunk);
            chunk.unit_updates.push(last);
            proof {
                let parts = views.push(cur);
                assert(chunk_views(chunks@) =~= parts);
                let n = choose|n: usize|
                    #[trigger] encoded_len.ensures((&tried,), n) && split == (n
                        > SAFE_UDP_PAYLOAD_BYTES && entity_count_of(tried@) > 1);
                assert(tried@ =~= grown(cur, chunk@));
                assert(parts.push(chunk@)[parts.len() - 1] == cur);
                assert(parts.push(chunk@)[parts.len() as int] == chunk@);
                assert(closed_when_full(encoded_len, parts.push(chunk@), parts.len() - 1));
                lemma_packed_push(encoded_len, parts, chunk@);
                lemma_joined_push_all(parts, chunk@);
                lemma_framed_push(d, parts, chunk@);
                lemma_order_push(parts, chunk@, unit_creates_in(), unit_updates_in());
                lemma_order_push(parts, chunk@, building_creates_in(), building_updates_in());
                assert forall|k: int| 0 <= k < chunks.len() implies fits_datagram(
                    encoded_len,
                    #[trigger] chunks[k]@,
                ) by {
                    if k < views.len() {
                        assert(chunks@[k] == before[k]);
                    }
                }
                let np = parts.push(chunk@);
                assert(framed(d, np));
                assert(joined(np, unit_creates_in()) == d.unit_creates.take(d.unit_creates.len() as int));
                assert(joined(np, unit_updates_in()) == d.unit_updates.take(i + 1));
                assert(joined(np, building_creates_in()) == d.building_creates.take(0));
                assert(joined(np, building_updates_in()) == d.building_updates.take(0));
            }
        } else {
            proof {
                if views.len() > 0 {
                    assert(grown(views.last(), chunk@) =~= grown(views.last(), cur));
                }
                lemma_packed_last(encoded_len, views, cur, chunk@);
                lemma_joined_push_all(views, chunk@);
                lemma_framed_last(d, views, cur);
                lemma_order_last(views, cur, chunk@, unit_creates_in(), unit_updates_in());
                lemma_order_last(views, cur, chunk@, building_creates_in(), building_updates_in());
                let np = views.push(chunk@);
                assert(framed(d, np));
                assert(joined(np, unit_creates_in()) == d.unit_creates.take(d.unit_creates.len() as int));
                assert(joined(np, unit_updates_in()) == d.unit_updates.take(i + 1));
                assert(joined(np, building_creates_in()) == d.building_creates.take(0));
                assert(joined(np, building_updates_in()) == d.building_updates.take(0));
            }
        }
        i = i + 1;
    }

    let mut i: usize = 0;
    while i < delta.building_creates.len()
        invariant
            d == delta@,
            forall|c: &SnapshotDelta| #[trigger] encoded_len.requires((c,)),
            entity_count_of(d) <= usize::MAX,
            i <= d.building_creates.len(),
            splits_upto(d, chunk_views(chunks@).push(chunk@), d.unit_creates.len() as int, d.unit_updates.len() as int, i as int, 0),
            forall|k: int| 0 <= k < chunks.len() ==> fits_datagram(encoded_len, #[trigger] chunks[k]@),
            fits_datagram(encoded_len, chunk@),
            packed_greedily(encoded_len, chunk_views(chunks@).push(chunk@)),
            chunks.len() > 0 ==> entity_count_of(chunk@) >= 1,
        decreases d.building_creates.len() - i,
    {
        let ghost before = chunks@;
        let ghost views = chunk_views(chunks@);
        let ghost cur = chunk@;
        let x = delta.building_creates[i];
        proof {
            lemma_joined_push_all(views, cur);
            lemma_joined_part_len(views.push(cur), unit_creates_in(), views.len() as int);
            lemma_joined_part_len(views.push(cur), unit_updates_in(), views.len() as int);
            lemma_joined_part_len(views.push(cur), building_creates_in(), views.len() as int);
            lemma_joined_part_len(views.push(cur), building_updates_in(), views.len() as int);
            assert(d.building_creates.take(i + 1) =~= d.building_creates.take(i as int).push(x));
        }
        chunk.building_creates.push(x);
        let ghost tried = chunk;
        let split = should_split(&chunk, &encoded_len);
        if split {
            let last = chunk.building_creates.pop().unwrap();
            proof {
                assert(chunk@.building_creates =~= cur.building_creates);
                assert(chunk@ == cur);
            }
            flush_delta_chunk(&mut chunks, &mut chunk);
            chunk.building_creates.push(last);
            proof {
                let parts = views.push(cur);
                assert(chunk_views(chunks@) =~= parts);
                let n = choose|n: usize|
                    #[trigger] encoded_len.ensures((&tried,), n) && split == (n
                        > SAFE_UDP_PAYLOAD_BYTES && entity_count_of(tried@) > 1);
                assert(tried@ =~= grown(cur, chunk@));
                assert(parts.push(chunk@)[parts.len() - 1] == cur);
                assert(parts.push(chunk@)[parts.len() as int] == chunk@);
                assert(closed_when_full(encoded_len, parts.push(chunk@), parts.len() - 1));
                lemma_packed_push(encoded_len, parts, chunk@);
                lemma_joined_push_all(parts, chunk@);
                lemma_framed_push(d, parts, chunk@);
                lemma_order_push(parts, chunk@, unit_creates_in(), unit_updates_in());
                lemma_order_no_updates(parts.push(chunk@), building_creates_in(), building_updates_in());
                assert forall|k: int| 0 <= k < chunks.len() implies fits_datagram(
                    encoded_len,
                    #[trigger] chunks[k]@,
                ) by {
                    if k < views.len() {
                        assert(chunks@[k] == before[k]);
                    }
                }
                let np = parts.push(chunk@);
                assert(framed(d, np));
                assert(joined(np, unit_creates_in()) == d.unit_creates.take(d.unit_creates.len() as int));
                assert(joined(np, unit_updates_in()) == d.unit_updates.take(d.unit_updates.len() as int));
                assert(joined(np, building_creates_in()) == d.building_creates.take(i + 1));
                assert(joined(np, building_updates_in()) == d.building_updates.take(0));
            }
        } else {
            proof {
                if views.len() > 0 {
                    assert(grown(views.last(), chunk@) =~= grown(views.last(), cur));
                }
                lemma_packed_last(encoded_len, views, cur, chunk@);
                lemma_joined_push_all(views, chunk@);
                lemma_framed_last(d, views, cur);
                lemma_order_last(views, cur, chunk@, unit_creates_in(), unit_updates_in());
                lemma_order_no_updates(views.push(chunk@), building_creates_in(), building_updates_in());
                let np = views.push(chunk@);
                assert(framed(d, np));
                assert(joined(np, unit_creates_in()) == d.unit_creates.take(d.unit_creates.len() as int));
                assert(joined(np, unit_updates_in()) == d.unit_updates.take(d.unit_updates.len() as int));
                assert(joined(np, building_creates_in()) == d.building_creates.take(i + 1));
                assert(joined(np, building_updates_in()) == d.building_updates.take(0));
            }
        }
        i = i + 1;
    }

    let mut i: usize = 0;
    while i < delta.building_updates.len()
        invariant
            d == delta@,
            forall|c: &SnapshotDelta| #[trigger] encoded_len.requires((c,)),
            entity_count_of(d) <= usize::MAX,
            i <= d.building_updates.len(),
            splits_upto(d, chunk_views(chunks@).push(chunk@), d.unit_creates.len() as int, d.unit_updates.len() as int, d.building_creates.len() as int, i as int),
            forall|k: int| 0 <= k < chunks.len() ==> fits_datagram(encoded_len, #[trigger] chunks[k]@),
            fits_datagram(encoded_len, chunk@),
            packed_greedily(encoded_len, chunk_views(chunks@).push(chunk@)),
            chunks.len() > 0 ==> entity_count_of(chunk@) >= 1,
        decreases d.building_updates.len() - i,
    {
        let ghost before = chunks@;
        let ghost views = chunk_views(chunks@);
        let ghost cur = chunk@;
        let x = delta.building_updates[i];
        proof {
            lemma_joined_push_all(views, cur);
            lemma_joined_part_len(views.push(cur), unit_creates_in(), views.len() as int);
            lemma_joined_part_len(views.push(cur), unit_updates_in(), views.len() as int);
            lemma_joined_part_len(views.push(cur), building_creates_in(), views.len() as int);
            lemma_joined_part_len(views.push(cur), building_updates_in(), views.len() as int);
            assert(d.building_updates.take(i + 1) =~= d.building_updates.take(i as int).push(x));
        }
        chunk.building_updates.push(x);
        let ghost tried = chunk;
        let split = should_split(&chunk, &encoded_len);
        if split {
            let last = chunk.building_updates.pop().unwrap();
            proof {
                assert(chunk@.building_updates =~= cur.building_updates);
                assert(chunk@ == cur);
            }
            flush_delta_chunk(&mut chunks, &mut chunk);
            chunk.building_updates.push(last);
            proof {
                let parts = views.push(cur);
                assert(chunk_views(chunks@) =~= parts);
                let n = choose|n: usize|
                    #[trigger] encoded_len.ensures((&tried,), n) && split == (n
                        > SAFE_UDP_PAYLOAD_BYTES && entity_count_of(tried@) > 1);
                assert(tried@ =~= grown(cur, chunk@));
                assert(parts.push(chunk@)[parts.len() - 1] == cur);
                assert(parts.push(chunk@)[parts.len() as int] == chunk@);
                assert(closed_when_full(encoded_len, parts.push(chunk@), parts.len() - 1));
                lemma_packed_push(encoded_len, parts, chunk@);
                lemma_joined_push_all(parts, chunk@);
                lemma_framed_push(d, parts, chunk@);
                lemma_order_push(parts, chunk@, unit_creates_in(), unit_updates_in());
                lemma_order_push(parts, chunk@, building_creates_in(), building_updates_in());
                assert forall|k: int| 0 <= k < chunks.len() implies fits_datagram(
                    encoded_len,
                    #[trigger] chunks[k]@,
                ) by {
                    if k < views.len() {
                        assert(chunks@[k] == before[k]);
                    }
                }
                let np = parts.push(chunk@);
                assert(framed(d, np));
                assert(joined(np, unit_creates_in()) == d.unit_creates.take(d.unit_creates.len() as int));
                assert(joined(np, unit_updates_in()) == d.unit_updates.take(d.unit_updates.len() as int));
                assert(joined(np, building_creates_in()) == d.building_creates.take(d.building_creates.len() as int));
                assert(joined(np, building_updates_in()) == d.building_updates.take(i + 1));
            }
        } else {
            proof {
                if views.len() > 0 {
                    assert(grown(views.last(), chunk@) =~= grown(views.last(), cur));
                }
                lemma_packed_last(encoded_len, views, cur, chunk@);
                lemma_joined_push_all(views, chunk@);
                lemma_framed_last(d, views, cur);
                lemma_order_last(views, cur, chunk@, unit_creates_in(), unit_updates_in());
                lemma_order_last(views, cur, chunk@, building_creates_in(), building_updates_in());
                let np = views.push(chunk@);
                assert(framed(d, np));
                assert(joined(np, unit_creates_in()) == d.unit_creates.take(d.unit_creates.len() as int));
                assert(joined(np, unit_updates_in()) == d.unit_updates.take(d.unit_updates.len() as int));
                assert(joined(np, building_creates_in()) == d.building_creates.take(d.building_creates.len() as int));
                assert(joined(np, building_updates_in()) == d.building_updates.take(i + 1));
            }
        }
        i = i + 1;
    }
    proof {
        let parts = chunk_views(chunks@).push(chunk@);
        assert(d.unit_creates.take(d.unit_creates.len() as int) =~= d.unit_creates);
        assert(d.unit_updates.take(d.unit_updates.len() as int) =~= d.unit_updates);
        assert(d.building_creates.take(d.building_creates.len() as int) =~= d.building_creates);
        assert(d.building_updates.take(d.building_updates.len() as int) =~= d.building_updates);
        assert(chunk_views(chunks@.push(chunk)) =~= parts);
    }
    chunks.push(chunk);
    chunks
}

/// `snapshot` patched by each delta of `deltas` in turn.
pub open spec fn patched_in_turn(snapshot: SnapshotModel, deltas: Seq<DeltaModel>) -> SnapshotModel
    decreases deltas.len(),
{
    if deltas.len() == 0 {
        snapshot
    } else {
        patched_by(patched_in_turn(snapshot, deltas.drop_last()), deltas.last())
    }
}

/// The delta that the parts `ps` carry together: the first part's frame and
/// the parts' creates and updates joined in order.
spec fn merged(ps: Seq<DeltaModel>) -> DeltaModel {
    DeltaModel {
        unit_creates: joined(ps, unit_creates_in()),
        unit_updates: joined(ps, unit_updates_in()),
        building_creates: joined(ps, building_creates_in()),
        building_updates: joined(ps, building_updates_in()),
        ..ps[0]
    }
}

proof fn lemma_without_no_keys<E: Keyed>(s: Seq<E>)
    ensures
        without_keys(s, Seq::empty()) == s,
    decreases s.len(),
{
    reveal(Seq::filter);
    if s.len() > 0 {
        lemma_without_no_keys(s.drop_last());
        assert(!Seq::<u64>::empty().contains(s.last().key()));
        assert(s.drop_last().push(s.last()) =~= s);
    }
}

proof fn lemma_upserted_all_concat<E: Keyed>(s: Seq<E>, a: Seq<E>, b: Seq<E>)
    ensures
        upserted_all(s, a + b) == upserted_all(upserted_all(s, a), b),
    decreases b.len(),
{
    if b.len() == 0 {
        assert(a + b =~= a);
    } else {
        lemma_upserted_all_concat(s, a, b.drop_last());
        assert((a + b).drop_last() =~= a + b.drop_last());
    }
}

proof fn lemma_patched_all_concat<E: Keyed, P: Patch<E>>(s: Seq<E>, a: Seq<P>, b: Seq<P>)
    ensures
        patched_all(s, a + b) == patched_all(patched_all(s, a), b),
    decreases b.len(),
{
    if b.len() == 0 {
        assert(a + b =~= a);
    } else {
        lemma_patched_all_concat(s, a, b.drop_last());
        assert((a + b).drop_last() =~= a + b.drop_last());
    }
}

/// One later part applied to entities already patched by the earlier parts:
/// creates come only while no update has been applied.
proof fn lemma_entities_step<E: Keyed, P: Patch<E>>(
    base: Seq<E>,
    creates: Seq<E>,
    updates: Seq<P>,
    more_creates: Seq<E>,
    more_updates: Seq<P>,
)
    requires
        more_creates.len() > 0 ==> updates.len() == 0,
    ensures
        patched_all(
            upserted_all(
                without_keys(patched_all(upserted_all(base, creates), updates), Seq::empty()),
                more_creates,
            ),
            more_updates,
        ) == patched_all(upserted_all(base, creates + more_creates), updates + more_updates),
{
    let so_far = patched_all(upserted_all(base, creates), updates);
    lemma_without_no_keys(so_far);
    if more_creates.len() == 0 {
        assert(creates + more_creates =~= creates);
        lemma_patched_all_concat(upserted_all(base, creates), updates, more_updates);
    } else {
        assert(updates + more_updates =~= more_updates);
        lemma_upserted_all_concat(base, creates, more_creates);
    }
}

proof fn lemma_joined_all_empty<T>(parts: Seq<DeltaModel>, field: spec_fn(DeltaModel) -> Seq<T>)
    requires
        forall|i: int| 0 <= i < parts.len() ==> field(#[trigger] parts[i]).len() == 0,
    ensures
        joined(parts, field).len() == 0,
    decreases parts.len(),
{
    if parts.len() > 0 {
        lemma_joined_all_empty(parts.drop_last(), field);
        assert(field(parts[parts.len() - 1]).len() == 0);
    }
}

/// The first `k` parts, applied in turn, patch a snapshot as their merge does.
proof fn lemma_prefix_patches_as_merged(
    snapshot: SnapshotModel,
    delta: DeltaModel,
    parts: Seq<DeltaModel>,
    k: int,
)
    requires
        splits(delta, parts),
        1 <= k <= parts.len(),
    ensures
        patched_in_turn(snapshot, parts.take(k)) == patched_by(snapshot, merged(parts.take(k))),
    decreases k,
{
    if k == 1 {
        let none = Seq::<DeltaModel>::empty();
        assert(parts.take(1) =~= none.push(parts[0]));
        assert(parts.take(1).drop_last() =~= none);
        lemma_joined_push_all(none, parts[0]);
        assert(joined(parts.take(1), unit_creates_in()) =~= parts[0].unit_creates);
        assert(joined(parts.take(1), unit_updates_in()) =~= parts[0].unit_updates);
        assert(joined(parts.take(1), building_creates_in()) =~= parts[0].building_creates);
        assert(joined(parts.take(1), building_updates_in()) =~= parts[0].building_updates);
        assert(merged(parts.take(1)) == parts[0]);
        assert(patched_in_turn(snapshot, none) == snapshot);
    } else {
        let j = k - 1;
        lemma_prefix_patches_as_merged(snapshot, delta, parts, j);
        let ps = parts.take(j);
        let p = parts[j];
        let m = merged(ps);
        assert(parts.take(k) =~= ps.push(p));
        assert(parts.take(k).drop_last() =~= ps);
        assert(ps[0] == parts[0]);
        assert(ps.push(p)[0] == parts[0]);
        lemma_joined_push_all(ps, p);
        assert(header_of(p) == header_of(delta));
        assert(header_of(parts[0]) == header_of(delta));
        assert(!p.clear_entities && p.unit_removes.len() == 0 && p.building_removes.len() == 0);
        assert(p.unit_removes =~= Seq::<u64>::empty());
        assert(p.building_removes =~= Seq::<u64>::empty());
        if p.unit_creates.len() > 0 {
            assert forall|i: int| 0 <= i < ps.len() implies unit_updates_in()(#[trigger] ps[i]).len()
                == 0 by {
                assert(ps[i] == parts[i]);
                assert(parts[i] == parts[i] && parts[j] == parts[j]);
            }
            lemma_joined_all_empty(ps, unit_updates_in());
        }
        if p.building_creates.len() > 0 {
            assert forall|i: int| 0 <= i < ps.len() implies building_updates_in()(
                #[trigger] ps[i],
            ).len() == 0 by {
                assert(ps[i] == parts[i]);
                assert(parts[i] == parts[i] && parts[j] == parts[j]);
            }
            lemma_joined_all_empty(ps, building_updates_in());
        }
        let first = parts[0];
        let units = if first.clear_entities {
            Seq::<Unit>::empty()
        } else {
            snapshot.units
        };
        let buildings = if first.clear_entities {
            Seq::<Building>::empty()
        } else {
            snapshot.buildings
        };
        lemma_entities_step(
            without_keys(units, first.unit_removes),
            m.unit_creates,
            m.unit_updates,
            p.unit_creates,
            p.unit_updates,
        );
        lemma_entities_step(
            without_keys(buildings, first.building_removes),
            m.building_creates,
            m.building_updates,
            p.building_creates,
            p.building_updates,
        );
        let after = merged(ps.push(p));
        assert(after.unit_creates == m.unit_creates + p.unit_creates);
        assert(after.unit_updates == m.unit_updates + p.unit_updates);
        assert(patched_by(patched_by(snapshot, m), p) == patched_by(snapshot, after));
    }
}

/// Applying the chunks of a delta one after another patches a snapshot
/// exactly as the whole delta does.
pub proof fn lemma_chunks_patch_as_whole(snapshot: SnapshotModel, delta: DeltaModel, parts: Seq<DeltaModel>)
    requires
        splits(delta, parts),
    ensures
        patched_in_turn(snapshot, parts) == patched_by(snapshot, delta),
{
    lemma_prefix_patches_as_merged(snapshot, delta, parts, parts.len() as int);
    assert(parts.take(parts.len() as int) =~= parts);
    assert(header_of(parts[0]) == header_of(delta));
    assert(merged(parts) == delta);
}

} // verus!
