//! Sequences of entities that carry an id, read as maps from id to entity.
//!
//! Snapshots hold units and buildings in vectors; what a client sees of them
//! is the map from id to entity. These definitions and lemmas relate the
//! vector operations of snapshot patching (drop ids, insert-or-replace by id,
//! patch by id) to that map view.
use vstd::prelude::*;

verus! {

/// An entity identified by a 64-bit id.
pub trait Keyed: Sized {
    spec fn key(self) -> u64;
}

/// A partial update addressed to one entity by its id.
pub trait Patch<E: Keyed>: Sized {
    spec fn patch_key(self) -> u64;

    spec fn patch_onto(self, e: E) -> E;

    /// Patching never changes the entity's id.
    proof fn lemma_patch_keeps_key(self, e: E)
        ensures
            self.patch_onto(e).key() == e.key(),
    ;

    /// A patch overwrites whatever an earlier patch set.
    proof fn lemma_patch_overwrites(self, earlier: Self, e: E)
        ensures
            self.patch_onto(earlier.patch_onto(e)) == self.patch_onto(e),
    ;
}

/// The map from id to entity; where an id occurs twice the later entity wins.
pub open spec fn key_map<E: Keyed>(s: Seq<E>) -> Map<u64, E>
    decreases s.len(),
{
    if s.len() == 0 {
        Map::empty()
    } else {
        key_map(s.drop_last()).insert(s.last().key(), s.last())
    }
}

/// No id occurs twice.
pub open spec fn distinct_keys<E: Keyed>(s: Seq<E>) -> bool {
    forall|i: int, j: int|
        0 <= i < s.len() && 0 <= j < s.len() && i != j ==> #[trigger] s[i].key() != #[trigger] s[j].key()
}

pub open spec fn has_key<E: Keyed>(s: Seq<E>, k: u64) -> bool {
    exists|i: int| 0 <= i < s.len() && #[trigger] s[i].key() == k
}

pub open spec fn is_first_key_index<E: Keyed>(s: Seq<E>, k: u64, i: int) -> bool {
    &&& 0 <= i < s.len()
    &&& s[i].key() == k
    &&& forall|j: int| 0 <= j < i ==> #[trigger] s[j].key() != k
}

/// The position of the first entity with id `k`, or -1.
pub open spec fn first_key_index<E: Keyed>(s: Seq<E>, k: u64) -> int {
    if exists|i: int| is_first_key_index(s, k, i) {
        choose|i: int| is_first_key_index(s, k, i)
    } else {
        -1
    }
}

/// Holds of entities whose id is not listed in `removed`.
pub open spec fn not_listed<E: Keyed>(removed: Seq<u64>) -> spec_fn(E) -> bool {
    |e: E| !removed.contains(e.key())
}

/// The entities whose id is not listed in `removed`, in order.
pub open spec fn without_keys<E: Keyed>(s: Seq<E>, removed: Seq<u64>) -> Seq<E> {
    s.filter(not_listed(removed))
}

/// Replaces the first entity with the same id, or appends.
pub open spec fn upserted<E: Keyed>(s: Seq<E>, e: E) -> Seq<E> {
    let k = first_key_index(s, e.key());
    if k >= 0 {
        s.update(k, e)
    } else {
        s.push(e)
    }
}

/// Upserts each entity of `es` in order.
pub open spec fn upserted_all<E: Keyed>(s: Seq<E>, es: Seq<E>) -> Seq<E>
    decreases es.len(),
{
    if es.len() == 0 {
        s
    } else {
        upserted(upserted_all(s, es.drop_last()), es.last())
    }
}

/// Patches the first entity with the patch's id; no-op when there is none.
pub open spec fn patched<E: Keyed, P: Patch<E>>(s: Seq<E>, p: P) -> Seq<E> {
    let k = first_key_index(s, p.patch_key());
    if k >= 0 {
        s.update(k, p.patch_onto(s[k]))
    } else {
        s
    }
}

/// Applies each patch of `ps` in order.
pub open spec fn patched_all<E: Keyed, P: Patch<E>>(s: Seq<E>, ps: Seq<P>) -> Seq<E>
    decreases ps.len(),
{
    if ps.len() == 0 {
        s
    } else {
        patched(patched_all(s, ps.drop_last()), ps.last())
    }
}

/// A patch applied to a map from id to entity.
pub open spec fn map_patched<E: Keyed, P: Patch<E>>(m: Map<u64, E>, p: P) -> Map<u64, E> {
    if m.contains_key(p.patch_key()) {
        m.insert(p.patch_key(), p.patch_onto(m[p.patch_key()]))
    } else {
        m
    }
}

pub open spec fn map_patched_all<E: Keyed, P: Patch<E>>(m: Map<u64, E>, ps: Seq<P>) -> Map<
    u64,
    E,
>
    decreases ps.len(),
{
    if ps.len() == 0 {
        m
    } else {
        map_patched(map_patched_all(m, ps.drop_last()), ps.last())
    }
}

pub open spec fn distinct_patch_keys<E: Keyed, P: Patch<E>>(ps: Seq<P>) -> bool {
    forall|i: int, j: int|
        0 <= i < ps.len() && 0 <= j < ps.len() && i != j ==> #[trigger] ps[i].patch_key()
            != #[trigger] ps[j].patch_key()
}

/// An id is in the map exactly when some entity carries it.
pub proof fn lemma_key_map_dom<E: Keyed>(s: Seq<E>, k: u64)
    ensures
        key_map(s).contains_key(k) <==> has_key(s, k),
    decreases s.len(),
{
    if s.len() > 0 {
        lemma_key_map_dom(s.drop_last(), k);
        if has_key(s.drop_last(), k) {
            let i = choose|i: int| 0 <= i < s.drop_last().len() && #[trigger] s.drop_last()[i].key() == k;
            assert(s[i].key() == k);
        }
        if has_key(s, k) && s.last().key() != k {
            let i = choose|i: int| 0 <= i < s.len() && #[trigger] s[i].key() == k;
            assert(i < s.len() - 1);
            assert(s.drop_last()[i].key() == k);
        }
    }
}

/// With distinct ids, the map sends each entity's id to that entity.
pub proof fn lemma_key_map_value<E: Keyed>(s: Seq<E>, i: int)
    requires
        distinct_keys(s),
        0 <= i < s.len(),
    ensures
        key_map(s).contains_key(s[i].key()),
        key_map(s)[s[i].key()] == s[i],
    decreases s.len(),
{
    if i < s.len() - 1 {
        let d = s.drop_last();
        assert(distinct_keys(d)) by {
            assert forall|a: int, b: int|
                0 <= a < d.len() && 0 <= b < d.len() && a != b implies #[trigger] d[a].key()
                != #[trigger] d[b].key() by {
                assert(d[a] == s[a] && d[b] == s[b]);
            }
        }
        assert(d[i] == s[i]);
        lemma_key_map_value(d, i);
        assert(s[i].key() != s[s.len() - 1].key());
    }
}

/// The map of a sequence with distinct ids, entity by entity.
pub proof fn lemma_key_map_distinct<E: Keyed>(s: Seq<E>)
    requires
        distinct_keys(s),
    ensures
        forall|i: int|
            0 <= i < s.len() ==> key_map(s).contains_key(#[trigger] s[i].key()) && key_map(s)[s[i].key()]
                == s[i],
        forall|k: u64| #[trigger] key_map(s).contains_key(k) <==> has_key(s, k),
{
    assert forall|i: int| 0 <= i < s.len() implies key_map(s).contains_key(#[trigger] s[i].key())
        && key_map(s)[s[i].key()] == s[i] by {
        lemma_key_map_value(s, i);
    }
    assert forall|k: u64| #[trigger] key_map(s).contains_key(k) <==> has_key(s, k) by {
        lemma_key_map_dom(s, k);
    }
}

/// The first index of an id is unique, and -1 exactly when the id is absent.
pub proof fn lemma_first_key_index<E: Keyed>(s: Seq<E>, k: u64, i: int)
    ensures
        is_first_key_index(s, k, i) ==> first_key_index(s, k) == i,
        first_key_index(s, k) >= 0 ==> is_first_key_index(s, k, first_key_index(s, k)),
        first_key_index(s, k) < 0 <==> !has_key(s, k),
{
    if is_first_key_index(s, k, i) {
        let c = choose|c: int| is_first_key_index(s, k, c);
        if c < i {
            assert(s[c].key() != k);
        }
        if i < c {
            assert(s[i].key() != k);
        }
    }
    if has_key(s, k) {
        let w = choose|w: int| 0 <= w < s.len() && #[trigger] s[w].key() == k;
        lemma_least_key_index(s, k, w);
    }
}

proof fn lemma_least_key_index<E: Keyed>(s: Seq<E>, k: u64, w: int)
    requires
        0 <= w < s.len(),
        s[w].key() == k,
    ensures
        exists|i: int| is_first_key_index(s, k, i),
    decreases w,
{
    if forall|j: int| 0 <= j < w ==> #[trigger] s[j].key() != k {
        assert(is_first_key_index(s, k, w));
    } else {
        let j = choose|j: int| 0 <= j < w && #[trigger] s[j].key() != k == false;
        lemma_least_key_index(s, k, j);
    }
}

/// Filtering keeps ids distinct and restricts the map to the kept entities.
pub proof fn lemma_filter_key_map<E: Keyed>(s: Seq<E>, pred: spec_fn(E) -> bool)
    requires
        distinct_keys(s),
    ensures
        distinct_keys(s.filter(pred)),
        forall|k: u64| #[trigger]
            key_map(s.filter(pred)).contains_key(k) ==> key_map(s).contains_key(k),
        key_map(s.filter(pred)) == Map::new(
            |k: u64| key_map(s).contains_key(k) && pred(key_map(s)[k]),
            |k: u64| key_map(s)[k],
        ),
    decreases s.len(),
{
    reveal(Seq::filter);
    let m = Map::new(
        |k: u64| key_map(s).contains_key(k) && pred(key_map(s)[k]),
        |k: u64| key_map(s)[k],
    );
    if s.len() == 0 {
        assert(key_map(s.filter(pred)) =~= m);
    } else {
        let d = s.drop_last();
        let e = s.last();
        assert(distinct_keys(d)) by {
            assert forall|a: int, b: int|
                0 <= a < d.len() && 0 <= b < d.len() && a != b implies #[trigger] d[a].key()
                != #[trigger] d[b].key() by {
                assert(d[a] == s[a] && d[b] == s[b]);
            }
        }
        lemma_filter_key_map(d, pred);
        let fd = d.filter(pred);
        assert(!key_map(d).contains_key(e.key())) by {
            lemma_key_map_dom(d, e.key());
            if has_key(d, e.key()) {
                let i = choose|i: int| 0 <= i < d.len() && #[trigger] d[i].key() == e.key();
                assert(s[i].key() == s[s.len() - 1].key());
            }
        }
        assert(!key_map(fd).contains_key(e.key()));
        if pred(e) {
            assert(s.filter(pred) == fd.push(e));
            assert(distinct_keys(fd.push(e))) by {
                let f = fd.push(e);
                assert forall|a: int, b: int|
                    0 <= a < f.len() && 0 <= b < f.len() && a != b implies #[trigger] f[a].key()
                    != #[trigger] f[b].key() by {
                    if a < fd.len() && b < fd.len() {
                        assert(f[a] == fd[a] && f[b] == fd[b]);
                    } else if a < fd.len() {
                        assert(f[a] == fd[a]);
                        lemma_key_map_dom(fd, fd[a].key());
                    } else {
                        assert(f[b] == fd[b]);
                        lemma_key_map_dom(fd, fd[b].key());
                    }
                }
            }
            assert(key_map(fd.push(e)) == key_map(fd).insert(e.key(), e)) by {
                assert(fd.push(e).drop_last() =~= fd);
            }
            assert(key_map(s.filter(pred)) =~= m);
        } else {
            assert(s.filter(pred) == fd);
            assert(key_map(s.filter(pred)) =~= m);
        }
    }
}

/// Upserting keeps ids distinct and inserts into the map.
pub proof fn lemma_upserted<E: Keyed>(s: Seq<E>, e: E)
    requires
        distinct_keys(s),
    ensures
        distinct_keys(upserted(s, e)),
        key_map(upserted(s, e)) == key_map(s).insert(e.key(), e),
{
    let r = upserted(s, e);
    let k = first_key_index(s, e.key());
    lemma_first_key_index(s, e.key(), 0);
    lemma_key_map_distinct(s);
    if k >= 0 {
        assert(distinct_keys(r)) by {
            assert forall|a: int, b: int|
                0 <= a < r.len() && 0 <= b < r.len() && a != b implies #[trigger] r[a].key()
                != #[trigger] r[b].key() by {
                assert(s[a].key() != s[b].key());
            }
        }
        lemma_key_map_distinct(r);
        assert forall|x: u64| #[trigger] key_map(r).contains_key(x) == key_map(s).insert(
            e.key(),
            e,
        ).contains_key(x) by {
            if has_key(r, x) {
                let i = choose|i: int| 0 <= i < r.len() && #[trigger] r[i].key() == x;
                assert(s[i].key() == x);
            }
            if has_key(s, x) {
                let i = choose|i: int| 0 <= i < s.len() && #[trigger] s[i].key() == x;
                assert(r[i].key() == x);
            }
        }
        assert forall|x: u64| #[trigger] key_map(r).contains_key(x) implies key_map(r)[x]
            == key_map(s).insert(e.key(), e)[x] by {
            let i = choose|i: int| 0 <= i < r.len() && #[trigger] r[i].key() == x;
            if i != k {
                assert(r[i] == s[i]);
            }
        }
        assert(key_map(r) =~= key_map(s).insert(e.key(), e));
    } else {
        assert(distinct_keys(r)) by {
            assert forall|a: int, b: int|
                0 <= a < r.len() && 0 <= b < r.len() && a != b implies #[trigger] r[a].key()
                != #[trigger] r[b].key() by {
                if a < s.len() && b < s.len() {
                    assert(r[a] == s[a] && r[b] == s[b]);
                } else if a < s.len() {
                    assert(r[a] == s[a]);
                } else {
                    assert(r[b] == s[b]);
                }
            }
        }
        assert(r.drop_last() =~= s);
    }
}

/// Upserting a list inserts all of its map, later entries winning.
pub proof fn lemma_upserted_all<E: Keyed>(s: Seq<E>, es: Seq<E>)
    requires
        distinct_keys(s),
    ensures
        distinct_keys(upserted_all(s, es)),
        key_map(upserted_all(s, es)) == key_map(s).union_prefer_right(key_map(es)),
    decreases es.len(),
{
    if es.len() == 0 {
        assert(key_map(s).union_prefer_right(key_map(es)) =~= key_map(s));
    } else {
        lemma_upserted_all(s, es.drop_last());
        lemma_upserted(upserted_all(s, es.drop_last()), es.last());
        assert(key_map(upserted_all(s, es)) =~= key_map(s).union_prefer_right(key_map(es)));
    }
}

/// Patching keeps ids distinct and patches the map.
pub proof fn lemma_patched<E: Keyed, P: Patch<E>>(s: Seq<E>, p: P)
    requires
        distinct_keys(s),
    ensures
        distinct_keys(patched(s, p)),
        key_map(patched(s, p)) == map_patched(key_map(s), p),
{
    let r = patched(s, p);
    let k = first_key_index(s, p.patch_key());
    lemma_first_key_index(s, p.patch_key(), 0);
    lemma_key_map_distinct(s);
    if k >= 0 {
        p.lemma_patch_keeps_key(s[k]);
        assert(distinct_keys(r)) by {
            assert forall|a: int, b: int|
                0 <= a < r.len() && 0 <= b < r.len() && a != b implies #[trigger] r[a].key()
                != #[trigger] r[b].key() by {
                assert(s[a].key() != s[b].key());
            }
        }
        lemma_key_map_distinct(r);
        assert(key_map(s)[p.patch_key()] == s[k]);
        assert forall|x: u64| #[trigger] key_map(r).contains_key(x) == key_map(s).contains_key(
            x,
        ) by {
            if has_key(r, x) {
                let i = choose|i: int| 0 <= i < r.len() && #[trigger] r[i].key() == x;
                assert(s[i].key() == x);
            }
            if has_key(s, x) {
                let i = choose|i: int| 0 <= i < s.len() && #[trigger] s[i].key() == x;
                assert(r[i].key() == x);
            }
        }
        assert forall|x: u64| #[trigger] key_map(r).contains_key(x) implies key_map(r)[x]
            == map_patched(key_map(s), p)[x] by {
            let i = choose|i: int| 0 <= i < r.len() && #[trigger] r[i].key() == x;
            if i != k {
                assert(r[i] == s[i]);
            }
        }
        assert(key_map(r) =~= map_patched(key_map(s), p));
    } else {
        lemma_key_map_dom(s, p.patch_key());
    }
}

/// Applying a list of patches to the sequence patches its map in order.
pub proof fn lemma_patched_all<E: Keyed, P: Patch<E>>(s: Seq<E>, ps: Seq<P>)
    requires
        distinct_keys(s),
    ensures
        distinct_keys(patched_all(s, ps)),
        key_map(patched_all(s, ps)) == map_patched_all(key_map(s), ps),
    decreases ps.len(),
{
    if ps.len() > 0 {
        lemma_patched_all(s, ps.drop_last());
        lemma_patched(patched_all(s, ps.drop_last()), ps.last());
    }
}

/// Patches with distinct ids, all present in the map, each patch their own
/// entity once.
pub proof fn lemma_map_patched_all<E: Keyed, P: Patch<E>>(m: Map<u64, E>, ps: Seq<P>)
    requires
        distinct_patch_keys(ps),
        forall|i: int| 0 <= i < ps.len() ==> m.contains_key(#[trigger] ps[i].patch_key()),
    ensures
        map_patched_all(m, ps).dom() == m.dom(),
        forall|i: int|
            0 <= i < ps.len() ==> map_patched_all(m, ps)[#[trigger] ps[i].patch_key()]
                == ps[i].patch_onto(m[ps[i].patch_key()]),
        forall|k: u64|
            m.contains_key(k) && (forall|i: int| 0 <= i < ps.len() ==> #[trigger] ps[i].patch_key() != k)
                ==> #[trigger] map_patched_all(m, ps)[k] == m[k],
    decreases ps.len(),
{
    if ps.len() > 0 {
        let d = ps.drop_last();
        let last = ps.last();
        assert(distinct_patch_keys(d)) by {
            assert forall|a: int, b: int|
                0 <= a < d.len() && 0 <= b < d.len() && a != b implies #[trigger] d[a].patch_key()
                != #[trigger] d[b].patch_key() by {
                assert(d[a] == ps[a] && d[b] == ps[b]);
            }
        }
        assert forall|i: int| 0 <= i < d.len() implies m.contains_key(#[trigger] d[i].patch_key()) by {
            assert(d[i] == ps[i]);
        }
        lemma_map_patched_all(m, d);
        let md = map_patched_all(m, d);
        assert(m.contains_key(ps[ps.len() - 1].patch_key()));
        assert forall|i: int| 0 <= i < d.len() implies #[trigger] d[i].patch_key() != last.patch_key() by {
            assert(d[i] == ps[i]);
            assert(ps[i].patch_key() != ps[ps.len() - 1].patch_key());
        }
        assert(md[last.patch_key()] == m[last.patch_key()]);
        assert(map_patched_all(m, ps).dom() =~= m.dom());
        assert forall|i: int| 0 <= i < ps.len() implies map_patched_all(m, ps)[
            #[trigger] ps[i].patch_key()] == ps[i].patch_onto(m[ps[i].patch_key()]) by {
            if i < ps.len() - 1 {
                assert(d[i] == ps[i]);
                assert(ps[i].patch_key() != ps[ps.len() - 1].patch_key());
            }
        }
        assert forall|k: u64|
            m.contains_key(k) && (forall|i: int| 0 <= i < ps.len() ==> #[trigger] ps[i].patch_key() != k)
            implies #[trigger] map_patched_all(m, ps)[k] == m[k] by {
            assert forall|i: int| 0 <= i < d.len() implies #[trigger] d[i].patch_key() != k by {
                assert(d[i] == ps[i]);
            }
            assert(ps[ps.len() - 1].patch_key() != k);
        }
    }
}

/// Holds of entities whose id does not occur in `s`.
pub open spec fn absent_from<E: Keyed>(s: Seq<E>) -> spec_fn(E) -> bool {
    |e: E| !key_map(s).contains_key(e.key())
}

pub open spec fn key_of<E: Keyed>() -> spec_fn(E) -> u64 {
    |e: E| e.key()
}

/// Every entity in the map sits under its own id.
pub proof fn lemma_key_map_key<E: Keyed>(s: Seq<E>, k: u64)
    requires
        key_map(s).contains_key(k),
    ensures
        key_map(s)[k].key() == k,
    decreases s.len(),
{
    if s.len() > 0 && s.last().key() != k {
        lemma_key_map_key(s.drop_last(), k);
    }
}

/// The ids of the entities of `s` that satisfy `pred`.
proof fn lemma_filtered_keys<E: Keyed>(s: Seq<E>, pred: spec_fn(E) -> bool, x: u64)
    requires
        distinct_keys(s),
    ensures
        s.filter(pred).map_values(key_of::<E>()).contains(x) <==> key_map(s).contains_key(x)
            && pred(key_map(s)[x]),
{
    let f = s.filter(pred);
    let ks = f.map_values(key_of::<E>());
    lemma_filter_key_map(s, pred);
    lemma_key_map_dom(f, x);
    if ks.contains(x) {
        let i = choose|i: int| 0 <= i < ks.len() && ks[i] == x;
        assert(f[i].key() == x);
    }
    if key_map(f).contains_key(x) {
        let i = choose|i: int| 0 <= i < f.len() && #[trigger] f[i].key() == x;
        assert(ks[i] == x);
    }
}

/// The entity map that patching `previous` with the changes towards `current`
/// produces, given which entities are sent whole (`created`) and which as
/// updates (`refreshed`).
pub open spec fn round_trip_map<E: Keyed, P: Patch<E>>(
    previous: Seq<E>,
    current: Seq<E>,
    created: spec_fn(E) -> bool,
    refreshed: spec_fn(E) -> bool,
    update_of: spec_fn(E) -> P,
) -> Map<u64, E> {
    Map::new(
        |k: u64| key_map(current).contains_key(k),
        |k: u64|
            if created(key_map(current)[k]) {
                key_map(current)[k]
            } else if refreshed(key_map(current)[k]) {
                update_of(key_map(current)[k]).patch_onto(key_map(previous)[k])
            } else {
                key_map(previous)[k]
            },
    )
}

/// Dropping the ids that vanished, upserting the entities sent whole and
/// patching the ones sent as updates turns `previous` into a sequence with
/// distinct ids whose map is [`round_trip_map`].
pub proof fn lemma_patch_round_trip<E: Keyed, P: Patch<E>>(
    previous: Seq<E>,
    current: Seq<E>,
    created: spec_fn(E) -> bool,
    refreshed: spec_fn(E) -> bool,
    update_of: spec_fn(E) -> P,
)
    requires
        distinct_keys(previous),
        distinct_keys(current),
        forall|e: E| #[trigger]
            refreshed(e) ==> key_map(previous).contains_key(e.key()) && !created(e),
        forall|e: E| !key_map(previous).contains_key(e.key()) ==> #[trigger] created(e),
        forall|e: E| #[trigger] update_of(e).patch_key() == e.key(),
    ensures
        ({
            let removed = previous.filter(absent_from(current)).map_values(key_of::<E>());
            let r = patched_all(
                upserted_all(without_keys(previous, removed), current.filter(created)),
                current.filter(refreshed).map_values(update_of),
            );
            &&& distinct_keys(r)
            &&& key_map(r) == round_trip_map(previous, current, created, refreshed, update_of)
        }),
{
    let pm = key_map(previous);
    let cm = key_map(current);
    let removed = previous.filter(absent_from(current)).map_values(key_of::<E>());
    let r1 = without_keys(previous, removed);
    // The survivors are the previous entities whose id is still current.
    lemma_filter_key_map(previous, not_listed::<E>(removed));
    assert forall|k: u64| #[trigger] key_map(r1).contains_key(k) <==> pm.contains_key(k)
        && cm.contains_key(k) by {
        lemma_filtered_keys(previous, absent_from(current), k);
        if pm.contains_key(k) {
            lemma_key_map_key(previous, k);
        }
    }
    let creates = current.filter(created);
    lemma_filter_key_map(current, created);
    lemma_upserted_all(r1, creates);
    let r2 = upserted_all(r1, creates);
    let f = current.filter(refreshed);
    lemma_filter_key_map(current, refreshed);
    let ups = f.map_values(update_of);
    assert forall|i: int| 0 <= i < f.len() implies #[trigger] ups[i].patch_key() == f[i].key()
        && cm.contains_key(f[i].key()) && cm[f[i].key()] == f[i] && refreshed(f[i]) by {
        lemma_key_map_value(f, i);
        lemma_key_map_key(current, f[i].key());
    }
    assert(distinct_patch_keys(ups)) by {
        assert forall|a: int, b: int|
            0 <= a < ups.len() && 0 <= b < ups.len() && a != b implies #[trigger] ups[a].patch_key()
            != #[trigger] ups[b].patch_key() by {
            assert(ups[a].patch_key() == f[a].key());
            assert(ups[b].patch_key() == f[b].key());
        }
    }
    assert forall|i: int| 0 <= i < ups.len() implies key_map(r2).contains_key(
        #[trigger] ups[i].patch_key(),
    ) by {
        assert(ups[i].patch_key() == f[i].key());
        lemma_key_map_key(current, f[i].key());
    }
    lemma_patched_all(r2, ups);
    lemma_map_patched_all(key_map(r2), ups);
    let r = patched_all(r2, ups);
    let goal = round_trip_map(previous, current, created, refreshed, update_of);
    assert forall|k: u64| #[trigger] key_map(r).contains_key(k) <==> goal.contains_key(k) by {
        if cm.contains_key(k) && !pm.contains_key(k) {
            lemma_key_map_key(current, k);
        }
    }
    assert forall|k: u64| #[trigger] key_map(r).contains_key(k) implies key_map(r)[k] == goal[k] by {
        lemma_key_map_key(current, k);
        let e = cm[k];
        if created(e) {
            assert forall|i: int| 0 <= i < ups.len() implies #[trigger] ups[i].patch_key() != k by {
                assert(ups[i].patch_key() == f[i].key());
            }
        } else if refreshed(e) {
            lemma_key_map_dom(f, k);
            let i = choose|i: int| 0 <= i < f.len() && #[trigger] f[i].key() == k;
            assert(ups[i].patch_key() == k);
        } else {
            assert forall|i: int| 0 <= i < ups.len() implies #[trigger] ups[i].patch_key() != k by {
                assert(ups[i].patch_key() == f[i].key());
            }
        }
    }
    assert(key_map(r) =~= goal);
}

/// `x` after the patches of `ps` addressed to id `k`, in order.
pub open spec fn patched_key<E: Keyed, P: Patch<E>>(x: E, k: u64, ps: Seq<P>) -> E
    decreases ps.len(),
{
    if ps.len() == 0 {
        x
    } else {
        let y = patched_key(x, k, ps.drop_last());
        if ps.last().patch_key() == k {
            ps.last().patch_onto(y)
        } else {
            y
        }
    }
}

/// The position of the last patch of `ps` addressed to id `k`, or -1.
pub open spec fn last_patch_index<E: Keyed, P: Patch<E>>(ps: Seq<P>, k: u64) -> int
    decreases ps.len(),
{
    if ps.len() == 0 {
        -1
    } else if ps.last().patch_key() == k {
        ps.len() - 1
    } else {
        last_patch_index::<E, P>(ps.drop_last(), k)
    }
}

/// Patching a map patches each entity by the patches addressed to it.
proof fn lemma_map_patched_pointwise<E: Keyed, P: Patch<E>>(m: Map<u64, E>, ps: Seq<P>)
    ensures
        map_patched_all(m, ps).dom() == m.dom(),
        forall|k: u64| #[trigger]
            m.contains_key(k) ==> map_patched_all(m, ps)[k] == patched_key(m[k], k, ps),
    decreases ps.len(),
{
    if ps.len() > 0 {
        lemma_map_patched_pointwise(m, ps.drop_last());
        let before = map_patched_all(m, ps.drop_last());
        assert(map_patched_all(m, ps).dom() =~= m.dom());
    }
}

/// Only the last patch addressed to an id counts: it overwrites the others.
proof fn lemma_patched_key_last<E: Keyed, P: Patch<E>>(x: E, k: u64, ps: Seq<P>)
    ensures
        -1 <= last_patch_index::<E, P>(ps, k) < ps.len(),
        last_patch_index::<E, P>(ps, k) >= 0 ==> ps[last_patch_index::<E, P>(ps, k)].patch_key() == k,
        patched_key(x, k, ps) == if last_patch_index::<E, P>(ps, k) >= 0 {
            ps[last_patch_index::<E, P>(ps, k)].patch_onto(x)
        } else {
            x
        },
    decreases ps.len(),
{
    if ps.len() > 0 {
        let d = ps.drop_last();
        lemma_patched_key_last(x, k, d);
        let j = last_patch_index::<E, P>(d, k);
        if ps.last().patch_key() == k {
            if j >= 0 {
                ps.last().lemma_patch_overwrites(d[j], x);
            }
        } else if j >= 0 {
            assert(ps[j] == d[j]);
        }
    }
}

/// Patching twice by the same patches is patching once.
proof fn lemma_patched_key_twice<E: Keyed, P: Patch<E>>(x: E, k: u64, ps: Seq<P>)
    ensures
        patched_key(patched_key(x, k, ps), k, ps) == patched_key(x, k, ps),
{
    lemma_patched_key_last(x, k, ps);
    lemma_patched_key_last(patched_key(x, k, ps), k, ps);
    let j = last_patch_index::<E, P>(ps, k);
    if j >= 0 {
        ps[j].lemma_patch_overwrites(ps[j], x);
    }
}

/// Patching never moves an entity or changes an id.
proof fn lemma_patched_all_keys<E: Keyed, P: Patch<E>>(s: Seq<E>, ps: Seq<P>)
    ensures
        patched_all(s, ps).map_values(key_of::<E>()) == s.map_values(key_of::<E>()),
    decreases ps.len(),
{
    if ps.len() > 0 {
        lemma_patched_all_keys(s, ps.drop_last());
        let t = patched_all(s, ps.drop_last());
        let p = ps.last();
        let k = first_key_index(t, p.patch_key());
        lemma_first_key_index(t, p.patch_key(), 0);
        if k >= 0 {
            p.lemma_patch_keeps_key(t[k]);
            assert(patched(t, p).map_values(key_of::<E>()) =~= t.map_values(key_of::<E>()));
        }
    }
}

/// Upserting entities whose ids are all present replaces them in place.
proof fn lemma_upserted_all_present<E: Keyed>(s: Seq<E>, es: Seq<E>)
    requires
        forall|i: int| 0 <= i < es.len() ==> has_key(s, #[trigger] es[i].key()),
    ensures
        upserted_all(s, es).map_values(key_of::<E>()) == s.map_values(key_of::<E>()),
    decreases es.len(),
{
    if es.len() > 0 {
        let d = es.drop_last();
        assert forall|i: int| 0 <= i < d.len() implies has_key(s, #[trigger] d[i].key()) by {
            assert(d[i] == es[i]);
        }
        lemma_upserted_all_present(s, d);
        let t = upserted_all(s, d);
        let e = es.last();
        assert(has_key(s, es[es.len() - 1].key()));
        let w = choose|w: int| 0 <= w < s.len() && #[trigger] s[w].key() == e.key();
        assert(t.map_values(key_of::<E>()).len() == t.len());
        assert(t.map_values(key_of::<E>())[w] == s.map_values(key_of::<E>())[w]);
        assert(t.map_values(key_of::<E>())[w] == key_of::<E>()(t[w]));
        assert(s.map_values(key_of::<E>())[w] == key_of::<E>()(s[w]));
        assert(t[w].key() == e.key());
        lemma_first_key_index(t, e.key(), 0);
        let k = first_key_index(t, e.key());
        assert(upserted(t, e).map_values(key_of::<E>()) =~= t.map_values(key_of::<E>()));
    }
}

/// Two sequences with distinct ids, the same ids in the same order and the
/// same map are the same.
pub proof fn lemma_same_by_keys<E: Keyed>(a: Seq<E>, b: Seq<E>)
    requires
        distinct_keys(a),
        distinct_keys(b),
        a.map_values(key_of::<E>()) == b.map_values(key_of::<E>()),
        key_map(a) == key_map(b),
    ensures
        a == b,
{
    assert(a.len() == a.map_values(key_of::<E>()).len());
    assert(b.len() == b.map_values(key_of::<E>()).len());
    assert forall|i: int| 0 <= i < a.len() implies a[i] == b[i] by {
        assert(a.map_values(key_of::<E>())[i] == b.map_values(key_of::<E>())[i]);
        assert(a.map_values(key_of::<E>())[i] == key_of::<E>()(a[i]));
        assert(b.map_values(key_of::<E>())[i] == key_of::<E>()(b[i]));
        lemma_key_map_value(a, i);
        lemma_key_map_value(b, i);
    }
    assert(a =~= b);
}

/// Dropping ids that no entity carries changes nothing.
pub proof fn lemma_without_unlisted<E: Keyed>(s: Seq<E>, removed: Seq<u64>)
    requires
        forall|i: int| 0 <= i < s.len() ==> !removed.contains(#[trigger] s[i].key()),
    ensures
        without_keys(s, removed) == s,
    decreases s.len(),
{
    reveal(Seq::filter);
    if s.len() > 0 {
        let d = s.drop_last();
        assert forall|i: int| 0 <= i < d.len() implies !removed.contains(#[trigger] d[i].key()) by {
            assert(d[i] == s[i]);
        }
        lemma_without_unlisted(d, removed);
        assert(!removed.contains(s[s.len() - 1].key()));
        assert(d.push(s.last()) =~= s);
    }
}

/// The entities after removing ids, upserting entities and patching.
pub open spec fn reworked<E: Keyed, P: Patch<E>>(
    base: Seq<E>,
    removed: Seq<u64>,
    creates: Seq<E>,
    patches: Seq<P>,
) -> Seq<E> {
    patched_all(upserted_all(without_keys(base, removed), creates), patches)
}

/// Removing ids, upserting entities and patching, done a second time with
/// the same ids, entities and patches, leaves every id with the same entity.
pub proof fn lemma_reapply_by_id<E: Keyed, P: Patch<E>>(
    base: Seq<E>,
    removed: Seq<u64>,
    creates: Seq<E>,
    patches: Seq<P>,
)
    requires
        distinct_keys(base),
    ensures
        ({
            let once = reworked(base, removed, creates, patches);
            let twice = reworked(once, removed, creates, patches);
            &&& distinct_keys(once)
            &&& distinct_keys(twice)
            &&& key_map(twice) == key_map(once)
        }),
{
    let kb = key_map(base);
    let a = without_keys(base, removed);
    lemma_filter_key_map(base, not_listed::<E>(removed));
    let ka = key_map(a);
    lemma_upserted_all(a, creates);
    let x = upserted_all(a, creates);
    let kx = key_map(x);
    let kc = key_map(creates);
    lemma_patched_all(x, patches);
    let once = patched_all(x, patches);
    let ko = key_map(once);
    lemma_map_patched_pointwise(kx, patches);
    let w = without_keys(once, removed);
    lemma_filter_key_map(once, not_listed::<E>(removed));
    lemma_upserted_all(w, creates);
    let y = upserted_all(w, creates);
    let ky = key_map(y);
    lemma_patched_all(y, patches);
    let twice = patched_all(y, patches);
    lemma_map_patched_pointwise(ky, patches);
    // No surviving entity of `base` carries a removed id.
    assert forall|k: u64| #[trigger] ka.contains_key(k) implies !removed.contains(k) by {
        lemma_key_map_key(base, k);
    }
    assert forall|k: u64| #[trigger] key_map(twice).contains_key(k) <==> ko.contains_key(k) by {
        if ko.contains_key(k) {
            lemma_key_map_key(once, k);
        }
    }
    assert forall|k: u64| #[trigger] key_map(twice).contains_key(k) implies key_map(twice)[k]
        == ko[k] by {
        if !kc.contains_key(k) {
            lemma_key_map_key(once, k);
            lemma_patched_key_twice(kx[k], k, patches);
        }
    }
    assert(key_map(twice) =~= ko);
}

/// No entity left after removing ids carries one of them.
proof fn lemma_survivor_keys<E: Keyed>(base: Seq<E>, removed: Seq<u64>)
    requires
        distinct_keys(base),
    ensures
        forall|k: u64| #[trigger]
            key_map(without_keys(base, removed)).contains_key(k) ==> !removed.contains(k),
{
    lemma_filter_key_map(base, not_listed::<E>(removed));
    assert forall|k: u64| #[trigger]
        key_map(without_keys(base, removed)).contains_key(k) implies !removed.contains(k) by {
        lemma_key_map_key(base, k);
    }
}

/// Upserting an entity whose id is absent appends it.
proof fn lemma_upserted_absent<E: Keyed>(s: Seq<E>, e: E)
    requires
        !has_key(s, e.key()),
    ensures
        upserted(s, e) == s.push(e),
{
    lemma_first_key_index(s, e.key(), 0);
}

/// Removing ids, upserting entities and patching, done a second time with
/// the same ids, entities and patches, changes nothing, when no upserted
/// entity with a removed id comes before another upserted entity.
pub proof fn lemma_reapply<E: Keyed, P: Patch<E>>(
    base: Seq<E>,
    removed: Seq<u64>,
    creates: Seq<E>,
    patches: Seq<P>,
)
    requires
        distinct_keys(base),
        forall|i: int, j: int|
            #![trigger creates[i], creates[j]]
            0 <= i < j < creates.len() ==> !removed.contains(creates[i].key()),
    ensures
        reworked(reworked(base, removed, creates, patches), removed, creates, patches) == reworked(
            base,
            removed,
            creates,
            patches,
        ),
{
    lemma_reapply_by_id(base, removed, creates, patches);
    let once = reworked(base, removed, creates, patches);
    let twice = reworked(once, removed, creates, patches);
    let a = without_keys(base, removed);
    lemma_filter_key_map(base, not_listed::<E>(removed));
    lemma_survivor_keys(base, removed);
    let n = creates.len();
    // The upserted entities before the last carry no removed id.
    let early = if n > 0 {
        creates.drop_last()
    } else {
        creates
    };
    assert forall|i: int| 0 <= i < early.len() implies !removed.contains(#[trigger] early[i].key()) by {
        assert(early[i] == creates[i]);
        assert(creates[i] == creates[i] && creates[n - 1] == creates[n - 1]);
    }
    lemma_upserted_all(a, early);
    let xe = upserted_all(a, early);
    // Ids of `xe` are not removed: they come from `a` or from `early`.
    assert forall|i: int| 0 <= i < xe.len() implies !removed.contains(#[trigger] xe[i].key()) by {
        lemma_key_map_value(xe, i);
        let k = xe[i].key();
        if key_map(early).contains_key(k) {
            lemma_key_map_dom(early, k);
            let j = choose|j: int| 0 <= j < early.len() && #[trigger] early[j].key() == k;
        }
    }
    let last_removed = n > 0 && removed.contains(creates[n - 1].key());
    lemma_upserted_all(a, creates);
    lemma_patched_all(upserted_all(a, creates), patches);
    lemma_map_patched_pointwise(key_map(upserted_all(a, creates)), patches);
    if !last_removed {
        // No upserted entity carries a removed id.
        assert forall|i: int| 0 <= i < creates.len() implies !removed.contains(
            #[trigger] creates[i].key(),
        ) by {
            if i < n - 1 {
                assert(early[i] == creates[i]);
            } else {
                assert(creates[i] == creates[n - 1]);
            }
        }
        assert forall|i: int| 0 <= i < once.len() implies !removed.contains(#[trigger] once[i].key()) by {
            lemma_key_map_value(once, i);
            let k = once[i].key();
            lemma_upserted_all(a, creates);
            lemma_patched_all(upserted_all(a, creates), patches);
            lemma_map_patched_pointwise(key_map(upserted_all(a, creates)), patches);
            if key_map(creates).contains_key(k) {
                lemma_key_map_dom(creates, k);
                let j = choose|j: int| 0 <= j < creates.len() && #[trigger] creates[j].key() == k;
            }
        }
        lemma_without_unlisted(once, removed);
        assert forall|i: int| 0 <= i < creates.len() implies has_key(once, #[trigger] creates[i].key()) by {
            lemma_key_map_dom(creates, creates[i].key());
            lemma_key_map_dom(once, creates[i].key());
        }
        lemma_upserted_all_present(once, creates);
        lemma_patched_all_keys(upserted_all(once, creates), patches);
        lemma_same_by_keys(twice, once);
    } else {
        // Only the last upserted entity carries a removed id: it is appended
        // last both times.
        let c = creates[n - 1];
        assert(creates == early.push(c));
        assert(!has_key(xe, c.key()));
        lemma_upserted_absent(xe, c);
        assert(upserted_all(a, creates) == xe.push(c));
        lemma_patched_all_keys(xe.push(c), patches);
        let ok = once.map_values(key_of::<E>());
        assert(ok == xe.push(c).map_values(key_of::<E>()));
        assert(ok.len() == once.len());
        assert(xe.push(c).map_values(key_of::<E>()).len() == xe.len() + 1);
        let d = once.drop_last();
        // Removing again drops exactly the last entity.
        assert forall|i: int| 0 <= i < d.len() implies !removed.contains(#[trigger] d[i].key()) by {
            assert(ok[i] == key_of::<E>()(once[i]));
            assert(ok[i] == key_of::<E>()(xe[i]));
            assert(d[i] == once[i]);
        }
        lemma_without_unlisted(d, removed);
        assert(ok[n_last(once)] == key_of::<E>()(once[n_last(once)]));
        assert(ok[n_last(once)] == c.key());
        reveal(Seq::filter);
        assert(d.push(once.last()) =~= once);
        assert(without_keys(once, removed) == d);
        // Upserting the earlier entities keeps the order; the last is appended.
        assert forall|i: int| 0 <= i < d.len() implies d.map_values(key_of::<E>())[i]
            == xe.map_values(key_of::<E>())[i] by {
            assert(ok[i] == key_of::<E>()(once[i]));
            assert(xe.push(c).map_values(key_of::<E>())[i] == key_of::<E>()(xe.push(c)[i]));
            assert(xe.push(c)[i] == xe[i]);
            assert(d[i] == once[i]);
        }
        assert(d.map_values(key_of::<E>()) =~= xe.map_values(key_of::<E>()));
        assert forall|i: int| 0 <= i < early.len() implies has_key(d, #[trigger] early[i].key()) by {
            lemma_key_map_dom(early, early[i].key());
            lemma_key_map_dom(xe, early[i].key());
            let v = choose|v: int| 0 <= v < xe.len() && #[trigger] xe[v].key() == early[i].key();
            assert(d.map_values(key_of::<E>())[v] == key_of::<E>()(d[v]));
            assert(xe.map_values(key_of::<E>())[v] == key_of::<E>()(xe[v]));
        }
        lemma_upserted_all_present(d, early);
        let yd = upserted_all(d, early);
        assert(yd.map_values(key_of::<E>()).len() == yd.len());
        assert(!has_key(yd, c.key())) by {
            if has_key(yd, c.key()) {
                let v = choose|v: int| 0 <= v < yd.len() && #[trigger] yd[v].key() == c.key();
                assert(yd.map_values(key_of::<E>())[v] == key_of::<E>()(yd[v]));
                assert(d.map_values(key_of::<E>())[v] == key_of::<E>()(d[v]));
            }
        }
        lemma_upserted_absent(yd, c);
        assert(upserted_all(d, creates) == yd.push(c));
        lemma_patched_all_keys(yd.push(c), patches);
        assert(yd.push(c).map_values(key_of::<E>()) =~= yd.map_values(key_of::<E>()).push(c.key()));
        assert(xe.push(c).map_values(key_of::<E>()) =~= xe.map_values(key_of::<E>()).push(c.key()));
        lemma_same_by_keys(twice, once);
    }
}

/// The ids of `s`, in order.
pub open spec fn ids_of<E: Keyed>(s: Seq<E>) -> Seq<u64> {
    s.map_values(key_of::<E>())
}

/// The ids that upserting `es` appends after the ids `known`: each id that
/// is not known, at its first occurrence in `es`.
pub open spec fn fresh_ids<E: Keyed>(known: Seq<u64>, es: Seq<E>) -> Seq<u64>
    decreases es.len(),
{
    if es.len() == 0 {
        Seq::empty()
    } else {
        let f = fresh_ids(known, es.drop_last());
        let k = es.last().key();
        if known.contains(k) || f.contains(k) {
            f
        } else {
            f.push(k)
        }
    }
}

/// Holds of the ids not listed in `ids`.
pub open spec fn unlisted_in(ids: Seq<u64>) -> spec_fn(u64) -> bool {
    |k: u64| !ids.contains(k)
}

/// Holds of the ids listed in `ids`.
pub open spec fn listed_in(ids: Seq<u64>) -> spec_fn(u64) -> bool {
    |k: u64| ids.contains(k)
}

proof fn lemma_has_key_ids<E: Keyed>(s: Seq<E>, k: u64)
    ensures
        has_key(s, k) <==> ids_of(s).contains(k),
{
    if has_key(s, k) {
        let i = choose|i: int| 0 <= i < s.len() && #[trigger] s[i].key() == k;
        assert(ids_of(s)[i] == k);
    }
    if ids_of(s).contains(k) {
        let i = choose|i: int| 0 <= i < ids_of(s).len() && ids_of(s)[i] == k;
        assert(s[i].key() == k);
    }
}

proof fn lemma_upserted_ids<E: Keyed>(s: Seq<E>, e: E)
    ensures
        ids_of(upserted(s, e)) == if has_key(s, e.key()) {
            ids_of(s)
        } else {
            ids_of(s).push(e.key())
        },
{
    lemma_first_key_index(s, e.key(), 0);
    let k = first_key_index(s, e.key());
    if k >= 0 {
        assert(ids_of(s.update(k, e)) =~= ids_of(s));
    } else {
        assert(ids_of(s.push(e)) =~= ids_of(s).push(e.key()));
    }
}

/// Upserting appends, in order, the ids that were not there.
pub proof fn lemma_upserted_all_ids<E: Keyed>(s: Seq<E>, es: Seq<E>)
    ensures
        ids_of(upserted_all(s, es)) == ids_of(s) + fresh_ids(ids_of(s), es),
    decreases es.len(),
{
    if es.len() == 0 {
        assert(ids_of(s) + Seq::<u64>::empty() =~= ids_of(s));
    } else {
        let d = es.drop_last();
        let e = es.last();
        lemma_upserted_all_ids(s, d);
        let t = upserted_all(s, d);
        lemma_upserted_ids(t, e);
        lemma_has_key_ids(t, e.key());
        let f = fresh_ids(ids_of(s), d);
        vstd::seq_lib::lemma_seq_concat_contains_all_elements(ids_of(s), f, e.key());
        assert((ids_of(s) + f).push(e.key()) =~= ids_of(s) + f.push(e.key()));
    }
}

/// The ids of `s` without the removed ones are the kept ids of `s`.
proof fn lemma_without_keys_ids<E: Keyed>(s: Seq<E>, removed: Seq<u64>)
    ensures
        ids_of(without_keys(s, removed)) == ids_of(s).filter(unlisted_in(removed)),
    decreases s.len(),
{
    if s.len() > 0 {
        let d = s.drop_last();
        let x = s.last();
        lemma_without_keys_ids(d, removed);
        assert(d.push(x) =~= s);
        d.lemma_filter_push(x, not_listed::<E>(removed));
        ids_of(d).lemma_filter_push(x.key(), unlisted_in(removed));
        assert(ids_of(d.push(x)) =~= ids_of(d).push(x.key()));
        assert(ids_of(d.filter(not_listed::<E>(removed)).push(x)) =~= ids_of(
            d.filter(not_listed::<E>(removed)),
        ).push(x.key()));
    } else {
        assert(s.filter(not_listed::<E>(removed)) =~= Seq::<E>::empty()) by {
            reveal(Seq::filter);
        }
        assert(ids_of(s).filter(unlisted_in(removed)) =~= Seq::<u64>::empty()) by {
            reveal(Seq::filter);
        }
    }
}

proof fn lemma_filter_contains_iff<T>(s: Seq<T>, p: spec_fn(T) -> bool, x: T)
    ensures
        s.filter(p).contains(x) <==> s.contains(x) && p(x),
{
    if s.filter(p).contains(x) {
        s.lemma_filter_contains_rev(p, x);
        let i = choose|i: int| 0 <= i < s.filter(p).len() && s.filter(p)[i] == x;
        s.lemma_filter_pred(p, i);
    }
    if s.contains(x) && p(x) {
        let i = choose|i: int| 0 <= i < s.len() && s[i] == x;
        s.lemma_filter_contains(p, i);
    }
}

/// Fresh ids after more known ids are the fresh ids not among them.
proof fn lemma_fresh_ids_more_known<E: Keyed>(known: Seq<u64>, more: Seq<u64>, es: Seq<E>)
    ensures
        fresh_ids(known + more, es) == fresh_ids(known, es).filter(unlisted_in(more)),
    decreases es.len(),
{
    if es.len() == 0 {
        assert(Seq::<u64>::empty().filter(unlisted_in(more)) =~= Seq::<u64>::empty()) by {
            reveal(Seq::filter);
        }
    } else {
        let d = es.drop_last();
        let k = es.last().key();
        lemma_fresh_ids_more_known(known, more, d);
        let f = fresh_ids(known, d);
        vstd::seq_lib::lemma_seq_concat_contains_all_elements(known, more, k);
        lemma_filter_contains_iff(f, unlisted_in(more), k);
        f.lemma_filter_push(k, unlisted_in(more));
    }
}

/// All elements satisfy `p`: filtering keeps all.
proof fn lemma_filter_keeps_all<T>(s: Seq<T>, p: spec_fn(T) -> bool)
    requires
        forall|i: int| 0 <= i < s.len() ==> p(#[trigger] s[i]),
    ensures
        s.filter(p) == s,
    decreases s.len(),
{
    reveal(Seq::filter);
    if s.len() > 0 {
        let d = s.drop_last();
        assert forall|i: int| 0 <= i < d.len() implies p(#[trigger] d[i]) by {
            assert(d[i] == s[i]);
        }
        lemma_filter_keeps_all(d, p);
        assert(p(s[s.len() - 1]));
        assert(d.push(s.last()) =~= s);
    }
}

/// No element satisfies `p`: filtering keeps none.
proof fn lemma_filter_keeps_none<T>(s: Seq<T>, p: spec_fn(T) -> bool)
    requires
        forall|i: int| 0 <= i < s.len() ==> !p(#[trigger] s[i]),
    ensures
        s.filter(p) == Seq::<T>::empty(),
    decreases s.len(),
{
    reveal(Seq::filter);
    if s.len() > 0 {
        let d = s.drop_last();
        assert forall|i: int| 0 <= i < d.len() implies !p(#[trigger] d[i]) by {
            assert(d[i] == s[i]);
        }
        lemma_filter_keeps_none(d, p);
        assert(!p(s[s.len() - 1]));
    } else {
        assert(s.filter(p) =~= Seq::<T>::empty());
    }
}

/// Every element satisfying `p` comes after every element that does not.
pub open spec fn selected_last<T>(f: Seq<T>, p: spec_fn(T) -> bool) -> bool {
    forall|i: int, j: int| #![trigger f[i], f[j]] 0 <= i < j < f.len() && p(f[i]) ==> p(f[j])
}

/// Every listed id comes after every unlisted one.
pub open spec fn listed_last(f: Seq<u64>, ids: Seq<u64>) -> bool {
    selected_last(f, listed_in(ids))
}

/// The elements of `f` that satisfy `p`, in order: a filter kept apart from
/// the rewriting that vstd applies to filters of concatenations, so that a
/// sequence can be equated with a regrouping of its own elements.
#[verifier::opaque]
pub open spec fn picked<T>(f: Seq<T>, p: spec_fn(T) -> bool) -> Seq<T> {
    f.filter(p)
}

proof fn lemma_picked_is_filter<T>(f: Seq<T>, p: spec_fn(T) -> bool)
    ensures
        picked(f, p) == f.filter(p),
{
    reveal(picked);
}

proof fn lemma_picked_empty<T>(p: spec_fn(T) -> bool)
    ensures
        picked(Seq::<T>::empty(), p) == Seq::<T>::empty(),
{
    reveal(picked);
    assert(Seq::<T>::empty().filter(p) =~= Seq::<T>::empty()) by {
        reveal(Seq::filter);
    }
}

proof fn lemma_picked_push<T>(d: Seq<T>, x: T, p: spec_fn(T) -> bool)
    ensures
        picked(d.push(x), p) == if p(x) {
            picked(d, p).push(x)
        } else {
            picked(d, p)
        },
{
    reveal(picked);
    d.lemma_filter_push(x, p);
}

proof fn lemma_picked_pred<T>(f: Seq<T>, p: spec_fn(T) -> bool, k: int)
    requires
        0 <= k < picked(f, p).len(),
    ensures
        p(picked(f, p)[k]),
{
    reveal(picked);
    f.lemma_filter_pred(p, k);
}

proof fn lemma_picked_all<T>(f: Seq<T>, p: spec_fn(T) -> bool)
    requires
        forall|i: int| 0 <= i < f.len() ==> p(#[trigger] f[i]),
    ensures
        picked(f, p) == f,
{
    reveal(picked);
    lemma_filter_keeps_all(f, p);
}

proof fn lemma_picked_none<T>(f: Seq<T>, p: spec_fn(T) -> bool)
    requires
        forall|i: int| 0 <= i < f.len() ==> !p(#[trigger] f[i]),
    ensures
        picked(f, p) == Seq::<T>::empty(),
{
    reveal(picked);
    lemma_filter_keeps_none(f, p);
}

/// When every element satisfying `p` comes after every element that does
/// not, a sequence is its elements failing `p` followed by those satisfying it.
proof fn lemma_selected_last_splits<T>(f: Seq<T>, p: spec_fn(T) -> bool, q: spec_fn(T) -> bool)
    requires
        selected_last(f, p),
        forall|x: T| #[trigger] q(x) == !p(x),
    ensures
        f == picked(f, q) + picked(f, p),
    decreases f.len(),
{
    if f.len() == 0 {
        lemma_picked_empty(q);
        lemma_picked_empty(p);
        assert(f =~= Seq::<T>::empty());
        assert(picked(f, q) + picked(f, p) =~= f);
    } else {
        let d = f.drop_last();
        let x = f.last();
        assert(selected_last(d, p)) by {
            assert forall|i: int, j: int|
                #![trigger d[i], d[j]]
                0 <= i < j < d.len() && p(d[i]) implies p(d[j]) by {
                assert(d[i] == f[i] && d[j] == f[j]);
            }
        }
        lemma_selected_last_splits(d, p, q);
        assert(d.push(x) =~= f);
        lemma_picked_push(d, x, q);
        lemma_picked_push(d, x, p);
        if p(x) {
            assert(picked(f, q) + picked(f, p) =~= (picked(d, q) + picked(d, p)).push(x));
        } else {
            assert forall|i: int| 0 <= i < d.len() implies !p(#[trigger] d[i]) by {
                assert(d[i] == f[i] && f[f.len() - 1] == x);
            }
            lemma_picked_none(d, p);
            assert forall|i: int| 0 <= i < d.len() implies q(#[trigger] d[i]) by {
                assert(!p(d[i]));
            }
            lemma_picked_all(d, q);
            assert(picked(f, q) + picked(f, p) =~= d.push(x));
        }
    }
}

/// A sequence that is its elements failing `p` followed by those satisfying
/// it has every element satisfying `p` after every one that does not.
proof fn lemma_split_is_selected_last<T>(f: Seq<T>, p: spec_fn(T) -> bool, q: spec_fn(T) -> bool)
    requires
        f == picked(f, q) + picked(f, p),
        forall|x: T| #[trigger] q(x) == !p(x),
    ensures
        selected_last(f, p),
{
    let g = picked(f, q);
    let h = picked(f, p);
    let nq = g.len();
    assert forall|i: int, j: int|
        #![trigger f[i], f[j]]
        0 <= i < j < f.len() && p(f[i]) implies p(f[j]) by {
        if i < nq {
            assert(f[i] == g[i]);
            lemma_picked_pred(f, q, i);
        }
        assert(f[j] == h[j - nq]);
        lemma_picked_pred(f, p, j - nq);
    }
}

/// The ids that the upserted entities append after the survivors of the
/// removal.
pub open spec fn appended_ids<E: Keyed>(base: Seq<E>, removed: Seq<u64>, creates: Seq<E>) -> Seq<
    u64,
> {
    fresh_ids(ids_of(without_keys(base, removed)), creates)
}

proof fn lemma_reworked_ids<E: Keyed, P: Patch<E>>(
    base: Seq<E>,
    removed: Seq<u64>,
    creates: Seq<E>,
    patches: Seq<P>,
)
    ensures
        ids_of(reworked(base, removed, creates, patches)) == ids_of(without_keys(base, removed))
            + appended_ids(base, removed, creates),
{
    let a = without_keys(base, removed);
    lemma_upserted_all_ids(a, creates);
    lemma_patched_all_keys(upserted_all(a, creates), patches);
}

proof fn lemma_reapplied_ids<E: Keyed, P: Patch<E>>(
    base: Seq<E>,
    removed: Seq<u64>,
    creates: Seq<E>,
    patches: Seq<P>,
)
    ensures
        ({
            let a = without_keys(base, removed);
            let f = appended_ids(base, removed, creates);
            let once = reworked(base, removed, creates, patches);
            ids_of(reworked(once, removed, creates, patches)) == ids_of(a) + (picked(
                f,
                unlisted_in(removed),
            ) + picked(f, listed_in(removed)))
        }),
{
    let once = reworked(base, removed, creates, patches);
    let a = without_keys(base, removed);
    let f = appended_ids(base, removed, creates);
    let u = unlisted_in(removed);
    let l = listed_in(removed);
    lemma_reworked_ids(base, removed, creates, patches);
    // The survivors carry no removed id.
    lemma_without_keys_ids(base, removed);
    assert forall|i: int| 0 <= i < ids_of(a).len() implies u(#[trigger] ids_of(a)[i]) by {
        ids_of(base).lemma_filter_pred(u, i);
    }
    lemma_filter_keeps_all(ids_of(a), u);
    // Removing again keeps the survivors and the appended ids not removed.
    let w = without_keys(once, removed);
    lemma_without_keys_ids(once, removed);
    Seq::filter_distributes_over_add(ids_of(a), f, u);
    assert(ids_of(w) == ids_of(a) + f.filter(u));
    // Upserting again appends the appended ids that were removed.
    lemma_upserted_all_ids(w, creates);
    lemma_patched_all_keys(upserted_all(w, creates), patches);
    lemma_fresh_ids_more_known(ids_of(a), f.filter(u), creates);
    assert forall|i: int| 0 <= i < f.len() implies unlisted_in(f.filter(u))(#[trigger] f[i])
        == l(f[i]) by {
        lemma_filter_contains_iff(f, u, f[i]);
    }
    lemma_filter_agree(f, unlisted_in(f.filter(u)), l);
    lemma_picked_is_filter(f, u);
    lemma_picked_is_filter(f, l);
    assert(ids_of(a) + f.filter(u) + f.filter(l) =~= ids_of(a) + (f.filter(u) + f.filter(l)));
}

/// Removing ids, upserting entities and patching, done a second time with
/// the same ids, entities and patches, changes nothing exactly when every
/// appended id that is also removed is appended after every appended id
/// that is not.
pub proof fn lemma_reapply_exactly<E: Keyed, P: Patch<E>>(
    base: Seq<E>,
    removed: Seq<u64>,
    creates: Seq<E>,
    patches: Seq<P>,
)
    requires
        distinct_keys(base),
    ensures
        reworked(reworked(base, removed, creates, patches), removed, creates, patches) == reworked(
            base,
            removed,
            creates,
            patches,
        ) <==> listed_last(appended_ids(base, removed, creates), removed),
{
    lemma_reapply_by_id(base, removed, creates, patches);
    let once = reworked(base, removed, creates, patches);
    let twice = reworked(once, removed, creates, patches);
    let a = without_keys(base, removed);
    let f = appended_ids(base, removed, creates);
    let split = picked(f, unlisted_in(removed)) + picked(f, listed_in(removed));
    lemma_reworked_ids(base, removed, creates, patches);
    lemma_reapplied_ids(base, removed, creates, patches);
    if twice == once {
        assert((ids_of(a) + split).skip(ids_of(a).len() as int) =~= split);
        assert((ids_of(a) + f).skip(ids_of(a).len() as int) =~= f);
        lemma_split_is_selected_last(f, listed_in(removed), unlisted_in(removed));
    }
    if listed_last(f, removed) {
        lemma_selected_last_splits(f, listed_in(removed), unlisted_in(removed));
        assert(ids_of(twice) == ids_of(once));
        lemma_same_by_keys(twice, once);
    }
}

spec fn n_last<E>(s: Seq<E>) -> int {
    s.len() - 1
}

/// Holds of entities whose id `s` carries.
pub open spec fn present_in<E: Keyed>(s: Seq<E>) -> spec_fn(E) -> bool {
    |e: E| key_map(s).contains_key(e.key())
}

/// Filters that agree on every entity of `s` keep the same entities.
proof fn lemma_filter_agree<E>(s: Seq<E>, p: spec_fn(E) -> bool, q: spec_fn(E) -> bool)
    requires
        forall|i: int| 0 <= i < s.len() ==> p(#[trigger] s[i]) == q(s[i]),
    ensures
        s.filter(p) == s.filter(q),
    decreases s.len(),
{
    reveal(Seq::filter);
    if s.len() > 0 {
        let d = s.drop_last();
        assert forall|i: int| 0 <= i < d.len() implies p(#[trigger] d[i]) == q(d[i]) by {
            assert(d[i] == s[i]);
        }
        lemma_filter_agree(d, p, q);
        assert(p(s[s.len() - 1]) == q(s[s.len() - 1]));
    }
}

/// Two filters that together keep exactly the entities from position `n`
/// on keep the suffix from `n`.
proof fn lemma_double_filter_suffix<E>(s: Seq<E>, p: spec_fn(E) -> bool, q: spec_fn(E) -> bool, n: int)
    requires
        0 <= n,
        forall|i: int| 0 <= i < s.len() ==> (p(#[trigger] s[i]) && q(s[i])) == (i >= n),
    ensures
        s.filter(p).filter(q) == if n <= s.len() {
            s.skip(n)
        } else {
            Seq::<E>::empty()
        },
    decreases s.len(),
{
    reveal(Seq::filter);
    if s.len() == 0 {
        assert(s.filter(p) =~= Seq::<E>::empty());
        assert(s.filter(p).filter(q) =~= Seq::<E>::empty());
        if n <= s.len() {
            assert(s.skip(n) =~= Seq::<E>::empty());
        }
    } else {
        let d = s.drop_last();
        let x = s.last();
        assert forall|i: int| 0 <= i < d.len() implies (p(#[trigger] d[i]) && q(d[i])) == (i >= n) by {
            assert(d[i] == s[i]);
        }
        lemma_double_filter_suffix(d, p, q, n);
        let dp = d.filter(p);
        assert((p(s[s.len() - 1]) && q(s[s.len() - 1])) == (s.len() - 1 >= n));
        if p(x) {
            assert(s.filter(p) == dp.push(x));
            assert(dp.push(x).drop_last() =~= dp);
        } else {
            assert(s.filter(p) == dp);
        }
        if n <= s.len() - 1 {
            assert(d.skip(n).push(x) =~= s.skip(n));
        } else if n == s.len() {
            assert(s.skip(n) =~= Seq::<E>::empty());
        }
    }
}

/// Upserting entities with distinct ids appends, in order, those whose id
/// is new, and leaves the order of the others.
proof fn lemma_upserted_all_order<E: Keyed>(s: Seq<E>, es: Seq<E>)
    requires
        distinct_keys(es),
    ensures
        upserted_all(s, es).map_values(key_of::<E>()) == s.map_values(key_of::<E>()) + es.filter(
            |e: E| !has_key(s, e.key()),
        ).map_values(key_of::<E>()),
    decreases es.len(),
{
    reveal(Seq::filter);
    let fresh = |e: E| !has_key(s, e.key());
    if es.len() == 0 {
        assert(es.filter(fresh) =~= Seq::<E>::empty());
        assert(s.map_values(key_of::<E>()) + es.filter(fresh).map_values(key_of::<E>())
            =~= s.map_values(key_of::<E>()));
    } else {
        let d = es.drop_last();
        let e = es.last();
        assert(distinct_keys(d)) by {
            assert forall|a: int, b: int|
                0 <= a < d.len() && 0 <= b < d.len() && a != b implies #[trigger] d[a].key()
                != #[trigger] d[b].key() by {
                assert(d[a] == es[a] && d[b] == es[b]);
            }
        }
        lemma_upserted_all_order(s, d);
        let t = upserted_all(s, d);
        let tk = t.map_values(key_of::<E>());
        let dk = d.filter(fresh).map_values(key_of::<E>());
        assert(tk == s.map_values(key_of::<E>()) + dk);
        assert(tk.len() == t.len());
        // `e`'s id is in `t` exactly when it is in `s`.
        assert(has_key(t, e.key()) <==> has_key(s, e.key())) by {
            if has_key(s, e.key()) {
                let w = choose|w: int| 0 <= w < s.len() && #[trigger] s[w].key() == e.key();
                assert(tk[w] == s.map_values(key_of::<E>())[w]);
                assert(tk[w] == key_of::<E>()(t[w]));
                assert(t[w].key() == e.key());
            }
            if has_key(t, e.key()) {
                let w = choose|w: int| 0 <= w < t.len() && #[trigger] t[w].key() == e.key();
                assert(tk[w] == key_of::<E>()(t[w]));
                if w < s.len() {
                    assert(tk[w] == s.map_values(key_of::<E>())[w]);
                    assert(s.map_values(key_of::<E>())[w] == key_of::<E>()(s[w]));
                } else {
                    let v = w - s.len();
                    assert(tk[w] == dk[v]);
                    let f = d.filter(fresh);
                    assert(dk[v] == key_of::<E>()(f[v]));
                    d.lemma_filter_contains_rev(fresh, f[v]);
                    let u = choose|u: int| 0 <= u < d.len() && d[u] == f[v];
                    assert(d[u] == es[u]);
                    assert(es[u].key() != es[es.len() - 1].key());
                }
            }
        }
        lemma_first_key_index(t, e.key(), 0);
        let k = first_key_index(t, e.key());
        if has_key(s, e.key()) {
            assert(upserted(t, e).map_values(key_of::<E>()) =~= tk);
            assert(es.filter(fresh) == d.filter(fresh));
        } else {
            assert(upserted(t, e) == t.push(e));
            assert(es.filter(fresh) == d.filter(fresh).push(e));
            assert(t.push(e).map_values(key_of::<E>()) =~= tk.push(e.key()));
            assert(d.filter(fresh).push(e).map_values(key_of::<E>()) =~= dk.push(e.key()));
            assert(s.map_values(key_of::<E>()) + dk.push(e.key()) =~= (s.map_values(
                key_of::<E>(),
            ) + dk).push(e.key()));
        }
    }
}

/// When the ids `current` keeps from `previous` come first, in the order
/// `previous` has them, and the new ids after them, patching `previous` with
/// the changes towards `current` yields `current`'s ids in `current`'s
/// order.
pub proof fn lemma_patch_round_trip_order<E: Keyed, P: Patch<E>>(
    previous: Seq<E>,
    current: Seq<E>,
    created: spec_fn(E) -> bool,
    refreshed: spec_fn(E) -> bool,
    update_of: spec_fn(E) -> P,
    n: int,
)
    requires
        distinct_keys(previous),
        distinct_keys(current),
        forall|e: E| !key_map(previous).contains_key(e.key()) ==> #[trigger] created(e),
        0 <= n <= current.len(),
        current.take(n).map_values(key_of::<E>()) == previous.filter(present_in(current)).map_values(
            key_of::<E>(),
        ),
        forall|i: int| n <= i < current.len() ==> !key_map(previous).contains_key(#[trigger] current[i].key()),
    ensures
        ({
            let removed = previous.filter(absent_from(current)).map_values(key_of::<E>());
            let r = patched_all(
                upserted_all(without_keys(previous, removed), current.filter(created)),
                current.filter(refreshed).map_values(update_of),
            );
            r.map_values(key_of::<E>()) == current.map_values(key_of::<E>())
        }),
{
    let removed = previous.filter(absent_from(current)).map_values(key_of::<E>());
    let w = without_keys(previous, removed);
    // The survivors are the previous entities whose id is still current.
    assert forall|i: int| 0 <= i < previous.len() implies not_listed::<E>(removed)(
        #[trigger] previous[i],
    ) == present_in(current)(previous[i]) by {
        let e = previous[i];
        if removed.contains(e.key()) {
            let j = choose|j: int| 0 <= j < removed.len() && removed[j] == e.key();
            previous.lemma_filter_pred(absent_from(current), j);
            let g = previous.filter(absent_from(current));
            assert(removed[j] == key_of::<E>()(g[j]));
        }
        if !key_map(current).contains_key(e.key()) {
            previous.lemma_filter_contains(absent_from(current), i);
            let g = previous.filter(absent_from(current));
            let j = choose|j: int| 0 <= j < g.len() && g[j] == e;
            assert(removed[j] == key_of::<E>()(g[j]));
        }
    }
    lemma_filter_agree(previous, not_listed::<E>(removed), present_in(current));
    lemma_filter_key_map(previous, present_in(current));
    let cs = current.filter(created);
    lemma_filter_key_map(current, created);
    lemma_upserted_all_order(w, cs);
    let fresh = |e: E| !has_key(w, e.key());
    // Among current's entities, exactly those from position `n` on are new.
    assert forall|i: int| 0 <= i < current.len() implies (created(#[trigger] current[i]) && fresh(
        current[i],
    )) == (i >= n) by {
        let e = current[i];
        lemma_key_map_dom(w, e.key());
        lemma_key_map_distinct(current);
        if i >= n {
            assert(created(e));
            if has_key(w, e.key()) {
                let v = choose|v: int| 0 <= v < w.len() && #[trigger] w[v].key() == e.key();
                previous.lemma_filter_contains_rev(present_in(current), w[v]);
                let u = choose|u: int| 0 <= u < previous.len() && previous[u] == w[v];
                lemma_key_map_dom(previous, e.key());
            }
        } else {
            let wk = w.map_values(key_of::<E>());
            assert(current.take(n).map_values(key_of::<E>())[i] == key_of::<E>()(current[i]));
            assert(wk[i] == key_of::<E>()(w[i]));
            assert(w[i].key() == e.key());
        }
    }
    lemma_double_filter_suffix(current, created, fresh, n);
    let up = upserted_all(w, cs);
    lemma_patched_all_keys(up, current.filter(refreshed).map_values(update_of));
    assert(current.take(n).map_values(key_of::<E>()) + current.skip(n).map_values(key_of::<E>())
        =~= current.map_values(key_of::<E>()));
}

} // verus!
