//! What holds across calls: round trips, idempotence, removal, iteration.
use crate::header::{
    bucket_start, header_of, header_ok, key_at, key_location, lemma_bucket_in_bounds,
    lemma_positions_distinct, splice, status_at, value_location, with_u16, is_map, MapHeader,
    ELEMENT_COUNT_AT, STATUS_EMPTY, STATUS_OCCUPIED, STATUS_TOMBSTONE,
};
use crate::map::{
    claimed, first_index, lemma_cap_pos, lemma_claimed_header, lemma_reserve_in_range,
    lemma_value_write, lookup_from, lookup_result, lookup_slot, next_index, probe_limit,
    reserve_from, reserve_index, reserve_result, reserve_slot, reserved_buffer, Reserve,
    lemma_claim_keeps_map, merge_from, fx_hash_of, source_hashes,
    lemma_count_written, lemma_reserved_location, next_occupied, lemma_status_change, removed, removed_buffer,
};
use crate::header::{lemma_count_bounds, occupied_count, u16_at, value_at};
use vstd::prelude::*;

verus! {

/// Claiming bucket `j` leaves the status and key of every other bucket.
proof fn lemma_claimed_frame(s: Seq<u8>, h: MapHeader, j: int, key: Seq<u8>)
    requires
        is_map(s),
        h == header_of(s),
        0 <= j < h.capacity,
        key.len() == h.key_size,
    ensures
        ({
            let t = claimed(s, h, j, key);
            &&& t.len() == s.len()
            &&& header_of(t).bucket_size == h.bucket_size
            &&& header_of(t).capacity == h.capacity
            &&& header_of(t).key_size == h.key_size
            &&& header_of(t).key_offset == h.key_offset
            &&& header_of(t).value_offset == h.value_offset
            &&& status_at(t, h, j) == STATUS_OCCUPIED
            &&& key_at(t, h, j) == key
            &&& forall|i: int|
                0 <= i < h.capacity && i != j ==> #[trigger] status_at(t, h, i) == status_at(s, h, i)
                    && key_at(t, h, i) == key_at(s, h, i)
            &&& forall|i: int|
                0 <= i < h.capacity && i != j ==> #[trigger] value_at(t, h, i) == value_at(s, h, i)
        }),
{
    let t = claimed(s, h, j, key);
    let bs = h.bucket_size as int;
    lemma_bucket_in_bounds(h, j);
    lemma_claimed_header(s, h, j, key);
    let lo = key_location(h, j);
    assert(key_at(t, h, j) =~= key);
    assert forall|i: int| 0 <= i < h.capacity && i != j implies #[trigger] status_at(t, h, i)
        == status_at(s, h, i) by {
        lemma_bucket_in_bounds(h, i);
        let x = bucket_start(h, i);
        lemma_positions_distinct(bs, i, j, 0, 0);
        if lo <= x < lo + h.key_size {
            lemma_positions_distinct(bs, i, j, 0, h.key_offset + (x - lo));
        }
    }
    assert forall|i: int| 0 <= i < h.capacity && i != j implies #[trigger] key_at(t, h, i)
        == key_at(s, h, i) by {
        lemma_bucket_in_bounds(h, i);
        assert forall|m: int| 0 <= m < h.key_size implies key_at(t, h, i)[m] == key_at(s, h, i)[m] by {
            let y = key_location(h, i) + m;
            lemma_positions_distinct(bs, i, j, h.key_offset + m, 0);
            if lo <= y < lo + h.key_size {
                lemma_positions_distinct(bs, i, j, h.key_offset + m, h.key_offset + (y - lo));
            }
        }
        assert(key_at(t, h, i) =~= key_at(s, h, i));
    }
    assert forall|i: int| 0 <= i < h.capacity && i != j implies #[trigger] value_at(t, h, i)
        == value_at(s, h, i) by {
        lemma_bucket_in_bounds(h, i);
        assert forall|m: int| 0 <= m < h.value_size implies value_at(t, h, i)[m] == value_at(s, h, i)[m] by {
            let y = value_location(h, i) + m;
            lemma_positions_distinct(bs, i, j, h.value_offset + m, 0);
            if lo <= y < lo + h.key_size {
                lemma_positions_distinct(bs, i, j, h.value_offset + m, h.key_offset + (y - lo));
            }
        }
        assert(value_at(t, h, i) =~= value_at(s, h, i));
    }
}

/// Once a tombstone is remembered, get-or-reserve finds room.
proof fn lemma_tomb_not_full(s: Seq<u8>, h: MapHeader, key: Seq<u8>, i: int, steps: nat, t: int)
    ensures
        reserve_from(s, h, key, i, steps, Some(t)) matches Reserve::Claim(c) ==> c == t,
        !(reserve_from(s, h, key, i, steps, Some(t)) is Full),
    decreases steps,
{
    if steps > 0 {
        lemma_tomb_not_full(s, h, key, next_index(h, i), (steps - 1) as nat, t);
    }
}

/// A probe that claims bucket `j` passes only buckets holding other keys
/// before it, so after the claim the same probe meets `key` at `j`.
proof fn lemma_claim_then_found(
    s: Seq<u8>,
    t: Seq<u8>,
    h: MapHeader,
    key: Seq<u8>,
    i: int,
    steps: nat,
    j: int,
)
    requires
        header_ok(h),
        0 <= i < h.capacity,
        0 <= j < h.capacity,
        reserve_from(s, h, key, i, steps, None) == Reserve::Claim(j),
        status_at(t, h, j) == STATUS_OCCUPIED,
        key_at(t, h, j) == key,
        forall|k: int|
            0 <= k < h.capacity && k != j ==> #[trigger] status_at(t, h, k) == status_at(s, h, k)
                && key_at(t, h, k) == key_at(s, h, k),
    ensures
        reserve_from(t, h, key, i, steps, None) == Reserve::Existing(j),
        lookup_from(t, h, key, i, steps) == Some(j),
    decreases steps,
{
    lemma_cap_pos(h);
    if steps > 0 && i != j {
        if status_at(s, h, i) == STATUS_TOMBSTONE {
            lemma_tomb_not_full(s, h, key, next_index(h, i), (steps - 1) as nat, i);
        } else {
            lemma_claim_then_found(s, t, h, key, next_index(h, i), (steps - 1) as nat, j);
        }
    }
}

/// A probe of get-or-reserve that meets `key` is a lookup that meets it.
proof fn lemma_existing_found(
    s: Seq<u8>,
    h: MapHeader,
    key: Seq<u8>,
    i: int,
    steps: nat,
    tomb: Option<int>,
    j: int,
)
    requires
        reserve_from(s, h, key, i, steps, tomb) == Reserve::Existing(j),
    ensures
        lookup_from(s, h, key, i, steps) == Some(j),
    decreases steps,
{
    if steps > 0 && status_at(s, h, i) != STATUS_EMPTY && !(status_at(s, h, i) == STATUS_OCCUPIED
        && key_at(s, h, i) == key) {
        let t = if status_at(s, h, i) == STATUS_TOMBSTONE && tomb is None {
            Some(i)
        } else {
            tomb
        };
        lemma_existing_found(s, h, key, next_index(h, i), (steps - 1) as nat, t, j);
    }
}

/// After get-or-reserve gives a location for `key`, the same probe on the
/// buffer it leaves finds `key` in that bucket.
proof fn lemma_reserve_then_found(s: Seq<u8>, key: Seq<u8>, hash: u64)
    requires
        is_map(s),
        key.len() == header_of(s).key_size,
        reserve_result(s, key, hash) is Some,
    ensures
        ({
            let t = reserved_buffer(s, key, hash);
            let j = reserve_index(s, key, hash);
            &&& is_map(t)
            &&& reserve_slot(t, key, hash) == Reserve::Existing(j)
            &&& lookup_slot(t, key, hash) == Some(j)
        }),
{
    let h = header_of(s);
    let t = reserved_buffer(s, key, hash);
    let j = reserve_index(s, key, hash);
    lemma_cap_pos(h);
    lemma_reserve_in_range(s, h, key, first_index(h, hash), probe_limit(h), None);
    crate::map::lemma_reserve_keeps_map(s, key, hash);
    match reserve_slot(s, key, hash) {
        Reserve::Existing(_) => {
            lemma_existing_found(s, h, key, first_index(h, hash), probe_limit(h), None, j);
        },
        Reserve::Claim(_) => {
            lemma_claimed_frame(s, h, j, key);
            let g = header_of(t);
            assert(first_index(g, hash) == first_index(h, hash));
            assert(probe_limit(g) == probe_limit(h));
            lemma_claim_then_found(s, t, h, key, first_index(h, hash), probe_limit(h), j);
            lemma_same_geometry(t, h, g, key, first_index(h, hash), probe_limit(h));
        },
        Reserve::Full => {},
    }
}

/// The probes read only the capacity and bucket geometry of the header.
proof fn lemma_same_geometry(s: Seq<u8>, h: MapHeader, g: MapHeader, key: Seq<u8>, i: int, steps: nat)
    requires
        g.capacity == h.capacity,
        g.bucket_size == h.bucket_size,
        g.key_offset == h.key_offset,
        g.key_size == h.key_size,
    ensures
        reserve_from(s, g, key, i, steps, None) == reserve_from(s, h, key, i, steps, None),
        lookup_from(s, g, key, i, steps) == lookup_from(s, h, key, i, steps),
{
    assert forall|k: int| #[trigger] status_at(s, g, k) == status_at(s, h, k) && key_at(s, g, k)
        == key_at(s, h, k) by {}
    lemma_same_geometry_walk(s, h, g, key, i, steps, None);
}

proof fn lemma_same_geometry_walk(
    s: Seq<u8>,
    h: MapHeader,
    g: MapHeader,
    key: Seq<u8>,
    i: int,
    steps: nat,
    tomb: Option<int>,
)
    requires
        g.capacity == h.capacity,
        g.bucket_size == h.bucket_size,
        g.key_offset == h.key_offset,
        g.key_size == h.key_size,
    ensures
        reserve_from(s, g, key, i, steps, tomb) == reserve_from(s, h, key, i, steps, tomb),
        lookup_from(s, g, key, i, steps) == lookup_from(s, h, key, i, steps),
    decreases steps,
{
    if steps > 0 {
        let t = if status_at(s, h, i) == STATUS_TOMBSTONE && tomb is None {
            Some(i)
        } else {
            tomb
        };
        lemma_same_geometry_walk(s, h, g, key, next_index(h, i), (steps - 1) as nat, t);
    }
}

/// Calling `get_or_reserve_entry` a second time with the same key returns
/// the same location and changes nothing, the element count included.
pub proof fn lemma_reserve_idempotent(s: Seq<u8>, key: Seq<u8>)
    requires
        is_map(s),
        key.len() == header_of(s).key_size,
    ensures
        reserve_result(reserved_buffer(s, key, fx_hash_of(key)), key, fx_hash_of(key)) == reserve_result(s, key, fx_hash_of(key)),
        reserved_buffer(reserved_buffer(s, key, fx_hash_of(key)), key, fx_hash_of(key)) == reserved_buffer(s, key, fx_hash_of(key)),
{
    let hash = fx_hash_of(key);
    if reserve_result(s, key, hash) is Some {
        lemma_reserve_then_found(s, key, hash);
        crate::map::lemma_reserved_location(s, key, hash);
    }
}

/// A lookup reads only the status and key of the buckets it passes.
proof fn lemma_lookup_same_contents(
    s: Seq<u8>,
    t: Seq<u8>,
    h: MapHeader,
    key: Seq<u8>,
    i: int,
    steps: nat,
)
    requires
        header_ok(h),
        0 <= i < h.capacity,
        forall|k: int|
            0 <= k < h.capacity ==> #[trigger] status_at(t, h, k) == status_at(s, h, k) && key_at(
                t,
                h,
                k,
            ) == key_at(s, h, k),
    ensures
        lookup_from(t, h, key, i, steps) == lookup_from(s, h, key, i, steps),
    decreases steps,
{
    lemma_cap_pos(h);
    if steps > 0 {
        lemma_lookup_same_contents(s, t, h, key, next_index(h, i), (steps - 1) as nat);
    }
}

/// Round trip: after `get_or_reserve_entry` gives a location for `key` and
/// a value of the map's value size is written there, `lookup` of `key`
/// returns that location, and the bytes there are the value.
pub proof fn lemma_round_trip(s: Seq<u8>, key: Seq<u8>, v: Seq<u8>)
    requires
        is_map(s),
        key.len() == header_of(s).key_size,
        v.len() == header_of(s).value_size,
        s.len() <= usize::MAX,
        reserve_result(s, key, fx_hash_of(key)) is Some,
    ensures
        ({
            let loc = reserve_result(s, key, fx_hash_of(key))->0 as int;
            let u = splice(reserved_buffer(s, key, fx_hash_of(key)), loc, v);
            &&& is_map(u)
            &&& lookup_result(u, key, fx_hash_of(key)) == reserve_result(s, key, fx_hash_of(key))
            &&& u.subrange(loc, loc + v.len()) == v
            &&& lookup_slot(u, key, fx_hash_of(key)) == Some(reserve_index(s, key, fx_hash_of(key)))
            &&& value_at(u, header_of(u), reserve_index(s, key, fx_hash_of(key))) == v
        }),
{
    let hash = fx_hash_of(key);
    let t = reserved_buffer(s, key, hash);
    let j = reserve_index(s, key, hash);
    let g = header_of(t);
    lemma_reserve_then_found(s, key, hash);
    lemma_reserved_location(s, key, hash);
    let loc = value_location(g, j);
    lemma_bucket_in_bounds(g, j);
    assert(t.len() == s.len());
    assert(loc == reserve_result(s, key, hash)->0 as int);
    lemma_value_write(t, g, j, v);
    let u = splice(t, loc, v);
    lemma_cap_pos(g);
    lemma_lookup_same_contents(t, u, g, key, first_index(g, hash), probe_limit(g));
    assert(u.subrange(loc, loc + v.len()) == value_at(u, g, j));
}

/// Bytes that a removal of bucket `p` leaves alone.
proof fn lemma_removed_frame(s: Seq<u8>, h: MapHeader, p: int)
    requires
        is_map(s),
        h == header_of(s),
        0 <= p < h.capacity,
        status_at(s, h, p) == STATUS_OCCUPIED,
    ensures
        ({
            let t = removed(s, h, p);
            &&& h.element_count >= 1
            &&& is_map(t)
            &&& header_of(t) == (MapHeader { element_count: (h.element_count - 1) as u16, ..h })
            &&& status_at(t, h, p) == STATUS_TOMBSTONE
            &&& forall|i: int|
                0 <= i < h.capacity ==> #[trigger] key_at(t, h, i) == key_at(s, h, i)
            &&& forall|i: int|
                0 <= i < h.capacity ==> #[trigger] value_at(t, h, i) == value_at(s, h, i)
            &&& forall|i: int|
                0 <= i < h.capacity && i != p ==> #[trigger] status_at(t, h, i) == status_at(s, h, i)
        }),
{
    let bs = h.bucket_size as int;
    lemma_bucket_in_bounds(h, p);
    let t1 = s.update(bucket_start(h, p), STATUS_TOMBSTONE);
    lemma_status_change(s, t1, h, p);
    let c = (h.element_count - 1) as u16;
    let t = removed(s, h, p);
    assert(t == with_u16(t1, ELEMENT_COUNT_AT as int, c as int));
    assert(u16_at(t, ELEMENT_COUNT_AT as int) == c);
    lemma_count_written(t1, t, h, c);
    assert forall|i: int| 0 <= i < h.capacity implies #[trigger] key_at(t, h, i) == key_at(s, h, i) by {
        lemma_bucket_in_bounds(h, i);
        assert forall|m: int| 0 <= m < h.key_size implies key_at(t, h, i)[m] == key_at(s, h, i)[m] by {
            lemma_positions_distinct(bs, i, p, h.key_offset + m, 0);
        }
        assert(key_at(t, h, i) =~= key_at(s, h, i));
    }
    assert forall|i: int| 0 <= i < h.capacity implies #[trigger] value_at(t, h, i) == value_at(s, h, i) by {
        lemma_bucket_in_bounds(h, i);
        assert forall|m: int| 0 <= m < h.value_size implies value_at(t, h, i)[m] == value_at(s, h, i)[m] by {
            lemma_positions_distinct(bs, i, p, h.value_offset + m, 0);
        }
        assert(value_at(t, h, i) =~= value_at(s, h, i));
    }
    assert forall|i: int| 0 <= i < h.capacity && i != p implies #[trigger] status_at(t, h, i)
        == status_at(s, h, i) by {
        lemma_bucket_in_bounds(h, i);
        lemma_positions_distinct(bs, i, p, 0, 0);
    }
}

/// A lookup in a buffer where no occupied bucket holds `key` finds nothing.
proof fn lemma_absent_not_found(t: Seq<u8>, h: MapHeader, key: Seq<u8>, i: int, steps: nat)
    requires
        header_ok(h),
        0 <= i < h.capacity,
        forall|k: int|
            0 <= k < h.capacity ==> !(#[trigger] status_at(t, h, k) == STATUS_OCCUPIED && key_at(
                t,
                h,
                k,
            ) == key),
    ensures
        lookup_from(t, h, key, i, steps) is None,
    decreases steps,
{
    lemma_cap_pos(h);
    if steps > 0 {
        lemma_absent_not_found(t, h, key, next_index(h, i), (steps - 1) as nat);
    }
}

/// The probe that found `key` at `p` meets the tombstone left there, so
/// get-or-reserve finds room.
proof fn lemma_removed_has_room(
    s: Seq<u8>,
    t: Seq<u8>,
    h: MapHeader,
    key: Seq<u8>,
    i: int,
    steps: nat,
    p: int,
)
    requires
        header_ok(h),
        0 <= i < h.capacity,
        lookup_from(s, h, key, i, steps) == Some(p),
        status_at(t, h, p) == STATUS_TOMBSTONE,
        forall|k: int|
            0 <= k < h.capacity && k != p ==> #[trigger] status_at(t, h, k) == status_at(s, h, k),
        forall|k: int| 0 <= k < h.capacity ==> #[trigger] key_at(t, h, k) == key_at(s, h, k),
    ensures
        !(reserve_from(t, h, key, i, steps, None) is Full),
    decreases steps,
{
    lemma_cap_pos(h);
    if steps > 0 {
        if i == p || status_at(t, h, i) == STATUS_TOMBSTONE {
            lemma_tomb_not_full(t, h, key, next_index(h, i), (steps - 1) as nat, i);
        } else {
            lemma_removed_has_room(s, t, h, key, next_index(h, i), (steps - 1) as nat, p);
        }
    }
}

/// Removal: on a map that holds `key` in at most one occupied bucket, after
/// a successful removal the lookup of `key` finds nothing, the element
/// count is one lower, and get-or-reserve of `key` finds room again.
pub proof fn lemma_remove_then_absent(s: Seq<u8>, key: Seq<u8>)
    requires
        is_map(s),
        key.len() == header_of(s).key_size,
        lookup_slot(s, key, fx_hash_of(key)) is Some,
        forall|a: int, b: int|
            0 <= a < b < header_of(s).capacity && #[trigger] status_at(s, header_of(s), a)
                == STATUS_OCCUPIED && #[trigger] status_at(s, header_of(s), b) == STATUS_OCCUPIED
                ==> !(key_at(s, header_of(s), a) == key && key_at(s, header_of(s), b) == key),
    ensures
        ({
            let t = removed_buffer(s, key, fx_hash_of(key));
            &&& is_map(t)
            &&& lookup_slot(t, key, fx_hash_of(key)) is None
            &&& header_of(t).element_count == header_of(s).element_count - 1
            &&& reserve_result(t, key, fx_hash_of(key)) is Some
            &&& key_absent(t, key)
        }),
{
    let hash = fx_hash_of(key);
    let h = header_of(s);
    let p = lookup_slot(s, key, hash)->0;
    lemma_cap_pos(h);
    lemma_lookup_hit(s, h, key, first_index(h, hash), probe_limit(h));
    lemma_removed_frame(s, h, p);
    let t = removed_buffer(s, key, hash);
    let g = header_of(t);
    assert forall|k: int| 0 <= k < h.capacity implies !(#[trigger] status_at(t, h, k)
        == STATUS_OCCUPIED && key_at(t, h, k) == key) by {
        if k != p && status_at(t, h, k) == STATUS_OCCUPIED && key_at(t, h, k) == key {
            if k < p {
                assert(status_at(s, h, k) == STATUS_OCCUPIED);
            } else {
                assert(status_at(s, h, k) == STATUS_OCCUPIED);
            }
        }
    }
    lemma_absent_not_found(t, h, key, first_index(h, hash), probe_limit(h));
    lemma_removed_has_room(s, t, h, key, first_index(h, hash), probe_limit(h), p);
    lemma_same_geometry_walk(t, h, g, key, first_index(h, hash), probe_limit(h), None);
    assert(is_map(t));
    assert(lookup_slot(t, key, hash) is None);
    assert(g.element_count == h.element_count - 1);
    assert forall|k: int| 0 <= k < g.capacity implies !(#[trigger] status_at(t, g, k)
        == STATUS_OCCUPIED && key_at(t, g, k) == key) by {
        assert(status_at(t, g, k) == status_at(t, h, k));
        assert(key_at(t, g, k) == key_at(t, h, k));
    }
}

/// What a lookup finds is an occupied bucket in range holding the key.
proof fn lemma_lookup_hit(s: Seq<u8>, h: MapHeader, key: Seq<u8>, i: int, steps: nat)
    requires
        header_ok(h),
        0 <= i < h.capacity,
    ensures
        lookup_from(s, h, key, i, steps) matches Some(p) ==> 0 <= p < h.capacity && status_at(
            s,
            h,
            p,
        ) == STATUS_OCCUPIED && key_at(s, h, p) == key,
    decreases steps,
{
    lemma_cap_pos(h);
    if steps > 0 {
        lemma_lookup_hit(s, h, key, next_index(h, i), (steps - 1) as nat);
    }
}

/// The occupied buckets at index `i` or later, in index order.
pub open spec fn occupied_from(s: Seq<u8>, h: MapHeader, i: int) -> Seq<int>
    decreases h.capacity - i,
{
    if i < 0 || i >= h.capacity {
        Seq::empty()
    } else if status_at(s, h, i) == STATUS_OCCUPIED {
        seq![i] + occupied_from(s, h, i + 1)
    } else {
        occupied_from(s, h, i + 1)
    }
}

proof fn lemma_walk(s: Seq<u8>, h: MapHeader, i: int)
    requires
        0 <= i <= h.capacity,
    ensures
        ({
            let w = occupied_from(s, h, i);
            &&& forall|a: int, b: int| 0 <= a < b < w.len() ==> w[a] < w[b]
            &&& forall|a: int| 0 <= a < w.len() ==> i <= #[trigger] w[a] < h.capacity
            &&& forall|k: int|
                i <= k < h.capacity ==> (#[trigger] status_at(s, h, k) == STATUS_OCCUPIED
                    <==> w.contains(k))
            &&& next_occupied(s, h, i) == if w.len() > 0 {
                Some(w[0])
            } else {
                None
            }
            &&& w.len() > 0 ==> occupied_from(s, h, w[0] + 1) == w.drop_first()
        }),
    decreases h.capacity - i,
{
    if i < h.capacity {
        lemma_walk(s, h, i + 1);
        let w = occupied_from(s, h, i);
        let w1 = occupied_from(s, h, i + 1);
        if status_at(s, h, i) == STATUS_OCCUPIED {
            assert(w == seq![i] + w1);
            assert(w.drop_first() =~= w1);
            assert forall|k: int| i <= k < h.capacity implies (#[trigger] status_at(s, h, k)
                == STATUS_OCCUPIED <==> w.contains(k)) by {
                if k == i {
                    assert(w[0] == i);
                }
                if k > i && w1.contains(k) {
                    let a = choose|a: int| 0 <= a < w1.len() && w1[a] == k;
                    assert(w[a + 1] == k);
                }
                if w.contains(k) && k != i {
                    let a = choose|a: int| 0 <= a < w.len() && w[a] == k;
                    assert(w1[a - 1] == k);
                }
            }
        } else {
            assert forall|k: int| i <= k < h.capacity implies (#[trigger] status_at(s, h, k)
                == STATUS_OCCUPIED <==> w.contains(k)) by {
                if w.contains(k) {
                    let a = choose|a: int| 0 <= a < w.len() && w[a] == k;
                    assert(w[a] >= i + 1);
                }
            }
        }
    }
}

/// Iteration: starting at index 0 and going on from the index after each
/// result, `find_next_valid_entry` visits the occupied buckets in increasing
/// index order, each exactly once, and then returns the end marker.
pub proof fn lemma_iteration_complete(s: Seq<u8>)
    requires
        is_map(s),
    ensures
        ({
            let h = header_of(s);
            let w = occupied_from(s, h, 0);
            &&& forall|a: int, b: int| 0 <= a < b < w.len() ==> w[a] < w[b]
            &&& forall|k: int|
                0 <= k < h.capacity ==> (#[trigger] status_at(s, h, k) == STATUS_OCCUPIED
                    <==> w.contains(k))
            &&& next_occupied(s, h, 0) == if w.len() > 0 {
                Some(w[0])
            } else {
                None
            }
            &&& forall|a: int|
                0 <= a < w.len() ==> next_occupied(s, h, #[trigger] w[a] + 1) == if a + 1 < w.len() {
                    Some(w[a + 1])
                } else {
                    None
                }
        }),
{
    let h = header_of(s);
    let w = occupied_from(s, h, 0);
    lemma_walk(s, h, 0);
    assert forall|a: int| 0 <= a < w.len() implies next_occupied(s, h, #[trigger] w[a] + 1) == if a
        + 1 < w.len() {
        Some(w[a + 1])
    } else {
        None
    } by {
        lemma_walk_suffix(s, h, 0, a);
        lemma_walk(s, h, w[a] + 1);
    }
}

/// After the `a`-th occupied bucket at or past `i`, the rest of the walk
/// is the rest of the sequence.
proof fn lemma_walk_suffix(s: Seq<u8>, h: MapHeader, i: int, a: int)
    requires
        0 <= i <= h.capacity,
        0 <= a < occupied_from(s, h, i).len(),
    ensures
        occupied_from(s, h, i)[a] + 1 <= h.capacity,
        occupied_from(s, h, occupied_from(s, h, i)[a] + 1) == occupied_from(s, h, i).subrange(
            a + 1,
            occupied_from(s, h, i).len() as int,
        ),
    decreases h.capacity - i, a,
{
    let w = occupied_from(s, h, i);
    lemma_walk(s, h, i);
    if a == 0 {
        assert(w.drop_first() =~= w.subrange(1, w.len() as int));
    } else {
        let k = w[0];
        lemma_walk(s, h, k + 1);
        let w1 = occupied_from(s, h, k + 1);
        assert(w1 == w.drop_first());
        lemma_walk_suffix(s, h, k + 1, a - 1);
        assert(w1[a - 1] == w[a]);
        assert(w1.subrange(a, w1.len() as int) =~= w.subrange(a + 1, w.len() as int));
    }
}

/// Results of `get_or_reserve_entry` for each key in turn, and the buffer
/// left at the end.
pub open spec fn reserve_all(s: Seq<u8>, keys: Seq<Seq<u8>>) -> (Seq<Option<usize>>, Seq<u8>)
    decreases keys.len(),
{
    if keys.len() == 0 {
        (Seq::empty(), s)
    } else {
        let n = keys.len() - 1;
        let before = reserve_all(s, keys.drop_last());
        (
            before.0.push(reserve_result(before.1, keys[n], fx_hash_of(keys[n]))),
            reserved_buffer(before.1, keys[n], fx_hash_of(keys[n])),
        )
    }
}

/// The two buffers have the same header and the same status and key in
/// every bucket; their value bytes may differ.
pub open spec fn same_contents(s1: Seq<u8>, s2: Seq<u8>) -> bool {
    let h = header_of(s1);
    &&& header_of(s2) == h
    &&& forall|q: int| 0 <= q < h.capacity ==> #[trigger] status_at(s1, h, q) == status_at(s2, h, q)
    &&& forall|q: int| 0 <= q < h.capacity ==> #[trigger] key_at(s1, h, q) == key_at(s2, h, q)
}

proof fn lemma_reserve_walk_same(
    s1: Seq<u8>,
    s2: Seq<u8>,
    h: MapHeader,
    key: Seq<u8>,
    i: int,
    steps: nat,
    tomb: Option<int>,
)
    requires
        header_ok(h),
        0 <= i < h.capacity,
        forall|q: int| 0 <= q < h.capacity ==> #[trigger] status_at(s1, h, q) == status_at(s2, h, q),
        forall|q: int| 0 <= q < h.capacity ==> #[trigger] key_at(s1, h, q) == key_at(s2, h, q),
    ensures
        reserve_from(s1, h, key, i, steps, tomb) == reserve_from(s2, h, key, i, steps, tomb),
    decreases steps,
{
    lemma_cap_pos(h);
    if steps > 0 {
        let t = if status_at(s1, h, i) == STATUS_TOMBSTONE && tomb is None {
            Some(i)
        } else {
            tomb
        };
        lemma_reserve_walk_same(s1, s2, h, key, next_index(h, i), (steps - 1) as nat, t);
    }
}

/// One call of `get_or_reserve_entry` on buffers with the same contents.
proof fn lemma_reserve_same(s1: Seq<u8>, s2: Seq<u8>, key: Seq<u8>)
    requires
        is_map(s1),
        is_map(s2),
        s1.len() <= usize::MAX,
        s2.len() <= usize::MAX,
        same_contents(s1, s2),
        key.len() == header_of(s1).key_size,
    ensures
        reserve_result(s1, key, fx_hash_of(key)) == reserve_result(s2, key, fx_hash_of(key)),
        same_contents(
            reserved_buffer(s1, key, fx_hash_of(key)),
            reserved_buffer(s2, key, fx_hash_of(key)),
        ),
        is_map(reserved_buffer(s1, key, fx_hash_of(key))),
        is_map(reserved_buffer(s2, key, fx_hash_of(key))),
        reserved_buffer(s1, key, fx_hash_of(key)).len() == s1.len(),
        reserved_buffer(s2, key, fx_hash_of(key)).len() == s2.len(),
        header_of(reserved_buffer(s1, key, fx_hash_of(key))).key_size == header_of(s1).key_size,
{
    let h = header_of(s1);
    let hash = fx_hash_of(key);
    lemma_cap_pos(h);
    lemma_reserve_walk_same(s1, s2, h, key, first_index(h, hash), probe_limit(h), None);
    crate::map::lemma_reserve_keeps_map(s1, key, hash);
    crate::map::lemma_reserve_keeps_map(s2, key, hash);
    if reserve_slot(s1, key, hash) is Claim {
        lemma_merge_claim_half(s1, key, hash);
        lemma_merge_claim_half(s2, key, hash);
        let j = reserve_index(s1, key, hash);
        let t1 = claimed(s1, h, j, key);
        let t2 = claimed(s2, h, j, key);
        let g = header_of(t1);
        assert forall|q: int| 0 <= q < g.capacity implies #[trigger] status_at(t1, g, q) == status_at(t2, g, q) by {
            assert(status_at(t1, g, q) == status_at(t1, h, q));
            assert(status_at(t2, g, q) == status_at(t2, h, q));
            if q != j {
                assert(status_at(t1, h, q) == status_at(s1, h, q));
                assert(status_at(t2, h, q) == status_at(s2, h, q));
            }
        }
        assert forall|q: int| 0 <= q < g.capacity implies #[trigger] key_at(t1, g, q) == key_at(t2, g, q) by {
            assert(key_at(t1, g, q) == key_at(t1, h, q));
            assert(key_at(t2, g, q) == key_at(t2, h, q));
            if q != j {
                assert(key_at(t1, h, q) == key_at(s1, h, q));
                assert(key_at(t2, h, q) == key_at(s2, h, q));
            }
        }
    }
}

/// Determinism: for a fixed order of insertion, which calls of
/// `get_or_reserve_entry` report "full", and where the others land, is the
/// same on any two map buffers with the same header, statuses and keys,
/// whatever their value bytes; the buffers keep the same contents.
pub proof fn lemma_reserve_deterministic(s1: Seq<u8>, s2: Seq<u8>, keys: Seq<Seq<u8>>)
    requires
        is_map(s1),
        is_map(s2),
        s1.len() <= usize::MAX,
        s2.len() <= usize::MAX,
        same_contents(s1, s2),
        forall|k: int| 0 <= k < keys.len() ==> (#[trigger] keys[k]).len() == header_of(s1).key_size,
    ensures
        reserve_all(s1, keys).0 == reserve_all(s2, keys).0,
        same_contents(reserve_all(s1, keys).1, reserve_all(s2, keys).1),
        is_map(reserve_all(s1, keys).1),
        is_map(reserve_all(s2, keys).1),
        reserve_all(s1, keys).1.len() == s1.len(),
        reserve_all(s2, keys).1.len() == s2.len(),
        header_of(reserve_all(s1, keys).1).key_size == header_of(s1).key_size,
    decreases keys.len(),
{
    if keys.len() > 0 {
        let n = keys.len() - 1;
        let rest = keys.drop_last();
        assert forall|k: int| 0 <= k < rest.len() implies (#[trigger] rest[k]).len()
            == header_of(s1).key_size by {
            assert(rest[k] == keys[k]);
        }
        lemma_reserve_deterministic(s1, s2, rest);
        let t1 = reserve_all(s1, rest).1;
        let t2 = reserve_all(s2, rest).1;
        lemma_reserve_same(t1, t2, keys[n]);
    }
}

/// Claiming bucket `j` for another key does not hide a key that a lookup
/// found: the bucket was empty (where the lookup would have stopped) or a
/// tombstone (which the lookup passes, as it passes another key).
proof fn lemma_claim_keeps_found(
    t: Seq<u8>,
    t1: Seq<u8>,
    h: MapHeader,
    key: Seq<u8>,
    i: int,
    steps: nat,
    j: int,
)
    requires
        header_ok(h),
        0 <= i < h.capacity,
        lookup_from(t, h, key, i, steps) is Some,
        status_at(t, h, j) != STATUS_OCCUPIED,
        status_at(t1, h, j) == STATUS_OCCUPIED,
        key_at(t1, h, j) != key,
        forall|q: int|
            0 <= q < h.capacity && q != j ==> #[trigger] status_at(t1, h, q) == status_at(t, h, q)
                && key_at(t1, h, q) == key_at(t, h, q),
    ensures
        lookup_from(t1, h, key, i, steps) == lookup_from(t, h, key, i, steps),
    decreases steps,
{
    lemma_cap_pos(h);
    if steps > 0 {
        if !(status_at(t, h, i) == STATUS_OCCUPIED && key_at(t, h, i) == key) {
            assert(status_at(t, h, i) != STATUS_EMPTY);
            assert(lookup_from(t, h, key, next_index(h, i), (steps - 1) as nat) is Some);
            assert(0 <= next_index(h, i) < h.capacity);
            lemma_claim_keeps_found(t, t1, h, key, next_index(h, i), (steps - 1) as nat, j);
        }
    }
}

/// Number of occupied buckets of `src` from index `i` on.
pub open spec fn occupied_from_count(src: Seq<u8>, i: int) -> int {
    let hs = header_of(src);
    occupied_count(src, hs, hs.capacity as int) - occupied_count(src, hs, i)
}

/// No two occupied buckets of `s` hold the same key.
#[verifier::opaque]
pub open spec fn keys_distinct(s: Seq<u8>) -> bool {
    let h = header_of(s);
    forall|a: int, b: int|
        0 <= a < b < h.capacity && #[trigger] status_at(s, h, a) == STATUS_OCCUPIED
            && #[trigger] status_at(s, h, b) == STATUS_OCCUPIED ==> key_at(s, h, a) != key_at(s, h, b)
}

/// No occupied bucket of `t` holds the key of an occupied bucket of `src`
/// at index `i` or later.
#[verifier::opaque]
pub open spec fn keys_disjoint_from(t: Seq<u8>, src: Seq<u8>, i: int) -> bool {
    let h = header_of(t);
    let hs = header_of(src);
    forall|q: int, a: int|
        0 <= q < h.capacity && i <= a < hs.capacity && #[trigger] status_at(t, h, q)
            == STATUS_OCCUPIED && #[trigger] status_at(src, hs, a) == STATUS_OCCUPIED ==> key_at(
            t,
            h,
            q,
        ) != key_at(src, hs, a)
}

/// `key` is not held by an occupied bucket of `src` at index `i` or later.
#[verifier::opaque]
pub open spec fn not_a_source_key(src: Seq<u8>, key: Seq<u8>, i: int) -> bool {
    let hs = header_of(src);
    forall|a: int|
        i <= a < hs.capacity && #[trigger] status_at(src, hs, a) == STATUS_OCCUPIED ==> key_at(
            src,
            hs,
            a,
        ) != key
}

/// A source key that the target does not hold is never found there.
proof fn lemma_merge_no_existing(t: Seq<u8>, src: Seq<u8>, hash: u64, i: int)
    requires
        is_map(t),
        0 <= i < header_of(src).capacity,
        status_at(src, header_of(src), i) == STATUS_OCCUPIED,
        keys_disjoint_from(t, src, i),
    ensures
        !(reserve_slot(t, key_at(src, header_of(src), i), hash) is Existing),
{
    let h = header_of(t);
    let hs = header_of(src);
    let key = key_at(src, hs, i);
    if let Reserve::Existing(j) = reserve_slot(t, key, hash) {
        lemma_cap_pos(h);
        lemma_existing_found(t, h, key, first_index(h, hash), probe_limit(h), None, j);
        lemma_lookup_hit(t, h, key, first_index(h, hash), probe_limit(h));
        reveal(keys_disjoint_from);
        assert(status_at(t, h, j) == STATUS_OCCUPIED);
        assert(status_at(src, hs, i) == STATUS_OCCUPIED);
    }
}

/// The claim half of a merge step.
#[verifier::rlimit(100)]
proof fn lemma_merge_claim_half(t: Seq<u8>, key: Seq<u8>, hash: u64)
    requires
        is_map(t),
        t.len() <= usize::MAX,
        key.len() == header_of(t).key_size,
        reserve_slot(t, key, hash) is Claim,
    ensures
        claimed(t, header_of(t), reserve_index(t, key, hash), key) == reserved_buffer(t, key, hash),
        is_map(claimed(t, header_of(t), reserve_index(t, key, hash), key)),
        claimed(t, header_of(t), reserve_index(t, key, hash), key).len() == t.len(),
        header_of(claimed(t, header_of(t), reserve_index(t, key, hash), key)) == (MapHeader {
            element_count: (header_of(t).element_count + 1) as u16,
            ..header_of(t)
        }),
        0 <= reserve_index(t, key, hash) < header_of(t).capacity,
        status_at(t, header_of(t), reserve_index(t, key, hash)) != STATUS_OCCUPIED,
        status_at(
            claimed(t, header_of(t), reserve_index(t, key, hash), key),
            header_of(t),
            reserve_index(t, key, hash),
        ) == STATUS_OCCUPIED,
        key_at(
            claimed(t, header_of(t), reserve_index(t, key, hash), key),
            header_of(t),
            reserve_index(t, key, hash),
        ) == key,
        reserve_result(t, key, hash) == Some(
            value_location(header_of(t), reserve_index(t, key, hash)) as usize,
        ),
        value_location(header_of(t), reserve_index(t, key, hash)) + header_of(t).value_size
            <= t.len(),
        lookup_slot(claimed(t, header_of(t), reserve_index(t, key, hash), key), key, hash) == Some(
            reserve_index(t, key, hash),
        ),
        forall|q: int|
            0 <= q < header_of(t).capacity && q != reserve_index(t, key, hash) ==> #[trigger] status_at(
                claimed(t, header_of(t), reserve_index(t, key, hash), key),
                header_of(t),
                q,
            ) == status_at(t, header_of(t), q),
        forall|q: int|
            0 <= q < header_of(t).capacity && q != reserve_index(t, key, hash) ==> #[trigger] key_at(
                claimed(t, header_of(t), reserve_index(t, key, hash), key),
                header_of(t),
                q,
            ) == key_at(t, header_of(t), q),
        forall|q: int|
            0 <= q < header_of(t).capacity && q != reserve_index(t, key, hash) ==> #[trigger] value_at(
                claimed(t, header_of(t), reserve_index(t, key, hash), key),
                header_of(t),
                q,
            ) == value_at(t, header_of(t), q),
{
    let h = header_of(t);
    let j = reserve_index(t, key, hash);
    lemma_cap_pos(h);
    lemma_reserve_in_range(t, h, key, first_index(h, hash), probe_limit(h), None);
    lemma_claim_keeps_map(t, h, j, key);
    lemma_claimed_frame(t, h, j, key);
    lemma_reserve_then_found(t, key, hash);
    lemma_bucket_in_bounds(h, j);
    let t0 = claimed(t, h, j, key);
    assert(t0 == reserved_buffer(t, key, hash));
    assert(reserve_result(t, key, hash) == Some(value_location(h, j) as usize));
    assert(lookup_slot(t0, key, hash) == Some(j));
    assert forall|q: int| 0 <= q < h.capacity && q != j implies #[trigger] status_at(t0, h, q) == status_at(t, h, q) by {}
    assert forall|q: int| 0 <= q < h.capacity && q != j implies #[trigger] key_at(t0, h, q) == key_at(t, h, q) by {
        assert(status_at(t0, h, q) == status_at(t, h, q));
    }
    assert forall|q: int| 0 <= q < h.capacity && q != j implies #[trigger] value_at(t0, h, q) == value_at(t, h, q) by {}
}

/// The value half of a merge step.
#[verifier::rlimit(100)]
proof fn lemma_merge_value_half(t0: Seq<u8>, h: MapHeader, j: int, key: Seq<u8>, hash: u64, v: Seq<u8>)
    requires
        is_map(t0),
        header_of(t0) == (MapHeader { element_count: header_of(t0).element_count, ..h }),
        0 <= j < h.capacity,
        v.len() == h.value_size,
        lookup_slot(t0, key, hash) == Some(j),
    ensures
        is_map(splice(t0, value_location(h, j), v)),
        splice(t0, value_location(h, j), v).len() == t0.len(),
        header_of(splice(t0, value_location(h, j), v)) == header_of(t0),
        lookup_slot(splice(t0, value_location(h, j), v), key, hash) == Some(j),
        value_at(splice(t0, value_location(h, j), v), h, j) == v,
        forall|q: int|
            0 <= q < h.capacity ==> #[trigger] status_at(splice(t0, value_location(h, j), v), h, q)
                == status_at(t0, h, q),
        forall|q: int|
            0 <= q < h.capacity ==> #[trigger] key_at(splice(t0, value_location(h, j), v), h, q)
                == key_at(t0, h, q),
        forall|q: int|
            0 <= q < h.capacity && q != j ==> #[trigger] value_at(
                splice(t0, value_location(h, j), v),
                h,
                q,
            ) == value_at(t0, h, q),
{
    let g = header_of(t0);
    assert(value_location(g, j) == value_location(h, j));
    lemma_value_write(t0, g, j, v);
    let t1 = splice(t0, value_location(h, j), v);
    assert forall|q: int| 0 <= q < h.capacity implies #[trigger] status_at(t1, h, q) == status_at(t0, h, q) by {
        assert(status_at(t1, g, q) == status_at(t0, g, q));
    }
    assert forall|q: int| 0 <= q < h.capacity implies #[trigger] key_at(t1, h, q) == key_at(t0, h, q) by {
        assert(key_at(t1, g, q) == key_at(t0, g, q));
    }
    assert forall|q: int| 0 <= q < h.capacity && q != j implies #[trigger] value_at(t1, h, q) == value_at(t0, h, q) by {
        assert(value_at(t1, g, q) == value_at(t0, g, q));
    }
    lemma_cap_pos(g);
    lemma_lookup_same_contents(t0, t1, g, key, first_index(g, hash), probe_limit(g));
    assert(value_at(t1, g, j) == v);
}

/// The target after one claiming step of a merge at source bucket `i`.
pub open spec fn merge_step_buffer(t: Seq<u8>, src: Seq<u8>, hash: u64, i: int) -> Seq<u8> {
    let hs = header_of(src);
    let key = key_at(src, hs, i);
    splice(
        reserved_buffer(t, key, hash),
        reserve_result(t, key, hash)->0 as int,
        value_at(src, hs, i),
    )
}

/// The bucket that one claiming step of a merge fills.
pub open spec fn merge_step_index(t: Seq<u8>, src: Seq<u8>, hash: u64, i: int) -> int {
    reserve_index(t, key_at(src, header_of(src), i), hash)
}

/// One claiming step of a merge: the buffer after the claim and the value
/// copy holds the source entry and one more element.
#[verifier::rlimit(100)]
proof fn lemma_merge_claim_step(t: Seq<u8>, src: Seq<u8>, hash: u64, i: int)
    requires
        is_map(t),
        is_map(src),
        t.len() <= usize::MAX,
        header_of(t).key_size == header_of(src).key_size,
        header_of(t).value_size == header_of(src).value_size,
        0 <= i < header_of(src).capacity,
        status_at(src, header_of(src), i) == STATUS_OCCUPIED,
        keys_disjoint_from(t, src, i),
        reserve_result(t, key_at(src, header_of(src), i), hash) is Some,
    ensures
        is_map(merge_step_buffer(t, src, hash, i)),
        merge_step_buffer(t, src, hash, i).len() == t.len(),
        header_of(merge_step_buffer(t, src, hash, i)) == (MapHeader {
            element_count: (header_of(t).element_count + 1) as u16,
            ..header_of(t)
        }),
        0 <= merge_step_index(t, src, hash, i) < header_of(t).capacity,
        lookup_slot(merge_step_buffer(t, src, hash, i), key_at(src, header_of(src), i), hash)
            == Some(merge_step_index(t, src, hash, i)),
        value_at(
            merge_step_buffer(t, src, hash, i),
            header_of(t),
            merge_step_index(t, src, hash, i),
        ) == value_at(src, header_of(src), i),
        status_at(t, header_of(t), merge_step_index(t, src, hash, i)) != STATUS_OCCUPIED,
        status_at(merge_step_buffer(t, src, hash, i), header_of(t), merge_step_index(t, src, hash, i))
            == STATUS_OCCUPIED,
        key_at(merge_step_buffer(t, src, hash, i), header_of(t), merge_step_index(t, src, hash, i))
            == key_at(src, header_of(src), i),
        forall|q: int|
            0 <= q < header_of(t).capacity && q != merge_step_index(t, src, hash, i)
                ==> #[trigger] status_at(merge_step_buffer(t, src, hash, i), header_of(t), q)
                == status_at(t, header_of(t), q),
        forall|q: int|
            0 <= q < header_of(t).capacity && q != merge_step_index(t, src, hash, i)
                ==> #[trigger] key_at(merge_step_buffer(t, src, hash, i), header_of(t), q)
                == key_at(t, header_of(t), q),
        forall|q: int|
            0 <= q < header_of(t).capacity && q != merge_step_index(t, src, hash, i)
                ==> #[trigger] value_at(merge_step_buffer(t, src, hash, i), header_of(t), q)
                == value_at(t, header_of(t), q),
{
    let hs = header_of(src);
    let h = header_of(t);
    let key = key_at(src, hs, i);
    let v = value_at(src, hs, i);
    lemma_bucket_in_bounds(hs, i);
    assert(key.len() == h.key_size);
    assert(v.len() == h.value_size);
    lemma_merge_no_existing(t, src, hash, i);
    lemma_merge_claim_half(t, key, hash);
    let j = reserve_index(t, key, hash);
    let t0 = claimed(t, h, j, key);
    lemma_merge_value_half(t0, h, j, key, hash, v);
    let t1 = splice(t0, value_location(h, j), v);
    assert(t1 == merge_step_buffer(t, src, hash, i));
    assert forall|q: int| 0 <= q < h.capacity && q != j implies #[trigger] status_at(t1, h, q) == status_at(t, h, q) by {
        assert(status_at(t1, h, q) == status_at(t0, h, q));
        assert(status_at(t0, h, q) == status_at(t, h, q));
    }
    assert forall|q: int| 0 <= q < h.capacity && q != j implies #[trigger] key_at(t1, h, q) == key_at(t, h, q) by {
        assert(key_at(t1, h, q) == key_at(t0, h, q));
        assert(key_at(t0, h, q) == key_at(t, h, q));
    }
    assert forall|q: int| 0 <= q < h.capacity && q != j implies #[trigger] value_at(t1, h, q) == value_at(t, h, q) by {
        assert(value_at(t1, h, q) == value_at(t0, h, q));
        assert(value_at(t0, h, q) == value_at(t, h, q));
    }
    assert(status_at(t1, h, j) == status_at(t0, h, j));
    assert(key_at(t1, h, j) == key_at(t0, h, j));
}

proof fn lemma_disjoint_skip(t: Seq<u8>, src: Seq<u8>, i: int)
    requires
        keys_disjoint_from(t, src, i),
    ensures
        keys_disjoint_from(t, src, i + 1),
{
    reveal(keys_disjoint_from);
}

/// A merge keeps what a lookup found for a key that no remaining source
/// bucket holds.
#[verifier::rlimit(100)]
proof fn lemma_merge_keeps(t: Seq<u8>, src: Seq<u8>, hashes: Seq<u64>, i: int, k: Seq<u8>, x: u64)
    requires
        is_map(t),
        is_map(src),
        t.len() <= usize::MAX,
        header_of(t).key_size == header_of(src).key_size,
        header_of(t).value_size == header_of(src).value_size,
        hashes.len() == header_of(src).capacity,
        0 <= i <= header_of(src).capacity,
        keys_distinct(src),
        keys_disjoint_from(t, src, i),
        merge_from(t, src, hashes, i).0,
        not_a_source_key(src, k, i),
        lookup_slot(t, k, x) is Some,
    ensures
        lookup_slot(merge_from(t, src, hashes, i).1, k, x) == lookup_slot(t, k, x),
        value_at(
            merge_from(t, src, hashes, i).1,
            header_of(merge_from(t, src, hashes, i).1),
            lookup_slot(t, k, x)->0,
        ) == value_at(t, header_of(t), lookup_slot(t, k, x)->0),
    decreases header_of(src).capacity - i,
{
    let hs = header_of(src);
    let h = header_of(t);
    if i < hs.capacity {
        if status_at(src, hs, i) != STATUS_OCCUPIED {
            lemma_disjoint_skip(t, src, i);
            assert(not_a_source_key(src, k, i + 1)) by {
                reveal(not_a_source_key);
            }
            lemma_merge_keeps(t, src, hashes, i + 1, k, x);
        } else {
            let key = key_at(src, hs, i);
            let hash = hashes[i];
            lemma_bucket_in_bounds(hs, i);
            lemma_merge_claim_step(t, src, hash, i);
            let loc = reserve_result(t, key, hash)->0 as int;
            let t1 = splice(reserved_buffer(t, key, hash), loc, value_at(src, hs, i));
            let j = reserve_index(t, key, hash);
            let g = header_of(t1);
            let p = lookup_slot(t, k, x)->0;
            lemma_cap_pos(h);
            lemma_lookup_hit(t, h, k, first_index(h, x), probe_limit(h));
            assert(not_a_source_key(src, k, i + 1) && key != k) by {
                reveal(not_a_source_key);
            }
            lemma_claim_keeps_found(t, t1, h, k, first_index(h, x), probe_limit(h), j);
            lemma_same_geometry_walk(t1, h, g, k, first_index(h, x), probe_limit(h), None);
            assert(lookup_slot(t1, k, x) == Some(p));
            assert(value_at(t1, g, p) == value_at(t1, h, p));
            lemma_merge_disjoint_step(t, t1, src, i, j);
            lemma_merge_keeps(t1, src, hashes, i + 1, k, x);
        }
    }
}

proof fn lemma_merge_disjoint_step(t: Seq<u8>, t1: Seq<u8>, src: Seq<u8>, i: int, j: int)
    requires
        is_map(t),
        is_map(src),
        0 <= i < header_of(src).capacity,
        keys_distinct(src),
        keys_disjoint_from(t, src, i),
        header_of(t1) == (MapHeader {
            element_count: header_of(t1).element_count,
            ..header_of(t)
        }),
        status_at(src, header_of(src), i) == STATUS_OCCUPIED,
        key_at(t1, header_of(t), j) == key_at(src, header_of(src), i),
        forall|q: int|
            0 <= q < header_of(t).capacity && q != j ==> #[trigger] status_at(t1, header_of(t), q)
                == status_at(t, header_of(t), q),
        forall|q: int|
            0 <= q < header_of(t).capacity && q != j ==> #[trigger] key_at(t1, header_of(t), q)
                == key_at(t, header_of(t), q),
    ensures
        keys_disjoint_from(t1, src, i + 1),
{
    let h = header_of(t);
    let g = header_of(t1);
    let hs = header_of(src);
    reveal(keys_disjoint_from);
    reveal(keys_distinct);
    assert forall|q: int, a: int|
        0 <= q < g.capacity && i + 1 <= a < hs.capacity && #[trigger] status_at(t1, g, q)
            == STATUS_OCCUPIED && #[trigger] status_at(src, hs, a) == STATUS_OCCUPIED implies key_at(
        t1,
        g,
        q,
    ) != key_at(src, hs, a) by {
        assert(status_at(t1, g, q) == status_at(t1, h, q));
        assert(key_at(t1, g, q) == key_at(t1, h, q));
        if q != j {
            assert(status_at(t, h, q) == STATUS_OCCUPIED);
        }
    }
}

/// Source bucket `a`'s key is found in `u` with the source value.
pub open spec fn holds_entry(u: Seq<u8>, src: Seq<u8>, hashes: Seq<u64>, a: int) -> bool {
    let hs = header_of(src);
    match lookup_slot(u, key_at(src, hs, a), hashes[a]) {
        Some(p) => value_at(u, header_of(u), p) == value_at(src, hs, a),
        None => false,
    }
}

/// A merge that succeeds from source bucket `i` on holds every remaining
/// source entry and counts one more element for each.
#[verifier::rlimit(100)]
proof fn lemma_merge_holds(t: Seq<u8>, src: Seq<u8>, hashes: Seq<u64>, i: int)
    requires
        is_map(t),
        is_map(src),
        t.len() <= usize::MAX,
        header_of(t).key_size == header_of(src).key_size,
        header_of(t).value_size == header_of(src).value_size,
        hashes.len() == header_of(src).capacity,
        0 <= i <= header_of(src).capacity,
        keys_distinct(src),
        keys_disjoint_from(t, src, i),
        merge_from(t, src, hashes, i).0,
    ensures
        is_map(merge_from(t, src, hashes, i).1),
        merge_from(t, src, hashes, i).1.len() == t.len(),
        header_of(merge_from(t, src, hashes, i).1) == (MapHeader {
            element_count: header_of(merge_from(t, src, hashes, i).1).element_count,
            ..header_of(t)
        }),
        header_of(merge_from(t, src, hashes, i).1).element_count == header_of(t).element_count
            + occupied_from_count(src, i),
        forall|a: int|
            i <= a < header_of(src).capacity && status_at(src, header_of(src), a) == STATUS_OCCUPIED
                ==> #[trigger] holds_entry(merge_from(t, src, hashes, i).1, src, hashes, a),
    decreases header_of(src).capacity - i,
{
    let hs = header_of(src);
    let h = header_of(t);
    if i < hs.capacity {
        assert(occupied_count(src, hs, i + 1) == occupied_count(src, hs, i) + if status_at(src, hs, i)
            == STATUS_OCCUPIED {
            1int
        } else {
            0
        });
        if status_at(src, hs, i) != STATUS_OCCUPIED {
            lemma_disjoint_skip(t, src, i);
            lemma_merge_holds(t, src, hashes, i + 1);
            assert(merge_from(t, src, hashes, i) == merge_from(t, src, hashes, i + 1));
        } else {
            let key = key_at(src, hs, i);
            let hash = hashes[i];
            lemma_bucket_in_bounds(hs, i);
            lemma_merge_claim_step(t, src, hash, i);
            let t1 = merge_step_buffer(t, src, hash, i);
            let j = merge_step_index(t, src, hash, i);
            assert(merge_from(t, src, hashes, i) == merge_from(t1, src, hashes, i + 1));
            lemma_merge_disjoint_step(t, t1, src, i, j);
            lemma_merge_holds(t1, src, hashes, i + 1);
            assert(not_a_source_key(src, key, i + 1)) by {
                reveal(not_a_source_key);
                reveal(keys_distinct);
            }
            lemma_merge_keeps(t1, src, hashes, i + 1, key, hash);
            lemma_count_bounds(src, hs, i);
            crate::header::lemma_count_below(t, h, h.capacity as int, j);
            assert(h.element_count + 1 <= u16::MAX);
            let u = merge_from(t, src, hashes, i).1;
            assert(value_at(t1, header_of(t1), j) == value_at(t1, h, j));
            assert(holds_entry(u, src, hashes, i));
            assert forall|a: int|
                i <= a < hs.capacity && status_at(src, hs, a) == STATUS_OCCUPIED implies #[trigger] holds_entry(
                u,
                src,
                hashes,
                a,
            ) by {
                if a > i {
                    assert(holds_entry(merge_from(t1, src, hashes, i + 1).1, src, hashes, a));
                }
            }
        }
    }
}

/// Merge: when the source's keys are distinct and none of them is in the
/// target, a merge that succeeds leaves every source key findable in the
/// target with its source value, and raises the target's element count by
/// exactly the source's. (`overwrite` performs this merge whenever the
/// target's logical limit is at least the source's element count, and
/// fails otherwise.)
pub proof fn lemma_merge_correct(t: Seq<u8>, src: Seq<u8>)
    requires
        is_map(t),
        is_map(src),
        t.len() <= usize::MAX,
        header_of(t).key_size == header_of(src).key_size,
        header_of(t).value_size == header_of(src).value_size,
        keys_distinct(src),
        keys_disjoint_from(t, src, 0),
        merge_from(t, src, source_hashes(src), 0).0,
    ensures
        ({
            let u = merge_from(t, src, source_hashes(src), 0).1;
            let hs = header_of(src);
            &&& is_map(u)
            &&& header_of(u).element_count == header_of(t).element_count + hs.element_count
            &&& forall|a: int|
                0 <= a < hs.capacity && status_at(src, hs, a) == STATUS_OCCUPIED
                    ==> #[trigger] holds_entry(u, src, source_hashes(src), a)
        }),
{
    let hashes = source_hashes(src);
    lemma_merge_holds(t, src, hashes, 0);
}

/// Round trip across other inserts: when a lookup finds `key` in bucket
/// `p`, inserting a different key and writing its value leaves `key` found
/// in `p` with the same value bytes.
pub proof fn lemma_insert_keeps_lookup(
    s: Seq<u8>,
    key: Seq<u8>,
    other: Seq<u8>,
    v: Seq<u8>,
)
    requires
        is_map(s),
        s.len() <= usize::MAX,
        key.len() == header_of(s).key_size,
        other.len() == header_of(s).key_size,
        v.len() == header_of(s).value_size,
        other != key,
        lookup_slot(s, key, fx_hash_of(key)) is Some,
        reserve_result(s, other, fx_hash_of(other)) is Some,
    ensures
        ({
            let u = splice(
                reserved_buffer(s, other, fx_hash_of(other)),
                reserve_result(s, other, fx_hash_of(other))->0 as int,
                v,
            );
            let p = lookup_slot(s, key, fx_hash_of(key))->0;
            &&& is_map(u)
            &&& lookup_slot(u, key, fx_hash_of(key)) == Some(p)
            &&& value_at(u, header_of(u), p) == value_at(s, header_of(s), p)
        }),
{
    let hash = fx_hash_of(key);
    let other_hash = fx_hash_of(other);
    let h = header_of(s);
    let p = lookup_slot(s, key, hash)->0;
    let j = reserve_index(s, other, other_hash);
    lemma_cap_pos(h);
    lemma_lookup_hit(s, h, key, first_index(h, hash), probe_limit(h));
    lemma_reserve_in_range(s, h, other, first_index(h, other_hash), probe_limit(h), None);
    lemma_reserved_location(s, other, other_hash);
    match reserve_slot(s, other, other_hash) {
        Reserve::Claim(_) => {
            lemma_merge_claim_half(s, other, other_hash);
            let t0 = claimed(s, h, j, other);
            lemma_claim_keeps_found(s, t0, h, key, first_index(h, hash), probe_limit(h), j);
            lemma_same_geometry_walk(t0, h, header_of(t0), key, first_index(h, hash), probe_limit(h), None);
            lemma_merge_value_half(t0, h, j, other, other_hash, v);
            let u = splice(t0, value_location(h, j), v);
            lemma_lookup_same_contents(t0, u, h, key, first_index(h, hash), probe_limit(h));
            lemma_same_geometry_walk(u, h, header_of(u), key, first_index(h, hash), probe_limit(h), None);
            assert(value_at(u, h, p) == value_at(t0, h, p));
            assert(value_at(t0, h, p) == value_at(s, h, p));
        },
        Reserve::Existing(_) => {
            lemma_existing_found(s, h, other, first_index(h, other_hash), probe_limit(h), None, j);
            lemma_lookup_hit(s, h, other, first_index(h, other_hash), probe_limit(h));
            lemma_bucket_in_bounds(h, j);
            lemma_value_write(s, h, j, v);
            let u = splice(s, value_location(h, j), v);
            lemma_lookup_same_contents(s, u, h, key, first_index(h, hash), probe_limit(h));
        },
        Reserve::Full => {},
    }
}

/// A lookup passes a tombstone as it passes a bucket holding another key.
proof fn lemma_tombstone_keeps_found(
    s: Seq<u8>,
    t: Seq<u8>,
    h: MapHeader,
    key: Seq<u8>,
    i: int,
    steps: nat,
    q: int,
)
    requires
        header_ok(h),
        0 <= i < h.capacity,
        status_at(s, h, q) == STATUS_OCCUPIED,
        key_at(s, h, q) != key,
        status_at(t, h, q) == STATUS_TOMBSTONE,
        forall|k: int|
            0 <= k < h.capacity && k != q ==> #[trigger] status_at(t, h, k) == status_at(s, h, k),
        forall|k: int| 0 <= k < h.capacity ==> #[trigger] key_at(t, h, k) == key_at(s, h, k),
    ensures
        lookup_from(t, h, key, i, steps) == lookup_from(s, h, key, i, steps),
    decreases steps,
{
    lemma_cap_pos(h);
    if steps > 0 {
        lemma_tombstone_keeps_found(s, t, h, key, next_index(h, i), (steps - 1) as nat, q);
    }
}

/// Round trip across other removals: when a lookup finds `key` in bucket
/// `p`, removing a different key leaves `key` found in `p` with the same
/// value bytes.
pub proof fn lemma_remove_keeps_lookup(
    s: Seq<u8>,
    key: Seq<u8>,
    other: Seq<u8>,
)
    requires
        is_map(s),
        key.len() == header_of(s).key_size,
        other.len() == header_of(s).key_size,
        other != key,
        lookup_slot(s, key, fx_hash_of(key)) is Some,
    ensures
        ({
            let t = removed_buffer(s, other, fx_hash_of(other));
            let p = lookup_slot(s, key, fx_hash_of(key))->0;
            &&& is_map(t)
            &&& lookup_slot(t, key, fx_hash_of(key)) == Some(p)
            &&& value_at(t, header_of(t), p) == value_at(s, header_of(s), p)
        }),
{
    let hash = fx_hash_of(key);
    let other_hash = fx_hash_of(other);
    let h = header_of(s);
    lemma_cap_pos(h);
    if let Some(q) = lookup_slot(s, other, other_hash) {
        lemma_lookup_hit(s, h, other, first_index(h, other_hash), probe_limit(h));
        lemma_removed_frame(s, h, q);
        let t = removed(s, h, q);
        lemma_tombstone_keeps_found(s, t, h, key, first_index(h, hash), probe_limit(h), q);
        lemma_same_geometry_walk(t, h, header_of(t), key, first_index(h, hash), probe_limit(h), None);
        lemma_lookup_hit(s, h, key, first_index(h, hash), probe_limit(h));
        let p = lookup_slot(s, key, hash)->0;
        assert(value_at(t, header_of(t), p) == value_at(t, h, p));
        assert(value_at(t, h, p) == value_at(s, h, p));
        assert(lookup_slot(t, key, hash) == Some(p));
    }
}

/// No occupied bucket of `s` holds `key`.
pub open spec fn key_absent(s: Seq<u8>, key: Seq<u8>) -> bool {
    let h = header_of(s);
    forall|q: int|
        0 <= q < h.capacity ==> !(#[trigger] status_at(s, h, q) == STATUS_OCCUPIED && key_at(s, h, q)
            == key)
}

/// Removal across later inserts: a key that no occupied bucket holds (as
/// after its removal) stays so when a different key is inserted and its
/// value written, and `lookup` of it keeps finding nothing.
pub proof fn lemma_absent_after_insert(s: Seq<u8>, key: Seq<u8>, other: Seq<u8>, v: Seq<u8>)
    requires
        is_map(s),
        s.len() <= usize::MAX,
        key.len() == header_of(s).key_size,
        other.len() == header_of(s).key_size,
        v.len() == header_of(s).value_size,
        other != key,
        key_absent(s, key),
        reserve_result(s, other, fx_hash_of(other)) is Some,
    ensures
        ({
            let u = splice(
                reserved_buffer(s, other, fx_hash_of(other)),
                reserve_result(s, other, fx_hash_of(other))->0 as int,
                v,
            );
            &&& is_map(u)
            &&& key_absent(u, key)
            &&& lookup_slot(u, key, fx_hash_of(key)) is None
        }),
{
    let other_hash = fx_hash_of(other);
    let h = header_of(s);
    let j = reserve_index(s, other, other_hash);
    lemma_cap_pos(h);
    lemma_reserve_in_range(s, h, other, first_index(h, other_hash), probe_limit(h), None);
    lemma_reserved_location(s, other, other_hash);
    let t0 = reserved_buffer(s, other, other_hash);
    if reserve_slot(s, other, other_hash) is Claim {
        lemma_merge_claim_half(s, other, other_hash);
        assert forall|q: int| 0 <= q < h.capacity implies !(#[trigger] status_at(t0, h, q)
            == STATUS_OCCUPIED && key_at(t0, h, q) == key) by {
            if q != j {
                assert(status_at(t0, h, q) == status_at(s, h, q));
                assert(key_at(t0, h, q) == key_at(s, h, q));
            }
        }
    } else {
        assert forall|q: int| 0 <= q < h.capacity implies !(#[trigger] status_at(t0, h, q)
            == STATUS_OCCUPIED && key_at(t0, h, q) == key) by {
            assert(status_at(t0, h, q) == status_at(s, h, q));
        }
    }
    crate::map::lemma_reserve_keeps_map(s, other, other_hash);
    let g = header_of(t0);
    assert(g == (MapHeader { element_count: g.element_count, ..h })) by {
        if reserve_slot(s, other, other_hash) is Claim {
            lemma_merge_claim_half(s, other, other_hash);
        }
    }
    lemma_bucket_in_bounds(g, j);
    lemma_value_write(t0, g, j, v);
    let u = splice(t0, value_location(g, j), v);
    assert forall|q: int| 0 <= q < g.capacity implies !(#[trigger] status_at(u, g, q)
        == STATUS_OCCUPIED && key_at(u, g, q) == key) by {
        assert(status_at(u, g, q) == status_at(t0, g, q));
        assert(key_at(u, g, q) == key_at(t0, g, q));
        assert(status_at(t0, g, q) == status_at(t0, h, q));
        assert(key_at(t0, g, q) == key_at(t0, h, q));
    }
    lemma_cap_pos(g);
    lemma_absent_not_found(u, g, key, first_index(g, fx_hash_of(key)), probe_limit(g));
}

/// Removal across later removals: a key that no occupied bucket holds stays
/// so when any key is removed, and `lookup` of it keeps finding nothing.
pub proof fn lemma_absent_after_remove(s: Seq<u8>, key: Seq<u8>, other: Seq<u8>)
    requires
        is_map(s),
        key.len() == header_of(s).key_size,
        other.len() == header_of(s).key_size,
        key_absent(s, key),
    ensures
        ({
            let t = removed_buffer(s, other, fx_hash_of(other));
            &&& is_map(t)
            &&& key_absent(t, key)
            &&& lookup_slot(t, key, fx_hash_of(key)) is None
        }),
{
    let h = header_of(s);
    let other_hash = fx_hash_of(other);
    lemma_cap_pos(h);
    let t = removed_buffer(s, other, other_hash);
    if let Some(q0) = lookup_slot(s, other, other_hash) {
        lemma_lookup_hit(s, h, other, first_index(h, other_hash), probe_limit(h));
        lemma_removed_frame(s, h, q0);
        let g = header_of(t);
        assert forall|q: int| 0 <= q < g.capacity implies !(#[trigger] status_at(t, g, q)
            == STATUS_OCCUPIED && key_at(t, g, q) == key) by {
            assert(status_at(t, g, q) == status_at(t, h, q));
            assert(key_at(t, g, q) == key_at(t, h, q));
            if q != q0 {
                assert(status_at(t, h, q) == status_at(s, h, q));
            }
        }
        lemma_absent_not_found(t, g, key, first_index(g, fx_hash_of(key)), probe_limit(g));
    } else {
        lemma_absent_not_found(s, h, key, first_index(h, fx_hash_of(key)), probe_limit(h));
    }
}

/// The bucket `d` steps along a probe that starts at `i`.
pub open spec fn probe_at(h: MapHeader, i: int, d: nat) -> int
    decreases d,
{
    if d == 0 {
        i
    } else {
        probe_at(h, next_index(h, i), (d - 1) as nat)
    }
}

/// Bucket `q` lies within the first `steps` buckets of the probe from `i`,
/// with no empty bucket before it.
pub open spec fn reached_from(s: Seq<u8>, h: MapHeader, i: int, steps: nat, q: int) -> bool {
    exists|d: nat|
        d < steps && #[trigger] probe_at(h, i, d) == q && forall|e: nat|
            e < d ==> status_at(s, h, #[trigger] probe_at(h, i, e)) != STATUS_EMPTY
}

/// Every occupied bucket is reached by the probe for its own key.
pub open spec fn keys_reachable(s: Seq<u8>) -> bool {
    let h = header_of(s);
    forall|q: int|
        0 <= q < h.capacity && #[trigger] status_at(s, h, q) == STATUS_OCCUPIED ==> reached_from(
            s,
            h,
            first_index(h, fx_hash_of(key_at(s, h, q))),
            probe_limit(h),
            q,
        )
}

/// A probe that reaches a bucket holding `key` finds it.
proof fn lemma_reached_found(
    s: Seq<u8>,
    h: MapHeader,
    key: Seq<u8>,
    i: int,
    steps: nat,
    tomb: Option<int>,
    q: int,
    d: nat,
)
    requires
        d < steps,
        probe_at(h, i, d) == q,
        forall|e: nat| e < d ==> status_at(s, h, #[trigger] probe_at(h, i, e)) != STATUS_EMPTY,
        status_at(s, h, q) == STATUS_OCCUPIED,
        key_at(s, h, q) == key,
    ensures
        reserve_from(s, h, key, i, steps, tomb) is Existing,
    decreases d,
{
    if d > 0 && !(status_at(s, h, i) == STATUS_OCCUPIED && key_at(s, h, i) == key) {
        assert(probe_at(h, i, 0) == i);
        assert(status_at(s, h, i) != STATUS_EMPTY);
        let t = if status_at(s, h, i) == STATUS_TOMBSTONE && tomb is None {
            Some(i)
        } else {
            tomb
        };
        assert forall|e: nat| e < (d - 1) as nat implies status_at(
            s,
            h,
            #[trigger] probe_at(h, next_index(h, i), e),
        ) != STATUS_EMPTY by {
            assert(probe_at(h, i, e + 1) == probe_at(h, next_index(h, i), e));
        }
        lemma_reached_found(s, h, key, next_index(h, i), (steps - 1) as nat, t, q, (d - 1) as nat);
    }
}

/// The bucket that get-or-reserve claims is reached by the probe.
proof fn lemma_claim_reached(s: Seq<u8>, h: MapHeader, key: Seq<u8>, i: int, steps: nat)
    requires
        reserve_from(s, h, key, i, steps, None) is Claim,
    ensures
        reached_from(s, h, i, steps, reserve_from(s, h, key, i, steps, None)->Claim_0),
    decreases steps,
{
    let j = reserve_from(s, h, key, i, steps, None)->Claim_0;
    assert(probe_at(h, i, 0) == i);
    if status_at(s, h, i) == STATUS_EMPTY {
        assert(j == i);
    } else if status_at(s, h, i) == STATUS_TOMBSTONE {
        lemma_tomb_not_full(s, h, key, next_index(h, i), (steps - 1) as nat, i);
        assert(j == i);
    } else {
        lemma_claim_reached(s, h, key, next_index(h, i), (steps - 1) as nat);
        let d = choose|d: nat|
            d < steps - 1 && #[trigger] probe_at(h, next_index(h, i), d) == j && forall|e: nat|
                e < d ==> status_at(s, h, #[trigger] probe_at(h, next_index(h, i), e))
                    != STATUS_EMPTY;
        assert(probe_at(h, i, d + 1) == j);
        assert forall|e: nat| e < d + 1 implies status_at(s, h, #[trigger] probe_at(h, i, e))
            != STATUS_EMPTY by {
            if e > 0 {
                assert(probe_at(h, i, e) == probe_at(h, next_index(h, i), (e - 1) as nat));
            }
        }
    }
}

/// A reached bucket stays reached when no bucket becomes empty.
proof fn lemma_reached_kept(s: Seq<u8>, t: Seq<u8>, h: MapHeader, i: int, steps: nat, q: int)
    requires
        header_ok(h),
        0 <= i < h.capacity,
        reached_from(s, h, i, steps, q),
        forall|k: int|
            0 <= k < h.capacity && status_at(s, h, k) != STATUS_EMPTY ==> #[trigger] status_at(t, h, k)
                != STATUS_EMPTY,
    ensures
        reached_from(t, h, i, steps, q),
{
    let d = choose|d: nat|
        d < steps && #[trigger] probe_at(h, i, d) == q && forall|e: nat|
            e < d ==> status_at(s, h, #[trigger] probe_at(h, i, e)) != STATUS_EMPTY;
    assert forall|e: nat| e < d implies status_at(t, h, #[trigger] probe_at(h, i, e)) != STATUS_EMPTY by {
        lemma_probe_in_range(h, i, e);
        assert(status_at(s, h, probe_at(h, i, e)) != STATUS_EMPTY);
    }
}

/// A newly initialised map holds no keys, so both hold trivially; and
/// `get_or_reserve_entry` (with the value written) keeps a map whose
/// occupied buckets hold distinct keys, each reached by its own probe.
pub proof fn lemma_reserve_keeps_keys_valid(s: Seq<u8>, key: Seq<u8>, v: Seq<u8>)
    requires
        is_map(s),
        s.len() <= usize::MAX,
        key.len() == header_of(s).key_size,
        v.len() == header_of(s).value_size,
        keys_distinct(s),
        keys_reachable(s),
        reserve_result(s, key, fx_hash_of(key)) is Some,
    ensures
        ({
            let u = splice(
                reserved_buffer(s, key, fx_hash_of(key)),
                reserve_result(s, key, fx_hash_of(key))->0 as int,
                v,
            );
            &&& is_map(u)
            &&& keys_distinct(u)
            &&& keys_reachable(u)
        }),
{
    let hash = fx_hash_of(key);
    let h = header_of(s);
    let j = reserve_index(s, key, hash);
    lemma_cap_pos(h);
    lemma_reserve_in_range(s, h, key, first_index(h, hash), probe_limit(h), None);
    lemma_reserved_location(s, key, hash);
    crate::map::lemma_reserve_keeps_map(s, key, hash);
    let t0 = reserved_buffer(s, key, hash);
    let is_claim = reserve_slot(s, key, hash) is Claim;
    if is_claim {
        lemma_merge_claim_half(s, key, hash);
        lemma_claim_reached(s, h, key, first_index(h, hash), probe_limit(h));
    }
    let g = header_of(t0);
    lemma_bucket_in_bounds(g, j);
    lemma_value_write(t0, g, j, v);
    let u = splice(t0, value_location(g, j), v);
    assert(header_of(u) == g);
    assert(g == (MapHeader { element_count: g.element_count, ..h }));
    // statuses and keys of u, read with the geometry of h
    assert forall|q: int| 0 <= q < h.capacity implies #[trigger] status_at(u, h, q) == (if is_claim
        && q == j {
        STATUS_OCCUPIED
    } else {
        status_at(s, h, q)
    }) by {
        assert(status_at(u, g, q) == status_at(t0, g, q));
        if is_claim && q != j {
            assert(status_at(t0, h, q) == status_at(s, h, q));
        }
    }
    assert forall|q: int| 0 <= q < h.capacity implies #[trigger] key_at(u, h, q) == (if is_claim && q
        == j {
        key
    } else {
        key_at(s, h, q)
    }) by {
        assert(key_at(u, g, q) == key_at(t0, g, q));
        if is_claim && q != j {
            assert(key_at(t0, h, q) == key_at(s, h, q));
        }
    }
    assert forall|k: int| 0 <= k < h.capacity && status_at(s, h, k) != STATUS_EMPTY implies #[trigger] status_at(u, h, k)
        != STATUS_EMPTY by {
        assert(status_at(u, h, k) == (if is_claim && k == j {
            STATUS_OCCUPIED
        } else {
            status_at(s, h, k)
        }));
    }
    reveal(keys_distinct);
    assert forall|a: int, b: int|
        0 <= a < b < g.capacity && #[trigger] status_at(u, g, a) == STATUS_OCCUPIED
            && #[trigger] status_at(u, g, b) == STATUS_OCCUPIED implies key_at(u, g, a) != key_at(
        u,
        g,
        b,
    ) by {
        assert(status_at(u, g, a) == status_at(u, h, a));
        assert(status_at(u, g, b) == status_at(u, h, b));
        assert(key_at(u, g, a) == key_at(u, h, a));
        assert(key_at(u, g, b) == key_at(u, h, b));
        if is_claim && (a == j || b == j) {
            let q = if a == j { b } else { a };
            if key_at(s, h, q) == key {
                let r = reveal_reached(s, h, q);
                lemma_reached_found(s, h, key, first_index(h, hash), probe_limit(h), None, q, r);
            }
        } else {
            assert(status_at(s, h, a) == STATUS_OCCUPIED);
            assert(status_at(s, h, b) == STATUS_OCCUPIED);
        }
    }
    assert forall|q: int| 0 <= q < g.capacity && #[trigger] status_at(u, g, q) == STATUS_OCCUPIED implies reached_from(
        u,
        g,
        first_index(g, fx_hash_of(key_at(u, g, q))),
        probe_limit(g),
        q,
    ) by {
        assert(status_at(u, g, q) == status_at(u, h, q));
        assert(key_at(u, g, q) == key_at(u, h, q));
        if is_claim && q == j {
            lemma_reached_kept(s, u, h, first_index(h, hash), probe_limit(h), q);
        } else {
            assert(status_at(s, h, q) == STATUS_OCCUPIED);
            lemma_reached_kept(s, u, h, first_index(h, fx_hash_of(key_at(s, h, q))), probe_limit(h), q);
        }
        lemma_reached_geometry(u, h, g, first_index(h, fx_hash_of(key_at(u, h, q))), probe_limit(h), q);
    }
}

/// The depth at which an occupied bucket is reached by its own probe.
proof fn reveal_reached(s: Seq<u8>, h: MapHeader, q: int) -> (d: nat)
    requires
        header_of(s) == h,
        keys_reachable(s),
        0 <= q < h.capacity,
        status_at(s, h, q) == STATUS_OCCUPIED,
    ensures
        d < probe_limit(h),
        probe_at(h, first_index(h, fx_hash_of(key_at(s, h, q))), d) == q,
        forall|e: nat|
            e < d ==> status_at(
                s,
                h,
                #[trigger] probe_at(h, first_index(h, fx_hash_of(key_at(s, h, q))), e),
            ) != STATUS_EMPTY,
{
    let i = first_index(h, fx_hash_of(key_at(s, h, q)));
    assert(reached_from(s, h, i, probe_limit(h), q));
    choose|d: nat|
        d < probe_limit(h) && #[trigger] probe_at(h, i, d) == q && forall|e: nat|
            e < d ==> status_at(s, h, #[trigger] probe_at(h, i, e)) != STATUS_EMPTY
}

/// Reaching reads only the capacity and bucket size of the header.
proof fn lemma_reached_geometry(s: Seq<u8>, h: MapHeader, g: MapHeader, i: int, steps: nat, q: int)
    requires
        g.capacity == h.capacity,
        g.bucket_size == h.bucket_size,
        reached_from(s, h, i, steps, q),
    ensures
        reached_from(s, g, i, steps, q),
{
    let d = choose|d: nat|
        d < steps && #[trigger] probe_at(h, i, d) == q && forall|e: nat|
            e < d ==> status_at(s, h, #[trigger] probe_at(h, i, e)) != STATUS_EMPTY;
    lemma_probe_geometry(h, g, i, d);
    assert forall|e: nat| e < d implies status_at(s, g, #[trigger] probe_at(g, i, e)) != STATUS_EMPTY by {
        lemma_probe_geometry(h, g, i, e);
        assert(status_at(s, h, probe_at(h, i, e)) != STATUS_EMPTY);
    }
}

proof fn lemma_probe_in_range(h: MapHeader, i: int, d: nat)
    requires
        header_ok(h),
        0 <= i < h.capacity,
    ensures
        0 <= probe_at(h, i, d) < h.capacity,
    decreases d,
{
    lemma_cap_pos(h);
    if d > 0 {
        lemma_probe_in_range(h, next_index(h, i), (d - 1) as nat);
    }
}

proof fn lemma_probe_geometry(h: MapHeader, g: MapHeader, i: int, d: nat)
    requires
        g.capacity == h.capacity,
    ensures
        probe_at(g, i, d) == probe_at(h, i, d),
    decreases d,
{
    if d > 0 {
        lemma_probe_geometry(h, g, next_index(h, i), (d - 1) as nat);
    }
}

/// `remove` keeps a map whose occupied buckets hold distinct keys, each
/// reached by its own probe.
pub proof fn lemma_remove_keeps_keys_valid(s: Seq<u8>, key: Seq<u8>)
    requires
        is_map(s),
        key.len() == header_of(s).key_size,
        keys_distinct(s),
        keys_reachable(s),
    ensures
        is_map(removed_buffer(s, key, fx_hash_of(key))),
        keys_distinct(removed_buffer(s, key, fx_hash_of(key))),
        keys_reachable(removed_buffer(s, key, fx_hash_of(key))),
{
    let h = header_of(s);
    let hash = fx_hash_of(key);
    lemma_cap_pos(h);
    if let Some(p) = lookup_slot(s, key, hash) {
        lemma_lookup_hit(s, h, key, first_index(h, hash), probe_limit(h));
        lemma_removed_frame(s, h, p);
        let t = removed(s, h, p);
        let g = header_of(t);
        assert forall|k: int| 0 <= k < h.capacity && status_at(s, h, k) != STATUS_EMPTY implies #[trigger] status_at(t, h, k)
            != STATUS_EMPTY by {
            if k != p {
                assert(status_at(t, h, k) == status_at(s, h, k));
            }
        }
        reveal(keys_distinct);
        assert forall|a: int, b: int|
            0 <= a < b < g.capacity && #[trigger] status_at(t, g, a) == STATUS_OCCUPIED
                && #[trigger] status_at(t, g, b) == STATUS_OCCUPIED implies key_at(t, g, a) != key_at(
            t,
            g,
            b,
        ) by {
            assert(status_at(t, g, a) == status_at(t, h, a));
            assert(status_at(t, g, b) == status_at(t, h, b));
            assert(key_at(t, g, a) == key_at(t, h, a));
            assert(key_at(t, g, b) == key_at(t, h, b));
            assert(a != p && b != p);
            assert(status_at(s, h, a) == STATUS_OCCUPIED);
            assert(status_at(s, h, b) == STATUS_OCCUPIED);
        }
        assert forall|q: int| 0 <= q < g.capacity && #[trigger] status_at(t, g, q) == STATUS_OCCUPIED implies reached_from(
            t,
            g,
            first_index(g, fx_hash_of(key_at(t, g, q))),
            probe_limit(g),
            q,
        ) by {
            assert(status_at(t, g, q) == status_at(t, h, q));
            assert(key_at(t, g, q) == key_at(t, h, q));
            assert(q != p);
            assert(status_at(s, h, q) == STATUS_OCCUPIED);
            lemma_reached_kept(s, t, h, first_index(h, fx_hash_of(key_at(s, h, q))), probe_limit(h), q);
            lemma_reached_geometry(t, h, g, first_index(h, fx_hash_of(key_at(t, h, q))), probe_limit(h), q);
        }
    }
}

/// A map with every bucket empty, as `init` leaves it, holds distinct keys,
/// each reached by its own probe.
pub proof fn lemma_empty_keys_valid(s: Seq<u8>)
    requires
        is_map(s),
        forall|i: int|
            0 <= i < header_of(s).capacity ==> #[trigger] status_at(s, header_of(s), i)
                == STATUS_EMPTY,
    ensures
        keys_distinct(s),
        keys_reachable(s),
{
    reveal(keys_distinct);
}

} // verus!
