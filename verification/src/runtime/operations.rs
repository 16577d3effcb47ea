//! Hostcall operation identifiers.
//!
//! Identifiers are handed out from a cursor that counts up and rolls over
//! from the largest value back to 1; 0 is never used, and an identifier
//! that is still pending is skipped.
use std::collections::HashMap;
use vstd::prelude::*;

verus! {

broadcast use vstd::std_specs::hash::group_hash_axioms;

/// The identifier tried after `id`.
pub open spec fn following_id(id: u64) -> u64 {
    if id == u64::MAX {
        1
    } else {
        (id + 1) as u64
    }
}

/// How many steps the cursor takes from `start` to reach the nonzero
/// identifier `id` (0 when they are equal).
pub open spec fn id_distance(start: u64, id: u64) -> int {
    if id == start {
        0
    } else if start == 0 {
        id as int
    } else if id >= start {
        id - start
    } else {
        u64::MAX - start + id
    }
}

/// An identifier that can be handed out.
pub open spec fn is_free<V>(pending: Map<u64, V>, id: u64) -> bool {
    id != 0 && !pending.contains_key(id)
}

/// Hand out the first free identifier reached from the cursor, and move the
/// cursor past it. Some nonzero identifier must be free.
pub fn next_operation_id<V>(next: &mut u64, operations: &HashMap<u64, V>) -> (r: u64)
    requires
        exists|k: u64| is_free(operations@, k),
    ensures
        is_free(operations@, r),
        forall|k: u64|
            #[trigger] is_free(operations@, k) ==> id_distance(*old(next), r) <= id_distance(
                *old(next),
                k,
            ),
        *final(next) == following_id(r),
{
    let ghost s = *next;
    let ghost w = choose|k: u64| is_free(operations@, k);
    loop
        invariant
            s == *old(next),
            is_free(operations@, w),
            *next == 0 ==> s == 0,
            0 <= id_distance(s, *next) <= id_distance(s, w),
            forall|k: u64|
                #[trigger] is_free(operations@, k) ==> id_distance(s, *next) <= id_distance(s, k),
        decreases id_distance(s, w) - id_distance(s, *next),
    {
        let candidate = *next;
        *next = if candidate == u64::MAX {
            1
        } else {
            candidate + 1
        };
        if candidate != 0 && !operations.contains_key(&candidate) {
            return candidate;
        }
        proof {
            assert(candidate != w);
            assert(id_distance(s, candidate) < id_distance(s, w));
            assert(id_distance(s, *next) == id_distance(s, candidate) + 1);
            assert forall|k: u64| #[trigger] is_free(operations@, k) implies id_distance(
                s,
                *next,
            ) <= id_distance(s, k) by {
                assert(k != candidate);
            }
        }
    }
}

} // verus!
