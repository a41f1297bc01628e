//! Laws of the drop-token accounting, stated over the same spec functions
//! that the engine's contracts use.

use vstd::prelude::*;

use crate::assoc::{keys_unique, map_has, map_idx};
use crate::engine::{seg_referenced, seg_token_count};

verus! {

/// A segment is unreferenced exactly when its token count is zero.
pub proof fn lemma_count_zero(s: Seq<(u64, u64)>, g: u64)
    ensures
        seg_token_count(s, g) == 0 <==> !seg_referenced(s, g),
    decreases s.len(),
{
    if s.len() > 0 {
        lemma_count_zero(s.drop_last(), g);
        if seg_referenced(s, g) {
            let i = choose|i: int| 0 <= i < s.len() && (#[trigger] s[i]).1 == g;
            if i < s.len() - 1 {
                assert(s.drop_last()[i].1 == g);
            }
        }
        if seg_referenced(s.drop_last(), g) {
            let i = choose|i: int|
                0 <= i < s.drop_last().len() && (#[trigger] s.drop_last()[i]).1 == g;
            assert(s[i].1 == g);
        }
    }
}

/// Releasing one token for a segment lowers that segment's count by exactly
/// one, and the segment becomes unreferenced precisely when this token was
/// the last one: the engine frees the backing on the Nth drop exactly when N
/// equals the number of recorded deliveries.
pub proof fn lemma_drop_decrements_count(s: Seq<(u64, u64)>, i: int)
    requires
        0 <= i < s.len(),
    ensures
        seg_token_count(s.remove(i), s[i].1) == seg_token_count(s, s[i].1) - 1,
        !seg_referenced(s.remove(i), s[i].1) <==> seg_token_count(s, s[i].1) == 1,
    decreases s.len(),
{
    let g = s[i].1;
    if i == s.len() - 1 {
        assert(s.remove(i) == s.drop_last());
    } else {
        lemma_drop_decrements_count(s.drop_last(), i);
        assert(s.remove(i).drop_last() == s.drop_last().remove(i));
        assert(s.remove(i).last() == s.last());
    }
    lemma_count_zero(s.remove(i), g);
    lemma_count_remove_other(s, i, g);
}

/// Removing an entry can only change the count of its own segment.
proof fn lemma_count_remove_other(s: Seq<(u64, u64)>, i: int, g: u64)
    requires
        0 <= i < s.len(),
    ensures
        s[i].1 != g ==> seg_token_count(s.remove(i), g) == seg_token_count(s, g),
    decreases s.len(),
{
    if i == s.len() - 1 {
        assert(s.remove(i) == s.drop_last());
    } else {
        lemma_count_remove_other(s.drop_last(), i, g);
        assert(s.remove(i).drop_last() == s.drop_last().remove(i));
        assert(s.remove(i).last() == s.last());
    }
}

/// What remains after every token of segment `g` is released, in any order:
/// entries for other segments, in their original order.
pub open spec fn drop_all_for(s: Seq<(u64, u64)>, g: u64) -> Seq<(u64, u64)>
    decreases s.len(),
{
    if s.len() == 0 {
        s
    } else if s.last().1 == g {
        drop_all_for(s.drop_last(), g)
    } else {
        drop_all_for(s.drop_last(), g).push(s.last())
    }
}

/// A table that never referenced the segment is left exactly as it was.
pub proof fn lemma_drop_all_untouched(s: Seq<(u64, u64)>, g: u64)
    requires
        !seg_referenced(s, g),
    ensures
        drop_all_for(s, g) == s,
    decreases s.len(),
{
    if s.len() > 0 {
        assert forall|i: int| 0 <= i < s.drop_last().len() implies (
        #[trigger] s.drop_last()[i]).1 != g by {
            assert(s[i].1 != g);
        }
        lemma_drop_all_untouched(s.drop_last(), g);
        assert(drop_all_for(s, g) =~= s);
    }
}

/// The fan-out round trip: a send records fresh tokens for its segment on
/// top of an accounting table that does not reference that segment; once
/// every one of those tokens is released, the table is back to exactly its
/// state before the send, and the count that governs freeing equals the
/// number of recorded deliveries throughout.
pub proof fn lemma_send_then_drops_restore(
    sent0: Seq<(u64, u64)>,
    added: Seq<(u64, u64)>,
    g: u64,
)
    requires
        !seg_referenced(sent0, g),
        forall|i: int| 0 <= i < added.len() ==> (#[trigger] added[i]).1 == g,
    ensures
        seg_token_count(sent0 + added, g) == added.len(),
        drop_all_for(sent0 + added, g) == sent0,
    decreases added.len(),
{
    if added.len() == 0 {
        assert(sent0 + added =~= sent0);
        lemma_count_zero(sent0, g);
        lemma_count_empty(sent0, g);
        lemma_drop_all_untouched(sent0, g);
    } else {
        let rest = added.drop_last();
        assert forall|i: int| 0 <= i < rest.len() implies (#[trigger] rest[i]).1 == g by {
            assert(added[i].1 == g);
        }
        lemma_send_then_drops_restore(sent0, rest, g);
        assert((sent0 + added).drop_last() =~= sent0 + rest);
        assert((sent0 + added).last() == added.last());
    }
}

/// An unreferenced segment has count zero.
proof fn lemma_count_empty(s: Seq<(u64, u64)>, g: u64)
    requires
        !seg_referenced(s, g),
    ensures
        seg_token_count(s, g) == 0,
{
    lemma_count_zero(s, g);
}

/// A token table with unique keys maps a recorded token to one place: the
/// entry `map_idx` finds. Releasing a token therefore acts on exactly one
/// recorded delivery.
pub proof fn lemma_token_release_unique(s: Seq<(u64, u64)>, t: u64)
    requires
        keys_unique(s),
        map_has(s, t),
    ensures
        0 <= map_idx(s, t) < s.len(),
        s[map_idx(s, t)].0 == t,
        forall|i: int| 0 <= i < s.len() && (#[trigger] s[i]).0 == t ==> i == map_idx(s, t),
{
    let x = map_idx(s, t);
    assert forall|i: int| 0 <= i < s.len() && (#[trigger] s[i]).0 == t implies i == x by {
        if i < x {
            assert(s[i].0 != s[x].0);
        } else if x < i {
            assert(s[x].0 != s[i].0);
        }
    }
}

} // verus!
