//! Range normalization: the minimum and maximum timestamp over the ingested
//! events. An empty sequence has no range; that is the "no data" outcome, a
//! legitimate empty result rather than an error.

use vstd::prelude::*;

use crate::event::Event;

verus! {

/// The least timestamp of a non-empty event sequence.
pub open spec fn min_ts(s: Seq<Event>) -> u64
    recommends
        s.len() > 0,
    decreases s.len(),
{
    if s.len() <= 1 {
        s[0].timestamp
    } else {
        let m = min_ts(s.drop_last());
        if s.last().timestamp < m {
            s.last().timestamp
        } else {
            m
        }
    }
}

/// The greatest timestamp of a non-empty event sequence.
pub open spec fn max_ts(s: Seq<Event>) -> u64
    recommends
        s.len() > 0,
    decreases s.len(),
{
    if s.len() <= 1 {
        s[0].timestamp
    } else {
        let m = max_ts(s.drop_last());
        if s.last().timestamp > m {
            s.last().timestamp
        } else {
            m
        }
    }
}

/// `min_ts` and `max_ts` bound every timestamp, and each is attained by some
/// event of the sequence.
pub proof fn lemma_min_max_bounds(s: Seq<Event>)
    requires
        s.len() > 0,
    ensures
        forall|i: int| 0 <= i < s.len() ==> min_ts(s) <= #[trigger] s[i].timestamp,
        forall|i: int| 0 <= i < s.len() ==> #[trigger] s[i].timestamp <= max_ts(s),
        exists|i: int| 0 <= i < s.len() && #[trigger] s[i].timestamp == min_ts(s),
        exists|i: int| 0 <= i < s.len() && #[trigger] s[i].timestamp == max_ts(s),
    decreases s.len(),
{
    if s.len() == 1 {
        assert(s[0].timestamp == min_ts(s));
        assert(s[0].timestamp == max_ts(s));
    } else {
        lemma_min_max_bounds(s.drop_last());
        assert(forall|i: int|
            0 <= i < s.len() - 1 ==> #[trigger] s[i] == s.drop_last()[i]);
        let j = choose|i: int|
            0 <= i < s.drop_last().len() && #[trigger] s.drop_last()[i].timestamp == min_ts(
                s.drop_last(),
            );
        let k = choose|i: int|
            0 <= i < s.drop_last().len() && #[trigger] s.drop_last()[i].timestamp == max_ts(
                s.drop_last(),
            );
        if s.last().timestamp < min_ts(s.drop_last()) {
            assert(s[s.len() - 1].timestamp == min_ts(s));
        } else {
            assert(s[j].timestamp == min_ts(s));
        }
        if s.last().timestamp > max_ts(s.drop_last()) {
            assert(s[s.len() - 1].timestamp == max_ts(s));
        } else {
            assert(s[k].timestamp == max_ts(s));
        }
    }
}

/// When every event carries one and the same timestamp, the normalized range
/// is degenerate: `min_ts` and `max_ts` both equal that timestamp.
pub proof fn lemma_constant_range(s: Seq<Event>, t: u64)
    requires
        s.len() > 0,
        forall|i: int| 0 <= i < s.len() ==> #[trigger] s[i].timestamp == t,
    ensures
        min_ts(s) == t,
        max_ts(s) == t,
    decreases s.len(),
{
    if s.len() > 1 {
        assert(forall|i: int|
            0 <= i < s.len() - 1 ==> #[trigger] s.drop_last()[i] == s[i]);
        lemma_constant_range(s.drop_last(), t);
    }
}

/// Computes the timestamp range of the event sequence: `None` exactly when
/// there are no events, otherwise the least and greatest timestamp.
pub fn time_range(events: &Vec<Event>) -> (r: Option<(u64, u64)>)
    ensures
        r is None <==> events@.len() == 0,
        r matches Some(p) ==> events@.len() > 0 && p.0 == min_ts(events@) && p.1 == max_ts(
            events@,
        ),
{
    if events.len() == 0 {
        return None;
    }
    let mut mn: u64 = events[0].timestamp;
    let mut mx: u64 = events[0].timestamp;
    let mut i: usize = 1;
    while i < events.len()
        invariant
            1 <= i <= events@.len(),
            mn == min_ts(events@.take(i as int)),
            mx == max_ts(events@.take(i as int)),
        decreases events@.len() - i,
    {
        proof {
            assert(events@.take(i + 1).drop_last() =~= events@.take(i as int));
            assert(events@.take(i + 1).last() == events@[i as int]);
        }
        let t = events[i].timestamp;
        if t < mn {
            mn = t;
        }
        if t > mx {
            mx = t;
        }
        i = i + 1;
    }
    proof {
        assert(events@.take(events@.len() as int) =~= events@);
    }
    Some((mn, mx))
}

} // verus!
