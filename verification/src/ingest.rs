//! Ingestion: apply the parser to every line in order, keep the events of the
//! lines that parse, and collect a diagnostic for every line that does not.
//! A bad line never stops ingestion, and an empty result is a valid outcome.

use vstd::prelude::*;

use crate::event::BadEvent;
use crate::event::Event;
use crate::event::SpecBad;
use crate::event::spec_parse;

verus! {

/// The events of the lines that parse, in input order.
pub open spec fn valid_events(ls: Seq<Seq<char>>) -> Seq<Event>
    decreases ls.len(),
{
    if ls.len() == 0 {
        Seq::empty()
    } else {
        let pre = valid_events(ls.drop_last());
        match spec_parse(ls.last()) {
            Ok(e) => pre.push(e),
            Err(_) => pre,
        }
    }
}

/// The errors of the lines that do not parse, in input order.
pub open spec fn parse_errors(ls: Seq<Seq<char>>) -> Seq<SpecBad>
    decreases ls.len(),
{
    if ls.len() == 0 {
        Seq::empty()
    } else {
        let pre = parse_errors(ls.drop_last());
        match spec_parse(ls.last()) {
            Ok(_) => pre,
            Err(b) => pre.push(b),
        }
    }
}

/// The number of lines that parse.
pub open spec fn count_valid(ls: Seq<Seq<char>>) -> nat
    decreases ls.len(),
{
    if ls.len() == 0 {
        0
    } else {
        count_valid(ls.drop_last()) + match spec_parse(ls.last()) {
            Ok(_) => 1nat,
            Err(_) => 0nat,
        }
    }
}

/// Ingesting a sequence with `k` lines that parse and `m` lines that do not,
/// interleaved in any order, yields exactly `k` events and `m` diagnostics.
pub proof fn lemma_ingest_counts(ls: Seq<Seq<char>>)
    ensures
        valid_events(ls).len() == count_valid(ls),
        parse_errors(ls).len() == ls.len() - count_valid(ls),
    decreases ls.len(),
{
    if ls.len() > 0 {
        lemma_ingest_counts(ls.drop_last());
    }
}

/// Ingestion is compositional: the events of a concatenation are the events
/// of the first part followed by the events of the second, so each event
/// keeps the relative position of its line.
pub proof fn lemma_valid_events_concat(a: Seq<Seq<char>>, b: Seq<Seq<char>>)
    ensures
        valid_events(a + b) == valid_events(a) + valid_events(b),
    decreases b.len(),
{
    if b.len() == 0 {
        assert(a + b =~= a);
        assert(valid_events(a) + valid_events(b) =~= valid_events(a));
    } else {
        lemma_valid_events_concat(a, b.drop_last());
        assert((a + b).drop_last() =~= a + b.drop_last());
        assert((a + b).last() == b.last());
        match spec_parse(b.last()) {
            Ok(e) => {
                assert(valid_events(a) + valid_events(b) =~= (valid_events(a) + valid_events(
                    b.drop_last(),
                )).push(e));
            },
            Err(_) => {},
        }
    }
}

/// The views of a sequence of owned lines.
pub open spec fn line_views(lines: Seq<String>) -> Seq<Seq<char>> {
    lines.map_values(|l: String| l@)
}

/// Parses every line in order; the events of the lines that parse land in the
/// first result, the diagnostics of the others in the second, both in input
/// order.
pub fn ingest(lines: &Vec<String>) -> (r: (Vec<Event>, Vec<BadEvent>))
    ensures
        r.0@ == valid_events(line_views(lines@)),
        r.1@.map_values(|b: BadEvent| b@) == parse_errors(line_views(lines@)),
{
    let ghost ls = line_views(lines@);
    let mut events: Vec<Event> = Vec::new();
    let mut errs: Vec<BadEvent> = Vec::new();
    let mut i: usize = 0;
    while i < lines.len()
        invariant
            ls == line_views(lines@),
            ls.len() == lines@.len(),
            0 <= i <= lines@.len(),
            events@ == valid_events(ls.take(i as int)),
            errs@.map_values(|b: BadEvent| b@) == parse_errors(ls.take(i as int)),
        decreases lines@.len() - i,
    {
        proof {
            assert(ls.take(i + 1).drop_last() =~= ls.take(i as int));
            assert(ls.take(i + 1).last() == ls[i as int]);
            assert(ls[i as int] == lines@[i as int]@);
        }
        match Event::from_line(lines[i].as_str()) {
            Ok(e) => {
                events.push(e);
            },
            Err(b) => {
                let ghost pre = errs@;
                errs.push(b);
                proof {
                    assert(errs@.map_values(|x: BadEvent| x@) =~= pre.map_values(
                        |x: BadEvent| x@,
                    ).push(b@));
                }
            },
        }
        i = i + 1;
    }
    proof {
        assert(ls.take(lines@.len() as int) =~= ls);
    }
    (events, errs)
}

} // verus!
