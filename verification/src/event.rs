//! The event record type and the line parser.
//!
//! A line has the form `(channel, timestamp, note)`: it must begin with `(`
//! and end with `)`; the interior is split into at most three segments by the
//! first two occurrences of the separator `", "`, and the segments are decoded
//! as decimal integers (`u8`, `u64`, `u8` in that order).

use vstd::prelude::*;

verus! {

/// One parsed event record.
#[derive(Clone, Copy, Debug, PartialEq, Eq, Structural)]
pub struct Event {
    /// Palette index; values 0..16 select a color at rasterization time.
    pub channel: u8,
    /// Position along the horizontal axis after range normalization.
    pub timestamp: u64,
    /// Used directly as the vertical pixel coordinate.
    pub note: u8,
}

/// A decimal digit character.
pub open spec fn is_digit(c: char) -> bool {
    '0' <= c && c <= '9'
}

/// Numeric value of a digit character.
pub open spec fn digit_val(c: char) -> int {
    c as int - '0' as int
}

/// A non-empty sequence of decimal digits.
pub open spec fn is_dec_seq(s: Seq<char>) -> bool {
    s.len() > 0 && forall|i: int| 0 <= i < s.len() ==> is_digit(#[trigger] s[i])
}

/// The number denoted by a digit sequence, most significant digit first.
pub open spec fn dec_val(s: Seq<char>) -> int
    decreases s.len(),
{
    if s.len() == 0 {
        0
    } else {
        dec_val(s.drop_last()) * 10 + digit_val(s.last())
    }
}

proof fn lemma_dec_val_nonneg(s: Seq<char>)
    requires
        forall|i: int| 0 <= i < s.len() ==> is_digit(#[trigger] s[i]),
    ensures
        dec_val(s) >= 0,
    decreases s.len(),
{
    if s.len() > 0 {
        lemma_dec_val_nonneg(s.drop_last());
    }
}

/// Reading more digits never decreases the denoted value.
proof fn lemma_dec_val_prefix(s: Seq<char>, k: int)
    requires
        0 <= k <= s.len(),
        forall|i: int| 0 <= i < s.len() ==> is_digit(#[trigger] s[i]),
    ensures
        dec_val(s.take(k)) <= dec_val(s),
    decreases s.len() - k,
{
    if k == s.len() {
        assert(s.take(k) =~= s);
    } else {
        lemma_dec_val_prefix(s, k + 1);
        let t = s.take(k + 1);
        assert(t.drop_last() =~= s.take(k));
        lemma_dec_val_nonneg(s.take(k));
        assert(dec_val(s.take(k)) <= dec_val(t));
    }
}

/// The two-character separator `", "` occurs at index `i` of `s`.
pub open spec fn sep_at(s: Seq<char>, i: int) -> bool {
    0 <= i && i + 2 <= s.len() && s[i] == ',' && s[i + 1] == ' '
}

/// Index of the first occurrence of the separator `", "` in `s`, if any.
pub open spec fn find_sep(s: Seq<char>) -> Option<int>
    decreases s.len(),
{
    if s.len() < 2 {
        None
    } else if s[0] == ',' && s[1] == ' ' {
        Some(0)
    } else {
        match find_sep(s.skip(1)) {
            Some(i) => Some(i + 1),
            None => None,
        }
    }
}

/// `find_sep` returns the least separator position, or `None` when the
/// separator does not occur at all.
proof fn lemma_find_sep(s: Seq<char>)
    ensures
        match find_sep(s) {
            Some(i) => sep_at(s, i) && forall|j: int| 0 <= j < i ==> !sep_at(s, j),
            None => forall|j: int| !sep_at(s, j),
        },
    decreases s.len(),
{
    if s.len() < 2 {
    } else if s[0] == ',' && s[1] == ' ' {
    } else {
        let t = s.skip(1);
        lemma_find_sep(t);
        assert forall|j: int| 1 <= j && sep_at(s, j) implies sep_at(t, j - 1) by {
            assert(t[j - 1] == s[j]);
            assert(t[j] == s[j + 1]);
        }
        assert forall|j: int| sep_at(t, j) implies sep_at(s, j + 1) by {
            assert(t[j] == s[j + 1]);
            assert(t[j + 1] == s[j + 2]);
        }
        match find_sep(t) {
            Some(i) => {
                assert(sep_at(s, i + 1));
                assert forall|j: int| 0 <= j < i + 1 implies !sep_at(s, j) by {
                    if j == 0 {
                    } else {
                        assert(!sep_at(t, j - 1));
                    }
                }
            },
            None => {
                assert forall|j: int| !sep_at(s, j) by {
                    if j >= 1 {
                        assert(!sep_at(t, j - 1));
                    }
                }
            },
        }
    }
}

/// Position of the first `", "` in `s`, scanning left to right.
fn find_sep_str(s: &str) -> (r: Option<usize>)
    ensures
        match r {
            Some(i) => find_sep(s@) == Some(i as int),
            None => find_sep(s@) is None,
        },
{
    let n = s.unicode_len();
    if n < 2 {
        proof {
            lemma_find_sep(s@);
            match find_sep(s@) {
                Some(k) => {
                    assert(sep_at(s@, k));
                    assert(false);
                },
                None => {},
            }
        }
        return None;
    }
    let mut i: usize = 0;
    while i <= n - 2
        invariant
            n == s@.len(),
            2 <= n,
            0 <= i <= n,
            forall|j: int| 0 <= j < i ==> !sep_at(s@, j),
        decreases n - i,
    {
        let c0 = s.get_char(i);
        let c1 = s.get_char(i + 1);
        if c0 == ',' && c1 == ' ' {
            proof {
                lemma_find_sep(s@);
                assert(sep_at(s@, i as int));
                match find_sep(s@) {
                    Some(k) => {
                        if k < i {
                            assert(!sep_at(s@, k));
                        }
                        if k > i {
                            assert(!sep_at(s@, i as int));
                        }
                    },
                    None => {
                        assert(!sep_at(s@, i as int));
                    },
                }
            }
            return Some(i);
        }
        i = i + 1;
    }
    proof {
        lemma_find_sep(s@);
        match find_sep(s@) {
            Some(k) => {
                assert(sep_at(s@, k));
                assert(false);
            },
            None => {},
        }
    }
    None
}

/// Decodes a whole string as an unsigned decimal number, failing on an empty
/// string, any non-digit character, or a value that does not fit in a `u64`.
/// The grammar is plain decimal by design: a sign counts as a non-digit, so
/// even a leading `+` makes the field malformed.
pub fn parse_u64_str(s: &str) -> (r: Option<u64>)
    ensures
        r matches Some(v) ==> is_dec_seq(s@) && dec_val(s@) == v as int,
        r is None ==> !(is_dec_seq(s@) && dec_val(s@) <= u64::MAX),
{
    let n = s.unicode_len();
    if n == 0 {
        return None;
    }
    let mut acc: u64 = 0;
    let mut i: usize = 0;
    while i < n
        invariant
            0 < n == s@.len(),
            0 <= i <= n,
            forall|j: int| 0 <= j < i ==> is_digit(#[trigger] s@[j]),
            acc as int == dec_val(s@.take(i as int)),
        decreases n - i,
    {
        let c = s.get_char(i);
        if c < '0' || c > '9' {
            return None;
        }
        let d: u64 = (c as u32 - '0' as u32) as u64;
        proof {
            assert(s@.take(i + 1).drop_last() =~= s@.take(i as int));
            assert(s@.take(i + 1).last() == s@[i as int]);
        }
        if acc > (u64::MAX - d) / 10 {
            proof {
                assert(dec_val(s@.take(i + 1)) == acc * 10 + d);
                assert(acc * 10 + d > u64::MAX) by (nonlinear_arith)
                    requires
                        acc > (u64::MAX - d) / 10,
                        0 <= d <= 9,
                {}
                if is_dec_seq(s@) {
                    lemma_dec_val_prefix(s@, i + 1);
                }
            }
            return None;
        }
        acc = acc * 10 + d;
        i = i + 1;
    }
    proof {
        assert(s@.take(n as int) =~= s@);
    }
    Some(acc)
}

/// Decodes a whole string as a decimal `u8`, failing where [`parse_u64_str`]
/// fails or the value exceeds 255.
pub fn parse_u8_str(s: &str) -> (r: Option<u8>)
    ensures
        r matches Some(v) ==> is_dec_seq(s@) && dec_val(s@) == v as int,
        r is None ==> !(is_dec_seq(s@) && dec_val(s@) <= u8::MAX),
{
    match parse_u64_str(s) {
        Some(v) => {
            if v <= 255 {
                Some(v as u8)
            } else {
                None
            }
        },
        None => None,
    }
}

/// Mathematical form of a parse error: which field failed, with the offending
/// segment where one was present, or the whole line where the `(...)` wrapper
/// was missing.
pub enum SpecBad {
    Channel(Option<Seq<char>>),
    Timestamp(Option<Seq<char>>),
    Note(Option<Seq<char>>),
    Entire(Seq<char>),
}

/// A parse error as the parser returns it, carrying the offending text.
#[derive(Debug, PartialEq, Eq)]
pub enum BadEvent {
    /// The channel segment is missing or is not a decimal `u8`.
    Channel(Option<String>),
    /// The timestamp segment is missing or is not a decimal `u64`.
    Timestamp(Option<String>),
    /// The note segment is missing or is not a decimal `u8`.
    Note(Option<String>),
    /// The line lacks the `(...)` wrapper.
    Entire(String),
}

impl View for BadEvent {
    type V = SpecBad;

    open spec fn view(&self) -> SpecBad {
        match self {
            BadEvent::Channel(o) => SpecBad::Channel(
                match o {
                    Some(s) => Some(s@),
                    None => None,
                },
            ),
            BadEvent::Timestamp(o) => SpecBad::Timestamp(
                match o {
                    Some(s) => Some(s@),
                    None => None,
                },
            ),
            BadEvent::Note(o) => SpecBad::Note(
                match o {
                    Some(s) => Some(s@),
                    None => None,
                },
            ),
            BadEvent::Entire(s) => SpecBad::Entire(s@),
        }
    }
}

/// The line begins with `(` and ends with `)`.
pub open spec fn wrapped(s: Seq<char>) -> bool {
    s.len() >= 2 && s[0] == '(' && s[s.len() - 1] == ')'
}

/// A digit sequence that denotes a value no greater than `bound`.
pub open spec fn is_dec_value(s: Seq<char>, bound: int) -> bool {
    is_dec_seq(s) && dec_val(s) <= bound
}

/// Splits the interior of a line at the first separator: the segment before
/// it, and the remainder after it where a separator occurs at all.
pub open spec fn split_first(s: Seq<char>) -> (Seq<char>, Option<Seq<char>>) {
    match find_sep(s) {
        Some(i) => (s.take(i), Some(s.skip(i + 2))),
        None => (s, None),
    }
}

/// What parsing the interior of a wrapped line yields: the three segments are
/// decoded in order, and the first missing or malformed one names the error.
pub open spec fn spec_parse_inner(inner: Seq<char>) -> Result<Event, SpecBad> {
    let (chan_seg, rest1) = split_first(inner);
    if !is_dec_value(chan_seg, u8::MAX as int) {
        Err(SpecBad::Channel(Some(chan_seg)))
    } else {
        match rest1 {
            None => Err(SpecBad::Timestamp(None)),
            Some(r1) => {
                let (ts_seg, rest2) = split_first(r1);
                if !is_dec_value(ts_seg, u64::MAX as int) {
                    Err(SpecBad::Timestamp(Some(ts_seg)))
                } else {
                    match rest2 {
                        None => Err(SpecBad::Note(None)),
                        Some(note_seg) => {
                            if !is_dec_value(note_seg, u8::MAX as int) {
                                Err(SpecBad::Note(Some(note_seg)))
                            } else {
                                Ok(
                                    Event {
                                        channel: dec_val(chan_seg) as u8,
                                        timestamp: dec_val(ts_seg) as u64,
                                        note: dec_val(note_seg) as u8,
                                    },
                                )
                            }
                        },
                    }
                }
            },
        }
    }
}

/// What parsing a whole line yields: a line without the `(...)` wrapper is
/// rejected whole; otherwise the interior is decoded by [`spec_parse_inner`].
pub open spec fn spec_parse(s: Seq<char>) -> Result<Event, SpecBad> {
    if !wrapped(s) {
        Err(SpecBad::Entire(s))
    } else {
        spec_parse_inner(s.subrange(1, s.len() - 1))
    }
}

impl Event {
    /// Parses an [`Event`] from one line of text; the result is exactly what
    /// [`spec_parse`] assigns to the line.
    pub fn from_line(line: &str) -> (r: Result<Event, BadEvent>)
        ensures
            match r {
                Ok(e) => spec_parse(line@) == Ok::<Event, SpecBad>(e),
                Err(b) => spec_parse(line@) == Err::<Event, SpecBad>(b@),
            },
    {
        let n = line.unicode_len();
        if n < 2 {
            return Err(BadEvent::Entire(line.to_owned()));
        }
        let first = line.get_char(0);
        let last = line.get_char(n - 1);
        if first != '(' || last != ')' {
            return Err(BadEvent::Entire(line.to_owned()));
        }
        let inner = line.substring_char(1, n - 1);
        let inner_len = n - 2;
        proof {
            assert(inner@ == line@.subrange(1, line@.len() - 1));
            assert(inner@.len() == inner_len);
        }
        let (chan_seg, rest1): (&str, Option<&str>) = match find_sep_str(inner) {
            Some(i) => {
                proof {
                    lemma_find_sep(inner@);
                }
                (inner.substring_char(0, i), Some(inner.substring_char(i + 2, inner_len)))
            },
            None => (inner, None),
        };
        proof {
            assert(chan_seg@ == split_first(inner@).0);
            match rest1 {
                Some(r1) => assert(split_first(inner@).1 == Some(r1@)),
                None => assert(split_first(inner@).1 is None),
            }
        }
        let channel = match parse_u8_str(chan_seg) {
            Some(v) => v,
            None => {
                return Err(BadEvent::Channel(Some(chan_seg.to_owned())));
            },
        };
        let rest1 = match rest1 {
            Some(r1) => r1,
            None => {
                return Err(BadEvent::Timestamp(None));
            },
        };
        let rest1_len = rest1.unicode_len();
        let (ts_seg, rest2): (&str, Option<&str>) = match find_sep_str(rest1) {
            Some(i) => {
                proof {
                    lemma_find_sep(rest1@);
                }
                (rest1.substring_char(0, i), Some(rest1.substring_char(i + 2, rest1_len)))
            },
            None => (rest1, None),
        };
        proof {
            assert(ts_seg@ == split_first(rest1@).0);
            match rest2 {
                Some(r2) => assert(split_first(rest1@).1 == Some(r2@)),
                None => assert(split_first(rest1@).1 is None),
            }
        }
        let timestamp = match parse_u64_str(ts_seg) {
            Some(v) => v,
            None => {
                return Err(BadEvent::Timestamp(Some(ts_seg.to_owned())));
            },
        };
        let note_seg = match rest2 {
            Some(r2) => r2,
            None => {
                return Err(BadEvent::Note(None));
            },
        };
        let note = match parse_u8_str(note_seg) {
            Some(v) => v,
            None => {
                return Err(BadEvent::Note(Some(note_seg.to_owned())));
            },
        };
        Ok(Event { channel, timestamp, note })
    }
}

/// A separator preceded by no comma at all is the first separator.
proof fn lemma_first_sep_at(s: Seq<char>, k: int)
    requires
        sep_at(s, k),
        forall|j: int| 0 <= j < k ==> s[j] != ',',
    ensures
        find_sep(s) == Some(k),
{
    lemma_find_sep(s);
    match find_sep(s) {
        Some(i) => {
            if i < k {
                assert(s[i] == ',');
                assert(false);
            }
            if i > k {
                assert(!sep_at(s, k));
                assert(false);
            }
        },
        None => {
            assert(!sep_at(s, k));
            assert(false);
        },
    }
}

/// Every well-formed line parses: wrapping three in-range decimal numerals in
/// the tuple grammar always yields the event with exactly those values.
pub proof fn lemma_wellformed_line_parses(a: Seq<char>, b: Seq<char>, c: Seq<char>)
    requires
        is_dec_seq(a),
        dec_val(a) <= u8::MAX,
        is_dec_seq(b),
        dec_val(b) <= u64::MAX,
        is_dec_seq(c),
        dec_val(c) <= u8::MAX,
    ensures
        spec_parse(seq!['('] + a + seq![',', ' '] + b + seq![',', ' '] + c + seq![')'])
            == Ok::<Event, SpecBad>(
            Event {
                channel: dec_val(a) as u8,
                timestamp: dec_val(b) as u64,
                note: dec_val(c) as u8,
            },
        ),
{
    let sep = seq![',', ' '];
    let line = seq!['('] + a + sep + b + sep + c + seq![')'];
    let n = line.len() as int;
    let tail1 = sep + b + sep + c;
    let r1 = b + sep + c;
    let tail2 = sep + c;
    assert(line[0] == '(');
    assert(line[n - 1] == ')');
    assert(wrapped(line));
    let inner = line.subrange(1, n - 1);
    assert(inner =~= a + tail1);
    assert(tail1 =~= sep + r1);
    assert(r1 =~= b + tail2);
    assert(',' < '0');
    // the channel segment ends at the first separator
    assert(inner[a.len() as int] == ',');
    assert(inner[a.len() as int + 1] == ' ');
    assert(sep_at(inner, a.len() as int));
    assert forall|j: int| 0 <= j < a.len() implies inner[j] != ',' by {
        assert(inner[j] == a[j]);
        assert(is_digit(a[j]));
    }
    lemma_first_sep_at(inner, a.len() as int);
    assert(inner.take(a.len() as int) =~= a);
    assert(inner.skip(a.len() as int + 2) =~= r1);
    // the timestamp segment ends at the first separator of the remainder
    assert(r1[b.len() as int] == ',');
    assert(r1[b.len() as int + 1] == ' ');
    assert(sep_at(r1, b.len() as int));
    assert forall|j: int| 0 <= j < b.len() implies r1[j] != ',' by {
        assert(r1[j] == b[j]);
        assert(is_digit(b[j]));
    }
    lemma_first_sep_at(r1, b.len() as int);
    assert(r1.take(b.len() as int) =~= b);
    assert(r1.skip(b.len() as int + 2) =~= c);
    // all three segments decode, so the parse succeeds with their values
    lemma_dec_val_nonneg(a);
    lemma_dec_val_nonneg(b);
    lemma_dec_val_nonneg(c);
    assert(is_dec_value(a, u8::MAX as int));
    assert(is_dec_value(b, u64::MAX as int));
    assert(is_dec_value(c, u8::MAX as int));
}

/// A line without the `(...)` wrapper is rejected whole, with the line itself
/// as the error's payload.
pub proof fn lemma_unwrapped_rejected(s: Seq<char>)
    requires
        !wrapped(s),
    ensures
        spec_parse(s) == Err::<Event, SpecBad>(SpecBad::Entire(s)),
{
}

/// Behind a confirmed wrapper, a missing or malformed leading segment is
/// charged to the channel field, and the error carries that segment.
pub proof fn lemma_bad_channel_named(s: Seq<char>)
    requires
        wrapped(s),
        !is_dec_value(split_first(s.subrange(1, s.len() - 1)).0, u8::MAX as int),
    ensures
        spec_parse(s) == Err::<Event, SpecBad>(
            SpecBad::Channel(Some(split_first(s.subrange(1, s.len() - 1)).0)),
        ),
{
}

/// Behind a confirmed wrapper and a valid channel, a missing second segment
/// or one that is no `u64` numeral is charged to the timestamp field.
pub proof fn lemma_bad_timestamp_named(s: Seq<char>)
    requires
        wrapped(s),
        is_dec_value(split_first(s.subrange(1, s.len() - 1)).0, u8::MAX as int),
        match split_first(s.subrange(1, s.len() - 1)).1 {
            None => true,
            Some(r1) => !is_dec_value(split_first(r1).0, u64::MAX as int),
        },
    ensures
        spec_parse(s) == Err::<Event, SpecBad>(
            match split_first(s.subrange(1, s.len() - 1)).1 {
                None => SpecBad::Timestamp(None),
                Some(r1) => SpecBad::Timestamp(Some(split_first(r1).0)),
            },
        ),
{
}

/// Behind a confirmed wrapper and valid channel and timestamp segments, a
/// missing or malformed remainder is charged to the note field.
pub proof fn lemma_bad_note_named(s: Seq<char>)
    requires
        wrapped(s),
        is_dec_value(split_first(s.subrange(1, s.len() - 1)).0, u8::MAX as int),
        split_first(s.subrange(1, s.len() - 1)).1 matches Some(r1)
            && is_dec_value(split_first(r1).0, u64::MAX as int)
            && match split_first(r1).1 {
                None => true,
                Some(note_seg) => !is_dec_value(note_seg, u8::MAX as int),
            },
    ensures
        spec_parse(s) == Err::<Event, SpecBad>(
            {
                let r1 = split_first(s.subrange(1, s.len() - 1)).1->Some_0;
                match split_first(r1).1 {
                    None => SpecBad::Note(None),
                    Some(note_seg) => SpecBad::Note(Some(note_seg)),
                }
            },
        ),
{
}

} // verus!
