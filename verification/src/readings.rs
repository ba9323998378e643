//! The input format: a sequence of rows `<station>;<temperature>` where the
//! temperature has one of the four shapes `X.Y`, `XX.Y`, `-X.Y`, `-XX.Y`.
//! Rows are normally separated by `\n`; blank lines are skipped.
//!
//! The spec functions here describe exactly which bytes the scanner reads and
//! what it makes of them; temperatures are kept as integers in tenths.
use vstd::prelude::*;
use crate::stats::sound_readings;

verus! {

/// `\n`, which ends a row.
pub const NEWLINE: u8 = 10;

/// `;`, which ends a station name.
pub const SEMICOLON: u8 = 59;

/// `-`, the sign of a negative temperature.
pub const MINUS: u8 = 45;

/// `.`, the decimal point.
pub const DOT: u8 = 46;

/// The ASCII digit `0`.
pub const ZERO: u8 = 48;

/// The ASCII digit `9`.
pub const NINE: u8 = 57;

/// A station name together with one temperature reading, in tenths of a degree.
pub type Reading = (Seq<u8>, int);

pub open spec fn is_digit(c: u8) -> bool {
    ZERO <= c <= NINE
}

pub open spec fn digit_value(c: u8) -> int {
    c - ZERO
}

/// The first index at or after `from` that holds `b`, or `s.len()` when there is none.
pub open spec fn first_index_from(s: Seq<u8>, from: int, b: u8) -> int
    decreases s.len() - from,
{
    if from >= s.len() {
        s.len() as int
    } else if from >= 0 && s[from] == b {
        from
    } else {
        first_index_from(s, from + 1, b)
    }
}

/// The temperature that starts at `p`: its value in tenths and the index just
/// past it, or `None` when the bytes there are not one of the four shapes.
///
/// In the two-digit shapes the byte between the integer digits and the last
/// digit is not examined (the scanner skips it without reading it).
pub open spec fn reading_at(s: Seq<u8>, p: int) -> Option<(int, int)> {
    if p < 0 || p >= s.len() {
        None
    } else if s[p] == MINUS {
        if p + 2 < s.len() && s[p + 2] == DOT {
            if p + 3 < s.len() && is_digit(s[p + 1]) && is_digit(s[p + 3]) {
                Some((-(digit_value(s[p + 1]) * 10 + digit_value(s[p + 3])), p + 4))
            } else {
                None
            }
        } else if p + 4 < s.len() && is_digit(s[p + 1]) && is_digit(s[p + 2]) && is_digit(
            s[p + 4],
        ) {
            Some(
                (
                    -(digit_value(s[p + 1]) * 100 + digit_value(s[p + 2]) * 10 + digit_value(
                        s[p + 4],
                    )),
                    p + 5,
                ),
            )
        } else {
            None
        }
    } else if p + 1 < s.len() && s[p + 1] == DOT {
        if p + 2 < s.len() && is_digit(s[p]) && is_digit(s[p + 2]) {
            Some((digit_value(s[p]) * 10 + digit_value(s[p + 2]), p + 3))
        } else {
            None
        }
    } else if p + 3 < s.len() && is_digit(s[p]) && is_digit(s[p + 1]) && is_digit(s[p + 3]) {
        Some((digit_value(s[p]) * 100 + digit_value(s[p + 1]) * 10 + digit_value(s[p + 3]), p + 4))
    } else {
        None
    }
}

/// `first_index_from` finds the first occurrence at or after `from`.
pub proof fn lemma_first_index_from(s: Seq<u8>, from: int, b: u8)
    requires
        0 <= from,
    ensures
        from <= s.len() ==> from <= first_index_from(s, from, b) <= s.len(),
        first_index_from(s, from, b) < s.len() ==> s[first_index_from(s, from, b)] == b,
        forall|j: int| from <= j < first_index_from(s, from, b) ==> s[j] != b,
    decreases s.len() - from,
{
    if from < s.len() && s[from] != b {
        lemma_first_index_from(s, from + 1, b);
    }
}

/// The first occurrence is the position before which `b` does not occur
/// and at which it does (or the end).
pub proof fn lemma_first_index_unique(s: Seq<u8>, from: int, b: u8, r: int)
    requires
        0 <= from <= r <= s.len(),
        forall|j: int| from <= j < r ==> s[j] != b,
        r < s.len() ==> s[r] == b,
    ensures
        first_index_from(s, from, b) == r,
{
    lemma_first_index_from(s, from, b);
    let f = first_index_from(s, from, b);
    if f < r {
        assert(s[f] != b);
    } else if f > r {
        assert(s[r] == b);
    }
}

/// A temperature is between three and five bytes long.
pub proof fn lemma_reading_at_end(s: Seq<u8>, p: int)
    ensures
        reading_at(s, p) matches Some(r) ==> p + 3 <= r.1 <= p + 5 && r.1 <= s.len(),
{
}

/// Where scanning resumes after a temperature that ends at `e`: one newline
/// right after it is consumed.
pub open spec fn after_reading(s: Seq<u8>, e: int) -> int {
    if 0 <= e < s.len() && s[e] == NEWLINE {
        e + 1
    } else {
        e
    }
}

/// The readings of `s` from index `p` on, in order, or `None` when the bytes
/// from `p` on are not well formed (a name without a `;`, or a malformed
/// temperature).
pub open spec fn readings_from(s: Seq<u8>, p: int) -> Option<Seq<Reading>>
    decreases s.len() - p,
{
    if p < 0 {
        None
    } else if p >= s.len() {
        Some(Seq::empty())
    } else if s[p] == NEWLINE {
        readings_from(s, p + 1)
    } else {
        let semi = first_index_from(s, p, SEMICOLON);
        if semi >= s.len() {
            None
        } else {
            proof {
                lemma_first_index_from(s, p, SEMICOLON);
                lemma_reading_at_end(s, semi + 1);
            }
            match reading_at(s, semi + 1) {
                None => None,
                Some(r) => match readings_from(s, after_reading(s, r.1)) {
                    None => None,
                    Some(rest) => Some(seq![(s.subrange(p, semi), r.0)] + rest),
                },
            }
        }
    }
}

/// All readings of an input, or `None` when it is not well formed.
#[verifier::opaque]
pub open spec fn readings(s: Seq<u8>) -> Option<Seq<Reading>> {
    readings_from(s, 0)
}

/// `done` followed by the readings in `rest`, when there are any.
pub open spec fn prepend(done: Seq<Reading>, rest: Option<Seq<Reading>>) -> Option<Seq<Reading>> {
    match rest {
        None => None,
        Some(r) => Some(done + r),
    }
}

/// Parses the temperature that starts at `pos`.
///
/// Returns the value in tenths of a degree and the index just past it.
pub fn parse_temperature(data: &[u8], pos: usize) -> (r: Option<(i32, usize)>)
    ensures
        match r {
            Some((t, e)) => reading_at(data@, pos as int) == Some((t as int, e as int)),
            None => reading_at(data@, pos as int) is None,
        },
{
    let len = data.len();
    if pos >= len {
        return None;
    }
    let b0 = data[pos];
    if b0 == MINUS {
        if len - pos > 2 && data[pos + 2] == DOT {
            if len - pos > 3 && is_digit_byte(data[pos + 1]) && is_digit_byte(data[pos + 3]) {
                let t = -(((data[pos + 1] - ZERO) as i32) * 10 + (data[pos + 3] - ZERO) as i32);
                Some((t, pos + 4))
            } else {
                None
            }
        } else if len - pos > 4 && is_digit_byte(data[pos + 1]) && is_digit_byte(data[pos + 2])
            && is_digit_byte(data[pos + 4]) {
            let t = -(((data[pos + 1] - ZERO) as i32) * 100 + ((data[pos + 2] - ZERO) as i32) * 10
                + (data[pos + 4] - ZERO) as i32);
            Some((t, pos + 5))
        } else {
            None
        }
    } else if len - pos > 1 && data[pos + 1] == DOT {
        if len - pos > 2 && is_digit_byte(b0) && is_digit_byte(data[pos + 2]) {
            let t = ((b0 - ZERO) as i32) * 10 + (data[pos + 2] - ZERO) as i32;
            Some((t, pos + 3))
        } else {
            None
        }
    } else if len - pos > 3 && is_digit_byte(b0) && is_digit_byte(data[pos + 1]) && is_digit_byte(
        data[pos + 3],
    ) {
        let t = ((b0 - ZERO) as i32) * 100 + ((data[pos + 1] - ZERO) as i32) * 10 + (data[pos
            + 3] - ZERO) as i32;
        Some((t, pos + 4))
    } else {
        None
    }
}

/// Whether `c` is an ASCII decimal digit.
pub fn is_digit_byte(c: u8) -> (r: bool)
    ensures
        r == is_digit(c),
{
    ZERO <= c && c <= NINE
}

/// Every temperature read is within 99.9 degrees of zero.
pub proof fn lemma_readings_sound(s: Seq<u8>, p: int)
    ensures
        readings_from(s, p) matches Some(rs) ==> sound_readings(rs),
    decreases s.len() - p,
{
    if 0 <= p < s.len() {
        if s[p] == NEWLINE {
            lemma_readings_sound(s, p + 1);
        } else {
            let semi = first_index_from(s, p, SEMICOLON);
            lemma_first_index_from(s, p, SEMICOLON);
            lemma_reading_at_end(s, semi + 1);
            if semi < s.len() {
                if let Some(r) = reading_at(s, semi + 1) {
                    lemma_readings_sound(s, after_reading(s, r.1));
                    if let Some(rest) = readings_from(s, after_reading(s, r.1)) {
                        let rs = seq![(s.subrange(p, semi), r.0)] + rest;
                        assert forall|i: int| 0 <= i < rs.len() implies -999 <= #[trigger] rs[i].1 <= 999 by {
                            if i > 0 {
                                assert(rs[i] == rest[i - 1]);
                            }
                        }
                    }
                }
            }
        }
    }
}

/// Every temperature of a well-formed input is within 99.9 degrees of zero.
pub proof fn lemma_readings_sound_all(s: Seq<u8>)
    ensures
        readings(s) matches Some(rs) ==> sound_readings(rs),
{
    reveal(readings);
    lemma_readings_sound(s, 0);
}

/// Searching a suffix gives the same position, shifted.
pub proof fn lemma_first_index_suffix(s: Seq<u8>, q: int, p: int, b: u8)
    requires
        0 <= q <= p,
        q <= s.len(),
    ensures
        first_index_from(s, p, b) == q + first_index_from(s.subrange(q, s.len() as int), p - q, b),
    decreases s.len() - p,
{
    if p < s.len() && s[p] != b {
        lemma_first_index_suffix(s, q, p + 1, b);
    }
}

/// Searching a string that `a` begins finds what searching `a` finds, when
/// that is within `a`.
pub proof fn lemma_first_index_prefix(a: Seq<u8>, b: Seq<u8>, p: int, c: u8)
    requires
        0 <= p,
        first_index_from(a, p, c) < a.len(),
    ensures
        first_index_from(a + b, p, c) == first_index_from(a, p, c),
    decreases a.len() - p,
{
    if p < a.len() && a[p] != c {
        lemma_first_index_prefix(a, b, p + 1, c);
    }
}

/// Parsing depends only on the bytes from the start position on.
pub proof fn lemma_readings_suffix(s: Seq<u8>, q: int, p: int)
    requires
        0 <= q <= p,
        q <= s.len(),
    ensures
        readings_from(s, p) == readings_from(s.subrange(q, s.len() as int), p - q),
    decreases s.len() - p,
{
    let t = s.subrange(q, s.len() as int);
    if p < s.len() {
        if s[p] == NEWLINE {
            lemma_readings_suffix(s, q, p + 1);
        } else {
            let semi = first_index_from(s, p, SEMICOLON);
            lemma_first_index_from(s, p, SEMICOLON);
            lemma_first_index_suffix(s, q, p, SEMICOLON);
            lemma_reading_at_end(s, semi + 1);
            if semi < s.len() {
                assert(reading_at(t, semi + 1 - q) == match reading_at(s, semi + 1) {
                    Some(r) => Some((r.0, r.1 - q)),
                    None => None,
                });
                if let Some(r) = reading_at(s, semi + 1) {
                    lemma_readings_suffix(s, q, after_reading(s, r.1));
                    assert(after_reading(t, r.1 - q) == after_reading(s, r.1) - q);
                    assert(s.subrange(p, semi) =~= t.subrange(p - q, semi - q));
                }
            }
        }
    }
}

/// A temperature read within `a` reads the same in any string that `a` begins.
pub proof fn lemma_reading_at_prefix(a: Seq<u8>, b: Seq<u8>, p: int)
    requires
        reading_at(a, p) is Some,
    ensures
        reading_at(a + b, p) == reading_at(a, p),
{
    assert(forall|i: int| 0 <= i < a.len() ==> (a + b)[i] == a[i]);
}

/// Parsing `a` followed by `b` from a position within `a`, when `a` parses
/// from there.
pub proof fn lemma_readings_prefix(a: Seq<u8>, b: Seq<u8>, p: int)
    requires
        0 <= p <= a.len(),
        readings_from(a, p) is Some,
    ensures
        readings_from(a + b, p) == prepend(readings_from(a, p).unwrap(), readings_from(b, 0)),
    decreases a.len() - p,
{
    let s = a + b;
    assert(s.subrange(a.len() as int, s.len() as int) =~= b);
    if p == a.len() {
        lemma_readings_suffix(s, a.len() as int, p);
        assert(readings_from(a, p).unwrap() =~= Seq::<Reading>::empty());
        if let Some(r) = readings_from(b, 0) {
            assert(Seq::<Reading>::empty() + r =~= r);
        }
    } else {
        assert(s[p] == a[p]);
        if a[p] == NEWLINE {
            lemma_readings_prefix(a, b, p + 1);
        } else {
            let semi = first_index_from(a, p, SEMICOLON);
            lemma_first_index_from(a, p, SEMICOLON);
            lemma_first_index_prefix(a, b, p, SEMICOLON);
            let r = reading_at(a, semi + 1).unwrap();
            lemma_reading_at_prefix(a, b, semi + 1);
            lemma_reading_at_end(a, semi + 1);
            assert(s.subrange(p, semi) =~= a.subrange(p, semi));
            let e = r.1;
            if e < a.len() {
                assert(after_reading(s, e) == after_reading(a, e));
                lemma_readings_prefix(a, b, after_reading(a, e));
                let head = seq![(a.subrange(p, semi), r.0)];
                let rest_a = readings_from(a, after_reading(a, e)).unwrap();
                if let Some(rb) = readings_from(b, 0) {
                    assert(head + (rest_a + rb) =~= (head + rest_a) + rb);
                }
            } else {
                let head = seq![(a.subrange(p, semi), r.0)];
                assert(readings_from(a, e) == Some(Seq::<Reading>::empty()));
                assert(readings_from(a, p).unwrap() =~= head);
                lemma_readings_suffix(s, a.len() as int, after_reading(s, e));
                if b.len() > 0 && b[0] == NEWLINE {
                    assert(s[e] == b[0]);
                    assert(readings_from(b, 0) == readings_from(b, 1));
                } else {
                    if b.len() > 0 {
                        assert(s[e] == b[0]);
                    }
                }
            }
        }
    }
}

/// Rows are independent: when `a` parses on its own, the readings of `a`
/// followed by `b` are those of `a` followed by those of `b`, and the whole
/// parses exactly when `b` does.
pub proof fn lemma_readings_concat(a: Seq<u8>, b: Seq<u8>)
    requires
        readings(a) is Some,
    ensures
        readings(a + b) == prepend(readings(a).unwrap(), readings(b)),
{
    reveal(readings);
    lemma_readings_prefix(a, b, 0);
}

/// Scanning from `p` passes through position `b`: `b` is where a row or a
/// blank line starts, or the end of the input.
pub open spec fn scan_visits(s: Seq<u8>, p: int, b: int) -> bool
    decreases s.len() - p,
{
    if p == b {
        true
    } else if p < 0 || p > b || p >= s.len() {
        false
    } else if s[p] == NEWLINE {
        scan_visits(s, p + 1, b)
    } else {
        let semi = first_index_from(s, p, SEMICOLON);
        if semi >= s.len() {
            false
        } else {
            proof {
                lemma_first_index_from(s, p, SEMICOLON);
                lemma_reading_at_end(s, semi + 1);
            }
            match reading_at(s, semi + 1) {
                None => false,
                Some(r) => scan_visits(s, after_reading(s, r.1), b),
            }
        }
    }
}

/// Every newline of `s` ends a row or a blank line: scanning the input
/// succeeds and passes through every position just after a newline.
pub open spec fn line_structured(s: Seq<u8>) -> bool {
    &&& readings(s) is Some
    &&& forall|b: int| 0 < b <= s.len() && s[b - 1] == NEWLINE ==> scan_visits(s, 0, b)
}

/// A temperature that ends by `b` reads the same in the first `b` bytes.
pub proof fn lemma_reading_at_within(s: Seq<u8>, b: int, q: int)
    requires
        0 <= b <= s.len(),
        reading_at(s, q) matches Some(r) && r.1 <= b,
    ensures
        reading_at(s.subrange(0, b), q) == reading_at(s, q),
{
    assert(forall|i: int| 0 <= i < b ==> s.subrange(0, b)[i] == s[i]);
}

/// A scan that passes through `b` parses the first `b` bytes.
pub proof fn lemma_visits_prefix(s: Seq<u8>, p: int, b: int)
    requires
        0 <= p <= b <= s.len(),
        scan_visits(s, p, b),
    ensures
        readings_from(s.subrange(0, b), p) is Some,
    decreases s.len() - p,
{
    let t = s.subrange(0, b);
    if p < b {
        assert(t[p] == s[p]);
        if s[p] == NEWLINE {
            lemma_visits_prefix(s, p + 1, b);
        } else {
            let semi = first_index_from(s, p, SEMICOLON);
            lemma_first_index_from(s, p, SEMICOLON);
            lemma_reading_at_end(s, semi + 1);
            let r = reading_at(s, semi + 1).unwrap();
            let next = after_reading(s, r.1);
            if next > b {
                assert(!scan_visits(s, next, b));
            }
            assert(next <= b);
            assert(forall|j: int| p <= j < semi ==> t[j] == s[j]);
            lemma_first_index_unique(t, p, SEMICOLON, semi);
            lemma_reading_at_within(s, b, semi + 1);
            if r.1 < b {
                assert(after_reading(t, r.1) == next);
                lemma_visits_prefix(s, next, b);
            } else {
                assert(after_reading(t, r.1) == b);
                assert(readings_from(t, b) is Some);
            }
        }
    }
}

/// Scans from one start follow one path: when a scan passes through `b1`
/// and through a later `b2`, the scan from `b1` passes through `b2`.
pub proof fn lemma_visits_path(s: Seq<u8>, p: int, b1: int, b2: int)
    requires
        p <= b1 <= b2,
        scan_visits(s, p, b1),
        scan_visits(s, p, b2),
    ensures
        scan_visits(s, b1, b2),
    decreases s.len() - p,
{
    if p != b1 && 0 <= p < s.len() {
        if s[p] == NEWLINE {
            lemma_visits_path(s, p + 1, b1, b2);
        } else {
            let semi = first_index_from(s, p, SEMICOLON);
            lemma_first_index_from(s, p, SEMICOLON);
            lemma_reading_at_end(s, semi + 1);
            if semi < s.len() {
                if let Some(r) = reading_at(s, semi + 1) {
                    let next = after_reading(s, r.1);
                    if next > b1 {
                        assert(!scan_visits(s, next, b1));
                    }
                    lemma_visits_path(s, next, b1, b2);
                }
            }
        }
    }
}

/// A scan that succeeds passes through the end of the input.
pub proof fn lemma_visits_end(s: Seq<u8>, p: int)
    requires
        0 <= p <= s.len(),
        readings_from(s, p) is Some,
    ensures
        scan_visits(s, p, s.len() as int),
    decreases s.len() - p,
{
    if p < s.len() {
        if s[p] == NEWLINE {
            lemma_visits_end(s, p + 1);
        } else {
            let semi = first_index_from(s, p, SEMICOLON);
            lemma_first_index_from(s, p, SEMICOLON);
            lemma_reading_at_end(s, semi + 1);
            let r = reading_at(s, semi + 1).unwrap();
            lemma_visits_end(s, after_reading(s, r.1));
        }
    }
}

/// In a line-structured input, the bytes between two line starts (or the
/// ends) parse on their own.
pub proof fn lemma_line_part(s: Seq<u8>, b1: int, b2: int)
    requires
        line_structured(s),
        0 <= b1 <= b2 <= s.len(),
        b1 == 0 || s[b1 - 1] == NEWLINE,
        b2 == s.len() || s[b2 - 1] == NEWLINE,
    ensures
        readings(s.subrange(b1, b2)) is Some,
{
    reveal(readings);
    lemma_visits_end(s, 0);
    let v1 = scan_visits(s, 0, b1);
    let v2 = scan_visits(s, 0, b2);
    assert(v1);
    assert(v2);
    lemma_visits_path(s, 0, b1, b2);
    lemma_visits_prefix(s, b1, b2);
    let t = s.subrange(0, b2);
    lemma_readings_suffix(t, b1, b1);
    assert(t.subrange(b1, t.len() as int) =~= s.subrange(b1, b2));
}

} // verus!
