//! Splitting an input into parts at row boundaries, so that the parts can be
//! scanned independently and their tables merged.
use vstd::prelude::*;
use crate::readings::{
    NEWLINE, Reading, first_index_from, lemma_first_index_from, lemma_first_index_unique, lemma_readings_concat,
    lemma_readings_sound_all, line_structured, lemma_line_part, readings, readings_from,
};
use crate::stats::{Stats, aggregate, lemma_aggregate_concat, merge_maps, sound_readings};

verus! {

/// Index of the first `byte` in `data`, or `data.len()` when there is none.
pub fn find_byte(data: &[u8], byte: u8) -> (r: usize)
    ensures
        r <= data@.len(),
        forall|j: int| 0 <= j < r ==> data@[j] != byte,
        r < data@.len() ==> data@[r as int] == byte,
        r == first_index_from(data@, 0, byte),
{
    let mut i: usize = 0;
    while i < data.len()
        invariant
            i <= data@.len(),
            forall|j: int| 0 <= j < i ==> data@[j] != byte,
        decreases data@.len() - i,
    {
        if data[i] == byte {
            proof {
                lemma_first_index_from(data@, 0, byte);
            }
            return i;
        }
        i = i + 1;
    }
    proof {
        lemma_first_index_from(data@, 0, byte);
    }
    i
}

/// The index just past the first newline at or after `p`, or the length of
/// `s` when there is none (or `p` is past the end).
pub open spec fn next_newline_spec(s: Seq<u8>, p: int) -> int {
    if p >= s.len() {
        s.len() as int
    } else if first_index_from(s, p, NEWLINE) + 1 < s.len() {
        first_index_from(s, p, NEWLINE) + 1
    } else {
        s.len() as int
    }
}

/// The index just past the first newline at or after `pos`, or `data.len()`
/// when there is none.
pub fn next_newline(data: &[u8], pos: usize) -> (r: usize)
    ensures
        r == next_newline_spec(data@, pos as int),
        pos <= data@.len() ==> pos <= r,
        pos < data@.len() ==> pos < r,
        r <= data@.len(),
        pos < r < data@.len() ==> data@[r - 1] == NEWLINE,
{
    let len = data.len();
    if pos >= len {
        return len;
    }
    let rest = &data[pos..len];
    let off = find_byte(rest, NEWLINE);
    proof {
        lemma_first_index_from(data@, pos as int, NEWLINE);
        assert(forall|j: int| 0 <= j < rest@.len() ==> rest@[j] == data@[pos + j]);
        if off < rest@.len() {
            assert(data@[pos + off] == NEWLINE);
        }
        assert forall|j: int| pos <= j < pos + off implies data@[j] != NEWLINE by {
            assert(rest@[j - pos] != NEWLINE);
        }
        lemma_first_index_unique(data@, pos as int, NEWLINE, pos + off);
    }
    if off >= len - pos - 1 {
        len
    } else {
        pos + off + 1
    }
}

/// From a position `p` at or before the end, the next boundary is at the
/// end or just past a newline after `p`.
pub proof fn lemma_next_newline_spec(s: Seq<u8>, p: int)
    requires
        0 <= p,
    ensures
        next_newline_spec(s, p) <= s.len(),
        p <= s.len() ==> p <= next_newline_spec(s, p),
        p < s.len() ==> p < next_newline_spec(s, p),
        next_newline_spec(s, p) < s.len() ==> p < next_newline_spec(s, p) && s[next_newline_spec(s, p) - 1]
            == NEWLINE,
{
    if p < s.len() {
        lemma_first_index_from(s, p, NEWLINE);
    }
}

/// Boundaries chosen one after another, each the next boundary after the
/// previous one plus an equal share `len / n` of the input, with the first
/// at 0 and the last at the end, are in order, and each inner boundary short
/// of the end lies just past a newline: the ranges between them cover the
/// input in order and no row is split between two of them.
pub proof fn lemma_newline_boundaries(data: Seq<u8>, n: int, b: Seq<int>)
    requires
        n >= 1,
        b.len() == n + 1,
        b[0] == 0,
        b[n] == data.len(),
        forall|k: int|
            0 <= k < n - 1 ==> #[trigger] b[k + 1] == next_newline_spec(data, b[k] + (data.len() as int) / n),
    ensures
        forall|k: int| 0 <= k < n ==> #[trigger] b[k] <= b[k + 1],
        forall|k: int| 0 <= k <= n ==> 0 <= #[trigger] b[k] <= data.len(),
        forall|k: int| 0 < k < n && #[trigger] b[k] < data.len() ==> data[b[k] - 1] == NEWLINE,
{
    let c = (data.len() as int) / n;
    assert(c >= 0) by (nonlinear_arith)
        requires
            n >= 1,
            data.len() >= 0,
            c == (data.len() as int) / n,
    ;
    assert forall|k: int| 0 <= k < n implies 0 <= #[trigger] b[k] <= data.len() by {
        lemma_boundaries_within(data, n, b, k);
    }
    assert forall|k: int| 0 <= k < n implies #[trigger] b[k] <= b[k + 1] by {
        lemma_boundaries_within(data, n, b, k);
        if k < n - 1 {
            lemma_next_newline_spec(data, b[k] + c);
        }
    }
    assert forall|k: int| 0 < k < n && #[trigger] b[k] < data.len() implies data[b[k] - 1] == NEWLINE by {
        lemma_boundaries_within(data, n, b, k - 1);
        lemma_next_newline_spec(data, b[k - 1] + c);
        assert(b[(k - 1) + 1] == next_newline_spec(data, b[k - 1] + c));
    }
}

/// The boundaries of `lemma_newline_boundaries` below the last lie within
/// the input.
proof fn lemma_boundaries_within(data: Seq<u8>, n: int, b: Seq<int>, k: int)
    requires
        n >= 1,
        b.len() == n + 1,
        b[0] == 0,
        (data.len() as int) / n >= 0,
        forall|j: int|
            0 <= j < n - 1 ==> #[trigger] b[j + 1] == next_newline_spec(data, b[j] + (data.len() as int) / n),
        0 <= k < n,
    ensures
        0 <= b[k] <= data.len(),
    decreases k,
{
    if k > 0 {
        lemma_boundaries_within(data, n, b, k - 1);
        lemma_next_newline_spec(data, b[k - 1] + (data.len() as int) / n);
        assert(b[(k - 1) + 1] == next_newline_spec(data, b[k - 1] + (data.len() as int) / n));
    }
}

/// `parts` are consecutive ranges that together cover `0..len`.
pub open spec fn covers(len: int, parts: Seq<(usize, usize)>) -> bool {
    &&& parts.len() >= 1
    &&& parts[0].0 == 0
    &&& parts.last().1 == len
    &&& forall|i: int| 0 <= i < parts.len() ==> (#[trigger] parts[i]).0 <= parts[i].1
    &&& forall|i: int| 0 <= i < parts.len() - 1 ==> (#[trigger] parts[i]).1 == parts[i + 1].0
}

/// Splits an input into `n` consecutive parts of about equal length, each
/// part but the last ending just past a newline (or at the end of the
/// input), so that no row is split across parts.
pub fn split_parts(data: &[u8], n: usize) -> (parts: Vec<(usize, usize)>)
    requires
        n >= 1,
    ensures
        parts@.len() == n,
        covers(data@.len() as int, parts@),
        forall|i: int|
            0 <= i < n - 1 ==> (#[trigger] parts@[i]).1 == next_newline_spec(
                data@,
                parts@[i].0 + (data@.len() as int) / (n as int),
            ),
        forall|i: int|
            0 <= i < n - 1 ==> (#[trigger] parts@[i]).1 == data@.len() || data@[parts@[i].1 - 1]
                == NEWLINE,
{
    let len = data.len();
    let chunk = len / n;
    let mut at: usize = 0;
    let mut parts: Vec<(usize, usize)> = Vec::with_capacity(n);
    let mut i: usize = 0;
    while i < n
        invariant
            len == data@.len(),
            chunk == len / n,
            n >= 1,
            i <= n,
            at <= len,
            parts@.len() == i,
            i == 0 ==> at == 0,
            i > 0 ==> parts@[0].0 == 0 && parts@[i - 1].1 == at,
            i == n ==> at == len,
            forall|k: int| 0 <= k < i ==> (#[trigger] parts@[k]).0 <= parts@[k].1 <= len,
            forall|k: int| 0 <= k < i - 1 ==> (#[trigger] parts@[k]).1 == parts@[k + 1].0,
            forall|k: int|
                0 <= k < i && k < n - 1 ==> (#[trigger] parts@[k]).1 == next_newline_spec(
                    data@,
                    parts@[k].0 + (len as int) / (n as int),
                ),
            forall|k: int|
                0 <= k < i && k < n - 1 ==> (#[trigger] parts@[k]).1 == len || data@[parts@[k].1 - 1]
                    == NEWLINE,
        decreases n - i,
    {
        let start = at;
        at = if i == n - 1 {
            len
        } else if chunk >= len - at {
            len
        } else {
            next_newline(data, at + chunk)
        };
        assert(i < n - 1 ==> at == next_newline_spec(data@, start + (len as int) / (n as int)));
        assert(i < n - 1 ==> at == len || data@[at - 1] == NEWLINE);
        let ghost old_parts = parts@;
        parts.push((start, at));
        assert(parts@ == old_parts.push((start, at)));
        i = i + 1;
    }
    parts
}

/// The readings of parts `0..k` of `data`, one after another.
pub open spec fn parts_readings(data: Seq<u8>, parts: Seq<(usize, usize)>, k: int) -> Seq<Reading>
    decreases k,
{
    if k <= 0 {
        Seq::empty()
    } else {
        parts_readings(data, parts, k - 1) + readings(
            data.subrange(parts[k - 1].0 as int, parts[k - 1].1 as int),
        ).unwrap()
    }
}

/// The tables of parts `0..k` of `data`, merged one after another into an
/// empty table.
pub open spec fn merged_parts(data: Seq<u8>, parts: Seq<(usize, usize)>, k: int) -> Map<
    Seq<u8>,
    Stats,
>
    decreases k,
{
    if k <= 0 {
        Map::empty()
    } else {
        merge_maps(
            merged_parts(data, parts, k - 1),
            aggregate(readings(data.subrange(parts[k - 1].0 as int, parts[k - 1].1 as int)).unwrap()),
        )
    }
}

/// Scanning the parts of an input separately and merging their tables gives
/// the table of the whole input: when consecutive parts that cover the input
/// are each well formed, the input is well formed, its readings are those of
/// the parts one after another, and its statistics are the merge of theirs.
pub proof fn lemma_parts(data: Seq<u8>, parts: Seq<(usize, usize)>)
    requires
        covers(data.len() as int, parts),
        forall|i: int|
            0 <= i < parts.len() ==> readings(
                data.subrange((#[trigger] parts[i]).0 as int, parts[i].1 as int),
            ) is Some,
    ensures
        readings(data) == Some(parts_readings(data, parts, parts.len() as int)),
        aggregate(readings(data).unwrap()) == merged_parts(data, parts, parts.len() as int),
{
    lemma_parts_readings(data, parts, parts.len() as int);
    lemma_parts_merged(data, parts, parts.len() as int);
    assert(data.subrange(0, parts.last().1 as int) =~= data);
}

/// The readings of the input up to the end of part `k - 1` are those of
/// the parts `0..k`.
proof fn lemma_parts_readings(data: Seq<u8>, parts: Seq<(usize, usize)>, k: int)
    requires
        covers(data.len() as int, parts),
        1 <= k <= parts.len(),
        forall|i: int|
            0 <= i < parts.len() ==> readings(
                data.subrange((#[trigger] parts[i]).0 as int, parts[i].1 as int),
            ) is Some,
    ensures
        parts[k - 1].1 <= data.len(),
        readings(data.subrange(0, parts[k - 1].1 as int)) == Some(parts_readings(data, parts, k)),
        sound_readings(parts_readings(data, parts, k)),
    decreases k,
{
    let part = data.subrange(parts[k - 1].0 as int, parts[k - 1].1 as int);
    assert(readings(part) is Some);
    let rp = readings(part).unwrap();
    lemma_parts_end(data.len() as int, parts, k - 1);
    assert(parts_readings(data, parts, k) == parts_readings(data, parts, k - 1) + rp);
    if k == 1 {
        assert(parts_readings(data, parts, 0) =~= Seq::<Reading>::empty());
        assert(parts_readings(data, parts, 1) =~= rp);
        assert(data.subrange(0, parts[0].1 as int) =~= part);
    } else {
        lemma_parts_readings(data, parts, k - 1);
        let prev = data.subrange(0, parts[k - 2].1 as int);
        assert(parts[k - 2].1 == parts[k - 1].0);
        assert(prev + part =~= data.subrange(0, parts[k - 1].1 as int));
        lemma_readings_concat(prev, part);
    }
    lemma_readings_sound_all(data.subrange(0, parts[k - 1].1 as int));
}

/// The statistics of the parts `0..k` are their tables merged.
proof fn lemma_parts_merged(data: Seq<u8>, parts: Seq<(usize, usize)>, k: int)
    requires
        covers(data.len() as int, parts),
        0 <= k <= parts.len(),
        forall|i: int|
            0 <= i < parts.len() ==> readings(
                data.subrange((#[trigger] parts[i]).0 as int, parts[i].1 as int),
            ) is Some,
    ensures
        aggregate(parts_readings(data, parts, k)) == merged_parts(data, parts, k),
    decreases k,
{
    if k == 0 {
        assert(parts_readings(data, parts, 0) == Seq::<Reading>::empty());
        assert(aggregate(Seq::<Reading>::empty()) == Map::<Seq<u8>, Stats>::empty());
    } else {
        let part = data.subrange(parts[k - 1].0 as int, parts[k - 1].1 as int);
        assert(readings(part) is Some);
        let rp = readings(part).unwrap();
        let rprev = parts_readings(data, parts, k - 1);
        lemma_parts_merged(data, parts, k - 1);
        if k > 1 {
            lemma_parts_readings(data, parts, k - 1);
        } else {
            assert(rprev == Seq::<Reading>::empty());
        }
        lemma_readings_sound_all(part);
        lemma_aggregate_concat(rprev, rp);
        assert(parts_readings(data, parts, k) == rprev + rp);
    }
}

/// Every part ends within the input.
proof fn lemma_parts_end(len: int, parts: Seq<(usize, usize)>, k: int)
    requires
        covers(len, parts),
        0 <= k < parts.len(),
    ensures
        parts[k].1 <= len,
    decreases parts.len() - k,
{
    if k < parts.len() - 1 {
        lemma_parts_end(len, parts, k + 1);
        assert(parts[k].1 == parts[k + 1].0);
        assert(parts[k + 1].0 <= parts[k + 1].1);
    }
}

/// Cutting a line-structured input just after newlines gives parts that
/// each parse on their own, and scanning them separately and merging their
/// tables gives the table of the whole input.
pub proof fn lemma_line_parts(data: Seq<u8>, parts: Seq<(usize, usize)>)
    requires
        line_structured(data),
        covers(data.len() as int, parts),
        forall|i: int|
            0 <= i < parts.len() - 1 ==> (#[trigger] parts[i]).1 == data.len() || data[parts[i].1 - 1]
                == NEWLINE,
    ensures
        forall|i: int|
            0 <= i < parts.len() ==> readings(
                data.subrange((#[trigger] parts[i]).0 as int, parts[i].1 as int),
            ) is Some,
        readings(data) == Some(parts_readings(data, parts, parts.len() as int)),
        aggregate(readings(data).unwrap()) == merged_parts(data, parts, parts.len() as int),
{
    assert forall|i: int|
        0 <= i < parts.len() implies readings(
        data.subrange((#[trigger] parts[i]).0 as int, parts[i].1 as int),
    ) is Some by {
        lemma_parts_end(data.len() as int, parts, i);
        let b1 = parts[i].0 as int;
        let b2 = parts[i].1 as int;
        if i > 0 {
            assert(parts[i - 1].1 == parts[i].0);
        }
        if b1 == data.len() {
            reveal(readings);
            assert(data.subrange(b1, b2).len() == 0);
            assert(readings_from(data.subrange(b1, b2), 0) is Some);
        } else {
            lemma_line_part(data, b1, b2);
        }
    }
    lemma_parts(data, parts);
}

} // verus!
