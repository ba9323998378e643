//! The statistics kept per station, and how readings and partial results
//! combine into them.
use vstd::prelude::*;
use crate::readings::Reading;

verus! {

/// Minimum, maximum, sum and count of a station's readings, in tenths.
pub struct Stats {
    pub min: int,
    pub max: int,
    pub sum: int,
    pub count: int,
}

/// The statistics of a station with no reading yet: the minimum starts at
/// `i32::MAX` and the maximum at `i32::MIN`.
pub open spec fn empty_stats() -> Stats {
    Stats { min: i32::MAX as int, max: i32::MIN as int, sum: 0, count: 0 }
}

/// The statistics of one reading.
pub open spec fn single(t: int) -> Stats {
    Stats { min: t, max: t, sum: t, count: 1 }
}

pub open spec fn min_int(a: int, b: int) -> int {
    if b < a {
        b
    } else {
        a
    }
}

pub open spec fn max_int(a: int, b: int) -> int {
    if b > a {
        b
    } else {
        a
    }
}

/// The statistics of the union of two groups of readings.
pub open spec fn combine(a: Stats, b: Stats) -> Stats {
    Stats {
        min: min_int(a.min, b.min),
        max: max_int(a.max, b.max),
        sum: a.sum + b.sum,
        count: a.count + b.count,
    }
}

/// The statistics that `m` holds for `name`, or the empty statistics.
pub open spec fn stats_of(m: Map<Seq<u8>, Stats>, name: Seq<u8>) -> Stats {
    if m.contains_key(name) {
        m[name]
    } else {
        empty_stats()
    }
}

/// `m` after one more reading `t` of station `name`.
pub open spec fn add_reading(m: Map<Seq<u8>, Stats>, name: Seq<u8>, t: int) -> Map<Seq<u8>, Stats> {
    m.insert(name, combine(stats_of(m, name), single(t)))
}

/// `m` after merging in statistics `s` of station `name`.
pub open spec fn add_stats(m: Map<Seq<u8>, Stats>, name: Seq<u8>, s: Stats) -> Map<Seq<u8>, Stats> {
    m.insert(name, combine(stats_of(m, name), s))
}

/// The per-station statistics of a sequence of readings.
pub open spec fn aggregate(rs: Seq<Reading>) -> Map<Seq<u8>, Stats>
    decreases rs.len(),
{
    if rs.len() == 0 {
        Map::empty()
    } else {
        add_reading(aggregate(rs.drop_last()), rs.last().0, rs.last().1)
    }
}

/// How many of readings `rs` are readings of station `n`.
pub open spec fn readings_count(rs: Seq<Reading>, n: Seq<u8>) -> nat
    decreases rs.len(),
{
    if rs.len() == 0 {
        0
    } else {
        readings_count(rs.drop_last(), n) + if rs.last().0 == n {
            1nat
        } else {
            0nat
        }
    }
}

/// The stations that have a reading in `rs`.
pub open spec fn station_names(rs: Seq<Reading>) -> Set<Seq<u8>> {
    Set::new(|n: Seq<u8>| exists|i: int| 0 <= i < rs.len() && #[trigger] rs[i].0 == n)
}

/// The statistics of a station count its readings, and a station has a
/// reading for each of them: the stations of the statistics are those
/// with a reading, and their counts are how many readings each has, at most
/// the number of readings.
pub proof fn lemma_aggregate_counts(rs: Seq<Reading>)
    ensures
        aggregate(rs).dom() == station_names(rs),
        forall|n: Seq<u8>|
            #[trigger] aggregate(rs).contains_key(n) ==> aggregate(rs)[n].count == readings_count(rs, n),
        forall|n: Seq<u8>| #[trigger] readings_count(rs, n) <= rs.len(),
    decreases rs.len(),
{
    if rs.len() > 0 {
        let p = rs.drop_last();
        lemma_aggregate_counts(p);
        assert forall|n: Seq<u8>| #[trigger] aggregate(rs).dom().contains(n) <==> station_names(rs).contains(n) by {
            if station_names(rs).contains(n) && n != rs.last().0 {
                let i = choose|i: int| 0 <= i < rs.len() && #[trigger] rs[i].0 == n;
                assert(i < p.len());
                assert(p[i].0 == n);
                assert(station_names(p).contains(n));
            }
            if aggregate(rs).dom().contains(n) && n != rs.last().0 {
                assert(station_names(p).contains(n));
                let i = choose|i: int| 0 <= i < p.len() && #[trigger] p[i].0 == n;
                assert(rs[i].0 == n);
            }
            if n == rs.last().0 {
                assert(rs[rs.len() - 1].0 == n);
            }
        }
        assert(aggregate(rs).dom() =~= station_names(rs));
        assert forall|n: Seq<u8>| #[trigger] aggregate(rs).contains_key(n) implies aggregate(rs)[n].count
            == readings_count(rs, n) by {
            if n != rs.last().0 {
                assert(aggregate(p).contains_key(n));
            } else if !aggregate(p).contains_key(n) {
                if readings_count(p, n) > 0 {
                    lemma_readings_count_member(p, n);
                    assert(station_names(p).contains(n));
                }
            }
        }
        assert forall|n: Seq<u8>| #[trigger] readings_count(rs, n) <= rs.len() by {
            assert(readings_count(p, n) <= p.len());
        }
    }
}

/// A station counted among readings has a reading there.
pub proof fn lemma_readings_count_member(rs: Seq<Reading>, n: Seq<u8>)
    requires
        readings_count(rs, n) > 0,
    ensures
        exists|i: int| 0 <= i < rs.len() && #[trigger] rs[i].0 == n,
    decreases rs.len(),
{
    let p = rs.drop_last();
    if rs.last().0 == n {
        assert(rs[rs.len() - 1].0 == n);
    } else {
        lemma_readings_count_member(p, n);
        let i = choose|i: int| 0 <= i < p.len() && #[trigger] p[i].0 == n;
        assert(rs[i].0 == n);
    }
}

/// Two per-station tables merged: every station of either, with its
/// statistics combined.
pub open spec fn merge_maps(a: Map<Seq<u8>, Stats>, b: Map<Seq<u8>, Stats>) -> Map<Seq<u8>, Stats> {
    Map::new(
        |n: Seq<u8>| a.contains_key(n) || b.contains_key(n),
        |n: Seq<u8>| combine(stats_of(a, n), stats_of(b, n)),
    )
}

/// Statistics of at least one reading, every reading a temperature of the
/// input format (at most 99.9 degrees away from zero).
pub open spec fn sound_stats(s: Stats) -> bool {
    &&& s.count >= 1
    &&& -999 <= s.min <= s.max <= 999
    &&& -999 * s.count <= s.sum <= 999 * s.count
}

/// Every station of `m` has sound statistics.
pub open spec fn sound_map(m: Map<Seq<u8>, Stats>) -> bool {
    forall|n: Seq<u8>| #[trigger] m.contains_key(n) ==> sound_stats(m[n])
}

/// Every temperature is of the input format.
pub open spec fn sound_readings(rs: Seq<Reading>) -> bool {
    forall|i: int| 0 <= i < rs.len() ==> -999 <= #[trigger] rs[i].1 <= 999
}

/// The statistics of sound readings are sound, and the stations are exactly
/// those that have a reading.
pub proof fn lemma_aggregate_sound(rs: Seq<Reading>)
    requires
        sound_readings(rs),
    ensures
        sound_map(aggregate(rs)),
        aggregate(rs).dom().finite(),
        forall|n: Seq<u8>|
            aggregate(rs).contains_key(n) <==> exists|i: int| 0 <= i < rs.len() && #[trigger] rs[i].0 == n,
    decreases rs.len(),
{
    if rs.len() > 0 {
        let p = rs.drop_last();
        assert(forall|i: int| 0 <= i < p.len() ==> p[i] == rs[i]);
        lemma_aggregate_sound(p);
        let last = rs.last();
        assert(-999 <= rs[rs.len() - 1].1 <= 999);
        let s = combine(stats_of(aggregate(p), last.0), single(last.1));
        if aggregate(p).contains_key(last.0) {
            assert(sound_stats(aggregate(p)[last.0]));
            assert(-999 * s.count <= s.sum <= 999 * s.count) by (nonlinear_arith)
                requires
                    s.count == aggregate(p)[last.0].count + 1,
                    s.sum == aggregate(p)[last.0].sum + last.1,
                    -999 * aggregate(p)[last.0].count <= aggregate(p)[last.0].sum <= 999
                        * aggregate(p)[last.0].count,
                    -999 <= last.1 <= 999,
            ;
        }
        assert forall|n: Seq<u8>|
            aggregate(rs).contains_key(n) implies exists|i: int|
                0 <= i < rs.len() && #[trigger] rs[i].0 == n by {
            if n == last.0 {
                assert(rs[rs.len() - 1].0 == n);
            } else {
                let i = choose|i: int| 0 <= i < p.len() && #[trigger] p[i].0 == n;
                assert(rs[i].0 == n);
            }
        }
        assert forall|n: Seq<u8>|
            (exists|i: int| 0 <= i < rs.len() && #[trigger] rs[i].0 == n) implies aggregate(
            rs,
        ).contains_key(n) by {
            let i = choose|i: int| 0 <= i < rs.len() && #[trigger] rs[i].0 == n;
            if i < rs.len() - 1 {
                assert(p[i].0 == n);
            }
        }
    }
}

/// Combining is associative.
pub proof fn lemma_combine_assoc(a: Stats, b: Stats, c: Stats)
    ensures
        combine(combine(a, b), c) == combine(a, combine(b, c)),
{
}

/// Combining is commutative.
pub proof fn lemma_combine_comm(a: Stats, b: Stats)
    ensures
        combine(a, b) == combine(b, a),
{
}

/// The empty statistics are neutral for statistics whose extremes are
/// 32-bit values.
pub proof fn lemma_combine_empty(a: Stats)
    requires
        a.min <= i32::MAX,
        a.max >= i32::MIN,
    ensures
        combine(a, empty_stats()) == a,
        combine(empty_stats(), a) == a,
{
}

/// Merging in the statistics of two stations, or two sets of statistics of
/// one station, gives the same table in either order.
pub proof fn lemma_add_stats_commute(m: Map<Seq<u8>, Stats>, n1: Seq<u8>, s1: Stats, n2: Seq<u8>, s2: Stats)
    ensures
        add_stats(add_stats(m, n1, s1), n2, s2) == add_stats(add_stats(m, n2, s2), n1, s1),
{
    lemma_combine_assoc(stats_of(m, n1), s1, s2);
    lemma_combine_assoc(stats_of(m, n1), s2, s1);
    lemma_combine_comm(s1, s2);
    assert(add_stats(add_stats(m, n1, s1), n2, s2) =~= add_stats(add_stats(m, n2, s2), n1, s1));
}

/// Statistics whose extremes are 32-bit values, for which the empty
/// statistics are neutral.
pub open spec fn bounded_map(m: Map<Seq<u8>, Stats>) -> bool {
    forall|n: Seq<u8>| #[trigger] m.contains_key(n) ==> m[n].min <= i32::MAX && m[n].max >= i32::MIN
}

/// Merging with an empty table changes nothing.
pub proof fn lemma_merge_empty(a: Map<Seq<u8>, Stats>)
    requires
        bounded_map(a),
    ensures
        merge_maps(a, Map::empty()) == a,
        merge_maps(Map::empty(), a) == a,
{
    assert(merge_maps(a, Map::empty()) =~= a);
    assert(merge_maps(Map::empty(), a) =~= a);
}

/// Merging is commutative: the order in which partial tables are merged
/// does not matter.
pub proof fn lemma_merge_comm(a: Map<Seq<u8>, Stats>, b: Map<Seq<u8>, Stats>)
    ensures
        merge_maps(a, b) == merge_maps(b, a),
{
    assert(merge_maps(a, b) =~= merge_maps(b, a));
}

/// Merging is associative: partial tables may be merged in any grouping.
pub proof fn lemma_merge_assoc(a: Map<Seq<u8>, Stats>, b: Map<Seq<u8>, Stats>, c: Map<Seq<u8>, Stats>)
    requires
        bounded_map(a),
        bounded_map(b),
        bounded_map(c),
    ensures
        merge_maps(merge_maps(a, b), c) == merge_maps(a, merge_maps(b, c)),
{
    assert(merge_maps(merge_maps(a, b), c) =~= merge_maps(a, merge_maps(b, c)));
}

/// The stations of a merged table are those of either table.
pub proof fn lemma_merge_dom(a: Map<Seq<u8>, Stats>, b: Map<Seq<u8>, Stats>)
    ensures
        merge_maps(a, b).dom() == a.dom() + b.dom(),
{
    assert(merge_maps(a, b).dom() =~= a.dom() + b.dom());
}

/// Merging in one more station of `b` that `b` did not hold yet.
pub proof fn lemma_merge_insert(a: Map<Seq<u8>, Stats>, b: Map<Seq<u8>, Stats>, n: Seq<u8>, s: Stats)
    requires
        !b.contains_key(n),
        bounded_map(a),
    ensures
        stats_of(merge_maps(a, b), n) == stats_of(a, n),
        merge_maps(a, b.insert(n, s)) == merge_maps(a, b).insert(
            n,
            combine(stats_of(merge_maps(a, b), n), s),
        ),
{
    assert(merge_maps(a, b.insert(n, s)) =~= merge_maps(a, b).insert(
        n,
        combine(stats_of(merge_maps(a, b), n), s),
    ));
}

/// Sound statistics are bounded.
pub proof fn lemma_sound_bounded(m: Map<Seq<u8>, Stats>)
    requires
        sound_map(m),
    ensures
        bounded_map(m),
{
}

/// The statistics of two runs of readings, one after the other, are the
/// merge of the statistics of each run.
pub proof fn lemma_aggregate_concat(p: Seq<Reading>, q: Seq<Reading>)
    requires
        sound_readings(p),
        sound_readings(q),
    ensures
        aggregate(p + q) == merge_maps(aggregate(p), aggregate(q)),
    decreases q.len(),
{
    lemma_aggregate_sound(p);
    if q.len() == 0 {
        assert(p + q =~= p);
        lemma_merge_empty(aggregate(p));
    } else {
        let q1 = q.drop_last();
        let x = q.last();
        assert(forall|i: int| 0 <= i < q1.len() ==> q1[i] == q[i]);
        lemma_aggregate_concat(p, q1);
        assert((p + q).drop_last() =~= p + q1);
        assert((p + q).last() == x);
        assert(-999 <= q[q.len() - 1].1 <= 999);
        lemma_aggregate_sound(q1);
        let a = aggregate(p);
        let b = aggregate(q1);
        assert(merge_maps(a, add_reading(b, x.0, x.1)) =~= add_reading(merge_maps(a, b), x.0, x.1));
    }
}

/// The statistics do not depend on the order of the readings: two runs of
/// readings give the same statistics in either order.
pub proof fn lemma_aggregate_order(p: Seq<Reading>, q: Seq<Reading>)
    requires
        sound_readings(p),
        sound_readings(q),
    ensures
        aggregate(p + q) == aggregate(q + p),
{
    lemma_aggregate_concat(p, q);
    lemma_aggregate_concat(q, p);
    lemma_merge_comm(aggregate(p), aggregate(q));
}

/// The statistics depend only on which readings there are, not on their
/// order: any permutation of the readings gives the same statistics.
pub proof fn lemma_aggregate_permutation(p: Seq<Reading>, q: Seq<Reading>)
    requires
        sound_readings(p),
        p.to_multiset() == q.to_multiset(),
    ensures
        aggregate(p) == aggregate(q),
    decreases p.len(),
{
    broadcast use vstd::multiset::group_multiset_axioms;

    p.to_multiset_ensures();
    q.to_multiset_ensures();
    assert(sound_readings(q)) by {
        assert forall|i: int| 0 <= i < q.len() implies -999 <= #[trigger] q[i].1 <= 999 by {
            assert(q.contains(q[i]));
            assert(p.to_multiset().count(q[i]) > 0);
            let k = choose|k: int| 0 <= k < p.len() && p[k] == q[i];
            assert(-999 <= p[k].1 <= 999);
        }
    }
    if p.len() == 0 {
        assert(q.len() == 0);
        assert(aggregate(q) == Map::<Seq<u8>, Stats>::empty());
    } else {
        let x = p.last();
        let p1 = p.drop_last();
        p1.to_multiset_ensures();
        assert(p1.push(x) =~= p);
        assert(p.to_multiset() == p1.to_multiset().insert(x));
        assert(q.to_multiset().count(x) > 0);
        assert(q.contains(x));
        let j = choose|j: int| 0 <= j < q.len() && q[j] == x;
        let q1 = q.remove(j);
        assert(q1.to_multiset() == q.to_multiset().remove(x));
        assert(q1.to_multiset() =~= p1.to_multiset());
        assert(sound_readings(p1)) by {
            assert forall|i: int| 0 <= i < p1.len() implies -999 <= #[trigger] p1[i].1 <= 999 by {
                assert(p1[i] == p[i]);
            }
        }
        lemma_aggregate_permutation(p1, q1);
        let a = q.subrange(0, j);
        let b = q.subrange(j + 1, q.len() as int);
        let xs = seq![x];
        assert(q =~= a + (xs + b));
        assert(q1 =~= a + b);
        assert(sound_readings(a)) by {
            assert forall|i: int| 0 <= i < a.len() implies -999 <= #[trigger] a[i].1 <= 999 by {
                assert(a[i] == q[i]);
            }
        }
        assert(sound_readings(b)) by {
            assert forall|i: int| 0 <= i < b.len() implies -999 <= #[trigger] b[i].1 <= 999 by {
                assert(b[i] == q[j + 1 + i]);
            }
        }
        assert(sound_readings(xs)) by {
            assert(xs[0] == q[j]);
        }
        assert(sound_readings(b + xs)) by {
            assert forall|i: int| 0 <= i < (b + xs).len() implies -999 <= #[trigger] (b + xs)[i].1 <= 999 by {
                if i < b.len() {
                    assert((b + xs)[i] == b[i]);
                } else {
                    assert((b + xs)[i] == xs[0]);
                }
            }
        }
        lemma_aggregate_concat(a, xs + b);
        lemma_aggregate_order(xs, b);
        lemma_aggregate_concat(a, b + xs);
        assert(a + (b + xs) =~= q1.push(x));
        assert(q1.push(x).drop_last() =~= q1);
        assert(aggregate(q1.push(x)) == add_reading(aggregate(q1), x.0, x.1));
        assert(aggregate(p) == add_reading(aggregate(p1), x.0, x.1));
    }
}

} // verus!
