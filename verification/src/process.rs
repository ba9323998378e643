//! Scanning an input into a table of per-station statistics.
use vstd::prelude::*;
use crate::readings::{
    NEWLINE, SEMICOLON, Reading, after_reading, first_index_from, lemma_first_index_from,
    lemma_readings_concat, lemma_readings_sound, lemma_readings_sound_all, parse_temperature, prepend,
    readings, readings_from,
};
use crate::stats::{
    add_reading, aggregate, combine, empty_stats, single, lemma_aggregate_concat, lemma_aggregate_sound, lemma_merge_dom,
    lemma_aggregate_counts, lemma_merge_empty, lemma_sound_bounded, merge_maps, readings_count, sound_readings,
    station_names, stats_of,
};
use crate::table::{nonzero_hash,
    FNV_OFFSET, FNV_PRIME, KEY_CAPACITY, SLOTS, Slot, Table, empty_layout, fnv1a, fnv_step, slot_hash,
    target_slot,
};

verus! {

/// The inputs that a table can take in: they are well formed, no station
/// name is longer than `KEY_CAPACITY` bytes, there are at most `SLOTS`
/// stations, and no station has more than `u32::MAX` readings.
pub open spec fn acceptable(s: Seq<u8>) -> bool {
    match readings(s) {
        None => false,
        Some(rs) => {
            &&& forall|i: int| 0 <= i < rs.len() ==> (#[trigger] rs[i]).0.len() <= KEY_CAPACITY
            &&& aggregate(rs).dom().len() <= SLOTS
            &&& forall|n: Seq<u8>|
                #[trigger] aggregate(rs).contains_key(n) ==> aggregate(rs)[n].count <= u32::MAX
        },
    }
}

/// Which inputs a table takes in: a well-formed input is acceptable exactly
/// when its station names fit `KEY_CAPACITY` bytes, it has at most `SLOTS`
/// stations, and no station has more than `u32::MAX` readings; in
/// particular every such input of at most `u32::MAX` readings is.
pub proof fn lemma_acceptable(s: Seq<u8>)
    requires
        readings(s) is Some,
    ensures
        acceptable(s) <==> ({
            let rs = readings(s).unwrap();
            &&& forall|i: int| 0 <= i < rs.len() ==> (#[trigger] rs[i]).0.len() <= KEY_CAPACITY
            &&& station_names(rs).len() <= SLOTS
            &&& forall|n: Seq<u8>| #[trigger] station_names(rs).contains(n) ==> readings_count(rs, n) <= u32::MAX
        }),
        ({
            let rs = readings(s).unwrap();
            &&& forall|i: int| 0 <= i < rs.len() ==> (#[trigger] rs[i]).0.len() <= KEY_CAPACITY
            &&& station_names(rs).len() <= SLOTS
            &&& rs.len() <= u32::MAX
        }) ==> acceptable(s),
{
    let rs = readings(s).unwrap();
    lemma_aggregate_counts(rs);
}

/// The slots of the table that takes in readings `rs` one after another:
/// each reading goes to the target slot of its station (stored with the
/// FNV-1a hash of the name), whose statistics it joins.
pub open spec fn layout(rs: Seq<Reading>) -> Seq<Slot>
    decreases rs.len(),
{
    if rs.len() == 0 {
        empty_layout()
    } else {
        let m = layout(rs.drop_last());
        let name = rs.last().0;
        let i = target_slot(m, name, slot_hash(name));
        m.update(i, (slot_hash(name), name, combine(m[i].2, single(rs.last().1))))
    }
}

/// Readings that continue `done` with one more reading of `name` hold every
/// station of `done`, and `name` with at least one more reading.
proof fn lemma_one_more(done: Seq<Reading>, name: Seq<u8>, t: int, all: Seq<Reading>, rest: Seq<Reading>)
    requires
        all == done + (seq![(name, t)] + rest),
        sound_readings(all),
    ensures
        aggregate(all).dom().finite(),
        aggregate(done).dom().insert(name).subset_of(aggregate(all).dom()),
        aggregate(done).dom().finite(),
        stats_of(aggregate(all), name).count >= stats_of(aggregate(done), name).count + 1,
{
    let tail = seq![(name, t)] + rest;
    assert(sound_readings(done)) by {
        assert forall|i: int| 0 <= i < done.len() implies -999 <= #[trigger] done[i].1 <= 999 by {
            assert(all[i] == done[i]);
        }
    }
    assert(sound_readings(tail)) by {
        assert forall|i: int| 0 <= i < tail.len() implies -999 <= #[trigger] tail[i].1 <= 999 by {
            assert(all[done.len() + i] == tail[i]);
        }
    }
    lemma_aggregate_concat(done, tail);
    lemma_aggregate_sound(done);
    lemma_aggregate_sound(tail);
    lemma_aggregate_sound(all);
    lemma_merge_dom(aggregate(done), aggregate(tail));
    assert(tail[0].0 == name);
    assert(aggregate(tail).contains_key(name));
}

/// Scans an input into a table of per-station statistics, or gives `None`
/// when the input is not `acceptable`.
pub fn try_process(data: &[u8]) -> (r: Option<Table>)
    ensures
        match r {
            Some(t) => {
                &&& acceptable(data@)
                &&& t.wf()
                &&& t@ == aggregate(readings(data@).unwrap())
                &&& t.fnv_keyed()
                &&& t.slots() == layout(readings(data@).unwrap())
            },
            None => !acceptable(data@),
        },
{
    let mut table = Table::new();
    let mut pos: usize = 0;
    let len = data.len();
    let ghost mut done: Seq<Reading> = Seq::empty();
    proof {
        reveal(readings);
        if let Some(r) = readings_from(data@, 0) {
            assert(done + r =~= r);
        }
        lemma_readings_sound(data@, 0);
    }
    while pos < len
        invariant
            len == data@.len(),
            pos <= len,
            table.wf(),
            table@ == aggregate(done),
            table.fnv_keyed(),
            table.slots() == layout(done),
            sound_readings(done),
            forall|i: int| 0 <= i < done.len() ==> (#[trigger] done[i]).0.len() <= KEY_CAPACITY,
            readings(data@) == prepend(done, readings_from(data@, pos as int)),
            readings(data@) matches Some(rs) ==> sound_readings(rs),
        decreases len - pos,
    {
        if data[pos] == NEWLINE {
            pos = pos + 1;
            continue;
        }
        let name_start = pos;
        let mut h: u32 = FNV_OFFSET;
        while pos < len && data[pos] != SEMICOLON
            invariant
                len == data@.len(),
                name_start <= pos <= len,
                h == fnv1a(data@.subrange(name_start as int, pos as int)),
                forall|j: int| name_start <= j < pos ==> data@[j] != SEMICOLON,
            decreases len - pos,
        {
            let b = data[pos];
            proof {
                let s = data@.subrange(name_start as int, pos as int + 1);
                assert(s.drop_last() =~= data@.subrange(name_start as int, pos as int));
                reveal(fnv_step);
            }
            h = (h ^ (b as u32)).wrapping_mul(FNV_PRIME);
            pos = pos + 1;
        }
        proof {
            lemma_first_index_from(data@, name_start as int, SEMICOLON);
            assert(first_index_from(data@, name_start as int, SEMICOLON) == pos);
        }
        if pos >= len {
            return None;
        }
        let name = &data[name_start..pos];
        let reading = parse_temperature(data, pos + 1);
        let (t, end) = match reading {
            None => {
                return None;
            },
            Some(x) => x,
        };
        proof {
            crate::readings::lemma_reading_at_end(data@, pos as int + 1);
        }
        let mut next = end;
        if next < len && data[next] == NEWLINE {
            next = next + 1;
        }
        let ghost rec: Reading = (name@, t as int);
        let ghost rest = readings_from(data@, next as int);
        proof {
            assert(next as int == after_reading(data@, end as int));
            assert(readings_from(data@, name_start as int) == prepend(seq![rec], rest));
            if let Some(r) = rest {
                assert(done + (seq![rec] + r) =~= done.push(rec) + r);
            }
        }
        if name.len() > KEY_CAPACITY {
            proof {
                if let Some(r) = rest {
                    let all = done + (seq![rec] + r);
                    assert(all[done.len() as int] == rec);
                }
            }
            return None;
        }
        proof {
            table.lemma_fnv_fits(name@);
        }
        let ghost t0 = table;
        let slot = table.get_or_insert(name, h);
        match slot {
            None => {
                proof {
                    if let Some(r) = rest {
                        let all = done + (seq![rec] + r);
                        lemma_one_more(done, name@, t as int, all, r);
                        vstd::set_lib::lemma_len_subset(
                            aggregate(done).dom().insert(name@),
                            aggregate(all).dom(),
                        );
                    }
                }
                return None;
            },
            Some(i) => {
                if table.entries[i].count == u32::MAX {
                    proof {
                        if let Some(r) = rest {
                            let all = done + (seq![rec] + r);
                            lemma_one_more(done, name@, t as int, all, r);
                            assert(aggregate(all).contains_key(name@));
                        }
                    }
                    return None;
                }
                proof {
                    lemma_aggregate_sound(done);
                    let st = stats_of(aggregate(done), name@);
                    if aggregate(done).contains_key(name@) {
                        assert(-999 * st.count <= st.sum <= 999 * st.count);
                        assert(st.count < 0x1_0000_0000);
                        assert(-999 * st.count >= -999 * 0x1_0000_0000) by (nonlinear_arith)
                            requires
                                st.count < 0x1_0000_0000,
                        ;
                        assert(999 * st.count <= 999 * 0x1_0000_0000) by (nonlinear_arith)
                            requires
                                st.count < 0x1_0000_0000,
                        ;
                    }
                    assert(-999 <= t <= 999) by {
                        let all = done + (seq![rec] + rest.unwrap());
                        assert(all[done.len() as int] == rec);
                    }
                }
                let ghost t1 = table;
                table.record_reading(i, t);
                proof {
                    let done2 = done.push(rec);
                    assert(done2.drop_last() =~= done);
                    let m = layout(done);
                    let hh = slot_hash(name@);
                    assert(nonzero_hash(h) == hh);
                    assert(target_slot(m, name@, h) == target_slot(m, name@, hh));
                    t0.lemma_view();
                    if t0@.contains_key(name@) {
                        assert(m[i as int].2 == stats_of(aggregate(done), name@));
                    } else {
                        assert(t0.slot_clean(i as int));
                        assert(m[i as int].2 == empty_stats());
                    }
                    assert(table.slots() =~= m.update(
                        i as int,
                        (hh, name@, combine(m[i as int].2, single(t as int))),
                    ));
                    assert(layout(done2) == m.update(
                        i as int,
                        (hh, name@, combine(m[i as int].2, single(t as int))),
                    ));
                    assert forall|x: int| 0 <= x < 4096 && #[trigger] table.occupied(x) implies table.hashes@[x]
                        == slot_hash(table.name_at(x)) by {
                        if x != i as int {
                            assert(table.entries@[x] == t0.entries@[x]);
                            assert(t0.occupied(x));
                        } else {
                            assert(table.name_at(x) == name@);
                        }
                    }
                    assert(table@ =~= add_reading(aggregate(done), name@, t as int));
                    let done2 = done.push(rec);
                    assert(done2.drop_last() =~= done);
                    assert(aggregate(done2) == add_reading(aggregate(done), name@, t as int));
                    assert(sound_readings(done2)) by {
                        let all = done + (seq![rec] + rest.unwrap());
                        assert(all[done.len() as int] == rec);
                    }
                    done = done2;
                }
            },
        }
        pos = next;
    }
    proof {
        assert(readings_from(data@, pos as int) == Some(Seq::<Reading>::empty()));
        assert(done + Seq::<Reading>::empty() =~= done);
        table.lemma_view_bounded();
        table.lemma_view();
    }
    Some(table)
}

/// Scans an acceptable input into a table of per-station statistics.
pub fn process(data: &[u8]) -> (t: Table)
    requires
        acceptable(data@),
    ensures
        t.wf(),
        t@ == aggregate(readings(data@).unwrap()),
        t.fnv_keyed(),
        t.slots() == layout(readings(data@).unwrap()),
{
    match try_process(data) {
        Some(t) => t,
        None => Table::new(),
    }
}

/// Scanning equal inputs gives equal tables, slot for slot: the slots of a
/// scanned table are fixed by the input, and the slots fix the table.
pub proof fn lemma_process_deterministic(t1: &Table, t2: &Table, data: Seq<u8>)
    requires
        t1.wf(),
        t2.wf(),
        readings(data) is Some,
        t1.slots() == layout(readings(data).unwrap()),
        t2.slots() == layout(readings(data).unwrap()),
    ensures
        t1.hashes@ == t2.hashes@,
        t1.entries@ == t2.entries@,
{
    Table::lemma_slots_determine(t1, t2);
}

/// Tables of the parts of an input, merged, give the table of the whole:
/// when input `a` parses on its own, `a` followed by `b` parses exactly
/// when `b` does, into the readings of `a` followed by those of `b`, and its
/// statistics are the merge of those of `a` and of `b`, also when both are
/// merged one after the other into an empty table.
pub proof fn lemma_merge_parts(a: Seq<u8>, b: Seq<u8>)
    requires
        readings(a) is Some,
    ensures
        readings(a + b) == prepend(readings(a).unwrap(), readings(b)),
        readings(b) is Some ==> aggregate(readings(a + b).unwrap()) == merge_maps(
            aggregate(readings(a).unwrap()),
            aggregate(readings(b).unwrap()),
        ),
        readings(b) is Some ==> aggregate(readings(a + b).unwrap()) == merge_maps(
            merge_maps(Map::empty(), aggregate(readings(a).unwrap())),
            aggregate(readings(b).unwrap()),
        ),
{
    lemma_readings_concat(a, b);
    if readings(b) is Some {
        lemma_readings_sound_all(a);
        lemma_readings_sound_all(b);
        lemma_aggregate_sound(readings(a).unwrap());
        lemma_sound_bounded(aggregate(readings(a).unwrap()));
        lemma_merge_empty(aggregate(readings(a).unwrap()));
        lemma_aggregate_concat(readings(a).unwrap(), readings(b).unwrap());
    }
}

} // verus!
