use onebrc::chunks::{find_byte, next_newline, split_parts};
use onebrc::order::name_less;
use onebrc::process::{process, try_process};
use onebrc::readings::parse_temperature;
use onebrc::table::{fnv1a_hash, Entry, Table, SLOTS};

/// Statistics of station `name` in `table`: (min, max, sum, count).
fn stats_of(table: &Table, name: &[u8]) -> Option<(i32, i32, i64, u32)> {
    let mut found = None;
    for (e, &h) in table.entries.iter().zip(table.hashes.iter()) {
        if h != 0 && e.name() == name {
            assert!(found.is_none(), "station held twice");
            found = Some((e.min, e.max, e.sum, e.count));
        }
    }
    found
}

fn station_count(table: &Table) -> usize {
    table.hashes.iter().filter(|&&h| h != 0).count()
}

#[test]
fn temp_manual_cases() {
    let data = b"X;0.0\nX;9.2\nX;-9.2\nX;98.2\nX;-98.2\n";
    let table = process(data);
    let mut found = false;

    for (e, &h) in table.entries.iter().zip(table.hashes.iter()) {
        if h != 0 && e.name() == b"X" {
            found = true;
            assert_eq!(e.min, -982);
            assert_eq!(e.max, 982);
            assert_eq!(e.sum, 0);
            assert_eq!(e.count, 5);
        }
    }

    assert!(found);
}

#[test]
fn parse_temperature_shapes() {
    assert_eq!(parse_temperature(b"1.2", 0), Some((12, 3)));
    assert_eq!(parse_temperature(b"12.3", 0), Some((123, 4)));
    assert_eq!(parse_temperature(b"-1.2", 0), Some((-12, 4)));
    assert_eq!(parse_temperature(b"-12.3", 0), Some((-123, 5)));
    assert_eq!(parse_temperature(b"X;0.0\n", 2), Some((0, 5)));
    assert_eq!(parse_temperature(b"-99.9", 0), Some((-999, 5)));
}

#[test]
fn parse_temperature_malformed() {
    assert_eq!(parse_temperature(b"", 0), None);
    assert_eq!(parse_temperature(b"1.2", 3), None);
    assert_eq!(parse_temperature(b"1.", 0), None);
    assert_eq!(parse_temperature(b"-1.", 0), None);
    assert_eq!(parse_temperature(b"a.2", 0), None);
    assert_eq!(parse_temperature(b"12", 0), None);
    assert_eq!(parse_temperature(b"-12.", 0), None);
}

#[test]
fn process_several_stations() {
    let data = b"Hamburg;12.0\nBulawayo;8.9\nPalembang;38.8\nHamburg;-3.4\n";
    let table = process(data);
    assert_eq!(station_count(&table), 3);
    assert_eq!(stats_of(&table, b"Hamburg"), Some((-34, 120, 86, 2)));
    assert_eq!(stats_of(&table, b"Bulawayo"), Some((89, 89, 89, 1)));
    assert_eq!(stats_of(&table, b"Palembang"), Some((388, 388, 388, 1)));
    assert_eq!(stats_of(&table, b"Paris"), None);
}

#[test]
fn process_blank_lines_and_missing_final_newline() {
    let data = b"\n\nA;1.0\n\nB;2.0";
    let table = process(data);
    assert_eq!(station_count(&table), 2);
    assert_eq!(stats_of(&table, b"A"), Some((10, 10, 10, 1)));
    assert_eq!(stats_of(&table, b"B"), Some((20, 20, 20, 1)));
}

#[test]
fn process_empty_input() {
    let table = process(b"");
    assert_eq!(station_count(&table), 0);
    assert_eq!(table.entries.len(), SLOTS);
    assert_eq!(table.hashes.len(), SLOTS);
}

#[test]
fn process_stores_fnv_hash() {
    let table = process(b"X;1.0\n");
    // FNV-1a of "X" is 3708558887, whose home slot is 3623.
    assert_eq!(table.hashes[3623], 3708558887);
    assert_eq!(table.entries[3623].name(), b"X");
}

#[test]
fn try_process_rejects_malformed() {
    assert!(try_process(b"X1.0\n").is_none());
    assert!(try_process(b"X;1\n").is_none());
    assert!(try_process(b"X;x.0\n").is_none());
    assert!(try_process(b"X;1.0\nY").is_none());
    assert!(try_process(b"X;1.0\nY;").is_none());
}

#[test]
fn try_process_rejects_long_name() {
    let mut data = vec![b'a'; 101];
    data.extend_from_slice(b";1.0\n");
    assert!(try_process(&data).is_none());
    let mut data = vec![b'a'; 100];
    data.extend_from_slice(b";1.0\n");
    let table = try_process(&data).unwrap();
    assert_eq!(stats_of(&table, &vec![b'a'; 100]), Some((10, 10, 10, 1)));
}

#[test]
fn try_process_rejects_too_many_stations() {
    let mut data = Vec::new();
    for i in 0..SLOTS {
        data.extend_from_slice(format!("s{};1.0\n", i).as_bytes());
    }
    let table = try_process(&data).unwrap();
    assert_eq!(station_count(&table), SLOTS);
    data.extend_from_slice(b"s0;2.0\n");
    let table = try_process(&data).unwrap();
    assert_eq!(stats_of(&table, b"s0"), Some((10, 20, 30, 2)));
    data.extend_from_slice(b"extra;2.0\n");
    assert!(try_process(&data).is_none());
}

#[test]
fn get_or_insert_on_full_table() {
    let mut table = Table::new();
    let mut data = Vec::new();
    for i in 0..SLOTS {
        data.extend_from_slice(format!("s{};1.0\n", i).as_bytes());
    }
    table.merge_table(&process(&data));
    let extra = process(b"extra;1.0\n");
    let slot = extra.hashes.iter().position(|&h| h != 0).unwrap();
    assert_eq!(table.get_or_insert(b"extra", extra.hashes[slot]), None);
    let known = process(b"s7;1.0\n");
    let slot = known.hashes.iter().position(|&h| h != 0).unwrap();
    let i = table.get_or_insert(b"s7", known.hashes[slot]).unwrap();
    assert_eq!(table.entries[i].name(), b"s7");
}

#[test]
fn get_or_insert_new_entry_is_empty() {
    let mut table = Table::new();
    let known = process(b"Oslo;1.0\n");
    let slot = known.hashes.iter().position(|&h| h != 0).unwrap();
    let i = table.get_or_insert(b"Oslo", known.hashes[slot]).unwrap();
    assert_eq!(i, slot);
    let e = &table.entries[i];
    assert_eq!((e.min, e.max, e.sum, e.count), (i32::MAX, i32::MIN, 0, 0));
    assert_eq!(e.name(), b"Oslo");
}

#[test]
fn merge_entry_combines() {
    let mut table = process(b"A;1.0\nA;3.0\n");
    let other = process(b"A;-2.0\nA;5.0\nA;0.5\n");
    let slot = other.hashes.iter().position(|&h| h != 0).unwrap();
    table.merge_entry(&other.entries[slot], other.hashes[slot]);
    assert_eq!(stats_of(&table, b"A"), Some((-20, 50, 75, 5)));
}

#[test]
fn merge_entry_into_empty_table() {
    let mut table = Table::new();
    let other = process(b"B;-2.0\nB;5.0\n");
    let slot = other.hashes.iter().position(|&h| h != 0).unwrap();
    table.merge_entry(&other.entries[slot], other.hashes[slot]);
    assert_eq!(stats_of(&table, b"B"), Some((-20, 50, 30, 2)));
}

#[test]
fn parts_merged_equal_whole() {
    let data = b"Hamburg;12.0\nBulawayo;8.9\nPalembang;38.8\nHamburg;-3.4\nOslo;-10.5\nBulawayo;9.0\nOslo;1.5\n";
    let whole = process(data);
    for n in 1..8 {
        let parts = split_parts(data, n);
        assert_eq!(parts.len(), n);
        let mut merged = Table::new();
        for &(s, e) in parts.iter() {
            let t = process(&data[s..e]);
            assert!(merged.try_merge_table(&t));
        }
        for name in [&b"Hamburg"[..], b"Bulawayo", b"Palembang", b"Oslo"] {
            assert_eq!(stats_of(&merged, name), stats_of(&whole, name));
        }
        assert_eq!(station_count(&merged), 4);
    }
}

#[test]
fn merge_order_does_not_matter() {
    let a = process(b"A;1.0\nB;2.0\n");
    let b = process(b"B;-3.0\nC;4.0\n");
    let mut ab = Table::new();
    ab.merge_table(&a);
    ab.merge_table(&b);
    let mut ba = Table::new();
    ba.merge_table(&b);
    ba.merge_table(&a);
    for name in [&b"A"[..], b"B", b"C"] {
        assert_eq!(stats_of(&ab, name), stats_of(&ba, name));
    }
    assert_eq!(stats_of(&ab, b"B"), Some((-30, 20, -10, 2)));
}

#[test]
fn try_merge_table_refuses_too_many_stations() {
    let mut first = Vec::new();
    for i in 0..SLOTS {
        first.extend_from_slice(format!("s{};1.0\n", i).as_bytes());
    }
    let mut table = process(&first);
    let other = process(b"s1;1.0\n");
    assert!(table.try_merge_table(&other));
    assert_eq!(stats_of(&table, b"s1"), Some((10, 10, 20, 2)));
    let other = process(b"new;1.0\n");
    assert!(!table.try_merge_table(&other));
}

#[test]
fn find_byte_cases() {
    assert_eq!(find_byte(b"abc;d", b';'), 3);
    assert_eq!(find_byte(b"abc", b';'), 3);
    assert_eq!(find_byte(b"", b';'), 0);
    assert_eq!(find_byte(b";", b';'), 0);
}

#[test]
fn next_newline_cases() {
    let data = b"ab\ncd\nef";
    assert_eq!(next_newline(data, 0), 3);
    assert_eq!(next_newline(data, 2), 3);
    assert_eq!(next_newline(data, 3), 6);
    assert_eq!(next_newline(data, 6), 8);
    assert_eq!(next_newline(data, 8), 8);
    assert_eq!(next_newline(data, 100), 8);
    assert_eq!(next_newline(b"ab\n", 0), 3);
}

#[test]
fn split_parts_at_row_boundaries() {
    let data = b"A;1.0\nBB;2.0\nCCC;3.0\nD;4.0\n";
    let parts = split_parts(data, 3);
    assert_eq!(parts, vec![(0, 13), (13, 27), (27, 27)]);
    let parts = split_parts(data, 1);
    assert_eq!(parts, vec![(0, 27)]);
    let parts = split_parts(b"", 2);
    assert_eq!(parts, vec![(0, 0), (0, 0)]);
    let parts = split_parts(b"A;1.0", 4);
    assert_eq!(parts, vec![(0, 5), (5, 5), (5, 5), (5, 5)]);
}

#[test]
fn sorted_slots_by_name() {
    let table = process(b"b;1.0\nab;1.0\na;1.0\nB;1.0\nba;1.0\n");
    let order: Vec<Vec<u8>> = table
        .sorted_slots()
        .iter()
        .map(|&i| table.entries[i].name().to_vec())
        .collect();
    assert_eq!(order, vec![b"B".to_vec(), b"a".to_vec(), b"ab".to_vec(), b"b".to_vec(), b"ba".to_vec()]);
}

#[test]
fn name_less_cases() {
    assert!(name_less(b"a", b"b"));
    assert!(name_less(b"a", b"ab"));
    assert!(!name_less(b"ab", b"a"));
    assert!(!name_less(b"a", b"a"));
    assert!(name_less(b"", b"a"));
    assert!(!name_less(b"", b""));
    assert!(name_less(b"Z", b"a"));
}

#[test]
fn entry_zero_is_empty() {
    let e = Entry::zero();
    assert_eq!(e.name(), b"");
    assert_eq!((e.min, e.max, e.sum, e.count), (i32::MAX, i32::MIN, 0, 0));
    assert!(e.has_name(b""));
    assert!(!e.has_name(b"a"));
}

#[test]
fn rows_parse_independently() {
    // A part that parses on its own, followed by more rows, even without a
    // newline in between.
    let joined = process(b"X;1.2Y;3.4\nX;-0.5\n");
    let mut parts = process(b"X;1.2");
    parts.merge_table(&process(b"Y;3.4\nX;-0.5\n"));
    for name in [&b"X"[..], b"Y"] {
        assert_eq!(stats_of(&joined, name), stats_of(&parts, name));
    }
    assert_eq!(stats_of(&joined, b"X"), Some((-5, 12, 7, 2)));
    assert_eq!(station_count(&joined), 2);
}

#[test]
fn row_order_does_not_matter() {
    let a = process(b"A;1.0\nB;2.0\nA;-7.5\n");
    let b = process(b"A;-7.5\nB;2.0\nA;1.0\n");
    for name in [&b"A"[..], b"B"] {
        assert_eq!(stats_of(&a, name), stats_of(&b, name));
    }
    assert_eq!(stats_of(&a, b"A"), Some((-75, 10, -65, 2)));
}

fn taken_slots(table: &Table) -> Vec<usize> {
    (0..SLOTS).filter(|&i| table.hashes[i] != 0).collect()
}

#[test]
fn new_table_holds_zero_entries() {
    let table = Table::new();
    for i in 0..SLOTS {
        assert_eq!(table.hashes[i], 0);
        let e = &table.entries[i];
        assert_eq!(e.key, [0u8; 100]);
        assert_eq!((e.klen, e.min, e.max, e.sum, e.count), (0, i32::MAX, i32::MIN, 0, 0));
    }
}

#[test]
fn get_or_insert_zero_hash_stored_as_one() {
    let mut t = Table::new();
    assert_eq!(t.get_or_insert(b"ab", 0), Some(1));
    assert_eq!(t.hashes[1], 1);
    assert_eq!(t.entries[1].name(), b"ab");
    assert_eq!(taken_slots(&t), vec![1]);
}

#[test]
fn get_or_insert_collision_takes_next_slot() {
    let mut t = Table::new();
    assert_eq!(t.get_or_insert(b"a", 5), Some(5));
    assert_eq!(t.get_or_insert(b"b", 5), Some(6));
    assert_eq!((t.hashes[5], t.entries[5].name()), (5, &b"a"[..]));
    assert_eq!((t.hashes[6], t.entries[6].name()), (5, &b"b"[..]));
    assert_eq!(taken_slots(&t), vec![5, 6]);
    // Looking a station up again gives its slot and changes nothing.
    assert_eq!(t.get_or_insert(b"b", 5), Some(6));
    assert_eq!(taken_slots(&t), vec![5, 6]);
}

#[test]
fn get_or_insert_probe_wraps_around() {
    let mut t = Table::new();
    assert_eq!(t.get_or_insert(b"a", 4095), Some(4095));
    assert_eq!(t.get_or_insert(b"b", 8191), Some(0));
    assert_eq!((t.hashes[4095], t.entries[4095].name()), (4095, &b"a"[..]));
    assert_eq!((t.hashes[0], t.entries[0].name()), (8191, &b"b"[..]));
    assert_eq!(taken_slots(&t), vec![0, 4095]);
}

fn entry_x(min: i32, max: i32, sum: i64, count: u32) -> Entry {
    let mut e = Entry::zero();
    e.key[0] = b'X';
    e.klen = 1;
    e.min = min;
    e.max = max;
    e.sum = sum;
    e.count = count;
    e
}

#[test]
fn merge_entry_with_chosen_hash() {
    let mut t = Table::new();
    t.merge_entry(&entry_x(-982, 982, 0, 5), 7);
    assert_eq!(t.hashes[7], 7);
    let e = &t.entries[7];
    assert_eq!(e.name(), b"X");
    assert_eq!((e.min, e.max, e.sum, e.count), (-982, 982, 0, 5));
    assert_eq!(taken_slots(&t), vec![7]);
}

#[test]
fn merge_entry_twice_either_order() {
    let e1 = entry_x(-50, 30, -20, 2);
    let e2 = entry_x(-10, 120, 200, 3);
    let mut a = Table::new();
    a.merge_entry(&e1, 7);
    a.merge_entry(&e2, 7);
    let mut b = Table::new();
    b.merge_entry(&e2, 7);
    b.merge_entry(&e1, 7);
    let e = &a.entries[7];
    assert_eq!((e.min, e.max, e.sum, e.count), (-50, 120, 180, 5));
    assert_eq!(a.hashes, b.hashes);
    for i in 0..SLOTS {
        let (x, y) = (&a.entries[i], &b.entries[i]);
        assert_eq!((x.key, x.klen, x.min, x.max, x.sum, x.count), (y.key, y.klen, y.min, y.max, y.sum, y.count));
    }
    assert_eq!(taken_slots(&a), vec![7]);
}

#[test]
fn merge_entry_neutral_changes_nothing() {
    let mut t = process(b"X;1.0\nX;-2.0\n");
    let before: Vec<(u32, [u8; 100], u8, i32, i32, i64, u32)> = (0..SLOTS)
        .map(|i| {
            let e = &t.entries[i];
            (t.hashes[i], e.key, e.klen, e.min, e.max, e.sum, e.count)
        })
        .collect();
    let slot = taken_slots(&t)[0];
    let h = t.hashes[slot];
    t.merge_entry(&entry_x(i32::MAX, i32::MIN, 0, 0), h);
    let after: Vec<(u32, [u8; 100], u8, i32, i32, i64, u32)> = (0..SLOTS)
        .map(|i| {
            let e = &t.entries[i];
            (t.hashes[i], e.key, e.klen, e.min, e.max, e.sum, e.count)
        })
        .collect();
    assert_eq!(before, after);
}

#[test]
fn process_same_bytes_same_table() {
    let data = b"Hamburg;12.0\nBulawayo;8.9\nHamburg;-3.4\n\nOslo;1.0\n";
    let a = process(data);
    let b = process(data);
    assert_eq!(a.hashes, b.hashes);
    for i in 0..SLOTS {
        let (x, y) = (&a.entries[i], &b.entries[i]);
        assert_eq!((x.key, x.klen, x.min, x.max, x.sum, x.count), (y.key, y.klen, y.min, y.max, y.sum, y.count));
    }
}

#[test]
fn process_blank_input_is_fresh_table() {
    let t = process(b"\n\n\n");
    for i in 0..SLOTS {
        assert_eq!(t.hashes[i], 0);
        assert_eq!(t.entries[i].key, [0u8; 100]);
        assert_eq!(t.entries[i].count, 0);
    }
}

#[test]
fn get_or_insert_same_name_under_other_hash() {
    let mut t = Table::new();
    assert_eq!(t.get_or_insert(b"a", 5), Some(5));
    // Another hash with the same home slot passes the slot of "a" and takes
    // the next one, so the name is held twice.
    assert_eq!(t.get_or_insert(b"a", 4101), Some(6));
    assert_eq!((t.hashes[6], t.entries[6].name()), (4101, &b"a"[..]));
    // A hash with another home slot starts there.
    assert_eq!(t.get_or_insert(b"a", 9), Some(9));
    assert_eq!(taken_slots(&t), vec![5, 6, 9]);
    // Each hash finds its own slot again.
    assert_eq!(t.get_or_insert(b"a", 4101), Some(6));
    assert_eq!(t.get_or_insert(b"a", 5), Some(5));
    assert_eq!(taken_slots(&t), vec![5, 6, 9]);
}

#[test]
fn fnv1a_hash_values() {
    assert_eq!(fnv1a_hash(b""), 0x811c9dc5);
    assert_eq!(fnv1a_hash(b"a"), 0xe40c292c);
    assert_eq!(fnv1a_hash(b"foobar"), 0xbf9cf968);
}

#[test]
fn fnv_keyed_tables() {
    let t = process(b"Hamburg;12.0
Bulawayo;8.9
");
    assert!(t.is_fnv_keyed());
    assert!(Table::new().is_fnv_keyed());
    let mut u = Table::new();
    u.get_or_insert(b"a", 5);
    assert!(!u.is_fnv_keyed());
    let mut v = Table::new();
    v.get_or_insert(b"a", fnv1a_hash(b"a"));
    assert!(v.is_fnv_keyed());
}

#[test]
fn merge_entries_of_two_stations_either_order() {
    let mut y = entry_x(5, 7, 12, 2);
    y.key[0] = b'Y';
    let x = entry_x(-50, 30, -20, 2);
    let hx = fnv1a_hash(b"X");
    let hy = fnv1a_hash(b"Y");
    let mut a = process(b"X;1.0
Z;2.0
");
    a.merge_entry(&x, hx);
    a.merge_entry(&y, hy);
    let mut b = process(b"X;1.0
Z;2.0
");
    b.merge_entry(&y, hy);
    b.merge_entry(&x, hx);
    for name in [&b"X"[..], b"Y", b"Z"] {
        assert_eq!(stats_of(&a, name), stats_of(&b, name));
    }
    assert_eq!(stats_of(&a, b"X"), Some((-50, 30, -10, 3)));
    assert_eq!(stats_of(&a, b"Y"), Some((5, 7, 12, 2)));
}


#[test]
fn merge_entry_under_other_hash_takes_new_slot() {
    let mut t = Table::new();
    t.merge_entry(&entry_x(-10, 10, 0, 2), 5);
    t.merge_entry(&entry_x(-20, 20, 0, 2), 4101);
    assert_eq!(taken_slots(&t), vec![5, 6]);
    assert_eq!((t.hashes[6], t.entries[6].name()), (4101, &b"X"[..]));
    let (a, b) = (&t.entries[5], &t.entries[6]);
    assert_eq!((a.min, a.max, a.sum, a.count), (-10, 10, 0, 2));
    assert_eq!((b.min, b.max, b.sum, b.count), (-20, 20, 0, 2));
    t.merge_entry(&entry_x(-30, 0, -30, 1), 4101);
    let b = &t.entries[6];
    assert_eq!((b.min, b.max, b.sum, b.count), (-30, 20, -30, 3));
}
