use subid::allocation::find_free_range;
use subid::db::{db_entry_line, read_db, DbReadError};
use subid::login_defs::parse_login_defs;
use subid::planning::{
    begin_allocation, confirm_allocation, existing_allocation, propose_allocation, AllocError,
    Confirmation, FirstStep,
};
use subid::queries::{find_owners, has_range, list_ranges, RangeOverflow};
use subid::types::{subid_range, subid_status, subid_type, DbEntry, SubidConfig};

fn entry(uid: u32, start: u64, count: u64, id_type: subid_type) -> DbEntry {
    DbEntry { uid, start, count, id_type }
}

fn cfg(min: u64, max: u64, count: u64) -> SubidConfig {
    SubidConfig {
        uid_min: min,
        uid_max: max,
        uid_count: count,
        gid_min: min,
        gid_max: max,
        gid_count: count,
    }
}

// ---------------------------------------------------------------------------
// Defaults and login.defs
// ---------------------------------------------------------------------------

#[test]
fn default_config_values() {
    let c = SubidConfig::default();
    assert_eq!(c.uid_min, 100000);
    assert_eq!(c.uid_max, 600100000);
    assert_eq!(c.uid_count, 65536);
    assert_eq!(c.gid_min, 100000);
    assert_eq!(c.gid_max, 600100000);
    assert_eq!(c.gid_count, 65536);
}

#[test]
fn login_defs_empty_gives_defaults() {
    assert_eq!(parse_login_defs(b""), SubidConfig::default());
}

#[test]
fn login_defs_sets_all_keys() {
    let text = b"# subordinate ids\n\
SUB_UID_MIN 200000\n\
SUB_UID_MAX\t300000\n\
  SUB_UID_COUNT   1000  \n\
SUB_GID_MIN 400000\r\n\
SUB_GID_MAX 500000\n\
SUB_GID_COUNT 2000";
    let c = parse_login_defs(text);
    assert_eq!(c.uid_min, 200000);
    assert_eq!(c.uid_max, 300000);
    assert_eq!(c.uid_count, 1000);
    assert_eq!(c.gid_min, 400000);
    assert_eq!(c.gid_max, 500000);
    assert_eq!(c.gid_count, 2000);
}

#[test]
fn login_defs_skips_bad_lines() {
    let text = b"SUB_UID_MIN notanumber\nSUB_UID_MAX\n#SUB_UID_COUNT 5\nSUB_GID_MIN -5\nSUB_GID_MAX 99999999999999999999\nOTHER_KEY 7\n";
    assert_eq!(parse_login_defs(text), SubidConfig::default());
}

#[test]
fn login_defs_last_value_wins_and_plus_sign() {
    let c = parse_login_defs(b"SUB_UID_COUNT 10\nSUB_UID_COUNT +20 extra words\n");
    assert_eq!(c.uid_count, 20);
    assert_eq!(c.gid_count, 65536);
}

#[test]
fn login_defs_unicode_whitespace_separates_words() {
    let c = parse_login_defs("\u{a0}SUB_GID_COUNT\u{3000}77\u{2003}\n".as_bytes());
    assert_eq!(c.gid_count, 77);
}

#[test]
fn login_defs_invalid_utf8_line_is_skipped() {
    let mut text: Vec<u8> = b"SUB_UID_MIN 1\n".to_vec();
    text.extend_from_slice(&[0xff, 0xfe, b'\n']);
    text.extend_from_slice(b"SUB_UID_MAX 2\n");
    let c = parse_login_defs(&text);
    assert_eq!(c.uid_min, 1);
    assert_eq!(c.uid_max, 2);
}

// ---------------------------------------------------------------------------
// The database text
// ---------------------------------------------------------------------------

#[test]
fn read_db_parses_entries_in_order() {
    let text = b"1000:100000:65536:u\n1000:100000:65536:g\n# comment\n\n1001:165536:65536:u\n";
    let v = read_db(text).unwrap();
    assert_eq!(
        v,
        vec![
            entry(1000, 100000, 65536, subid_type::IdTypeUid),
            entry(1000, 100000, 65536, subid_type::IdTypeGid),
            entry(1001, 165536, 65536, subid_type::IdTypeUid),
        ]
    );
}

#[test]
fn read_db_skips_malformed_lines() {
    let text = b"1000:1:2\n1000:1:2:3:u\n1000:1:2:x\nabc:1:2:u\n1000: 1:2:u\n4294967296:1:2:u\n1000:1:18446744073709551616:g\n1000:1:2:uu\n";
    assert_eq!(read_db(text).unwrap(), vec![]);
}

#[test]
fn read_db_trims_and_accepts_last_line_without_newline() {
    let text = b"  7:8:9:g \r\n\t1000:+5:6:u";
    assert_eq!(
        read_db(text).unwrap(),
        vec![entry(7, 8, 9, subid_type::IdTypeGid), entry(1000, 5, 6, subid_type::IdTypeUid)]
    );
}

#[test]
fn read_db_max_values() {
    let text = b"4294967295:18446744073709551615:18446744073709551615:u\n";
    assert_eq!(
        read_db(text).unwrap(),
        vec![entry(u32::MAX, u64::MAX, u64::MAX, subid_type::IdTypeUid)]
    );
}

#[test]
fn read_db_invalid_utf8_fails() {
    let mut text: Vec<u8> = b"1000:1:2:u\n".to_vec();
    text.extend_from_slice(&[0xc3, 0x28, b'\n']);
    assert_eq!(read_db(&text), Err(DbReadError::InvalidUtf8));
}

#[test]
fn read_db_non_ascii_line_is_skipped() {
    let text = "1000:1:2:ü\n1001:3:4:g\n".as_bytes();
    assert_eq!(read_db(text).unwrap(), vec![entry(1001, 3, 4, subid_type::IdTypeGid)]);
}

#[test]
fn entry_line_exact_bytes() {
    assert_eq!(
        db_entry_line(&entry(1000, 100000, 65536, subid_type::IdTypeUid)),
        b"1000:100000:65536:u\n".to_vec()
    );
    assert_eq!(db_entry_line(&entry(0, 0, 0, subid_type::IdTypeGid)), b"0:0:0:g\n".to_vec());
    assert_eq!(
        db_entry_line(&entry(u32::MAX, u64::MAX, 10, subid_type::IdTypeGid)),
        b"4294967295:18446744073709551615:10:g\n".to_vec()
    );
}

#[test]
fn append_then_read_round_trip() {
    let mut text: Vec<u8> = b"# header\n5:6:7:g\n".to_vec();
    let before = read_db(&text).unwrap();
    let e = entry(1234, 98765, 4321, subid_type::IdTypeUid);
    text.extend_from_slice(&db_entry_line(&e));
    let mut expected = before.clone();
    expected.push(e);
    assert_eq!(read_db(&text).unwrap(), expected);
}

// ---------------------------------------------------------------------------
// First fit
// ---------------------------------------------------------------------------

#[test]
fn free_range_in_empty_db_starts_at_min() {
    let c = SubidConfig::default();
    assert_eq!(find_free_range(&[], subid_type::IdTypeUid, &c), Some((100000, 65536)));
}

#[test]
fn free_range_after_existing_ranges() {
    let c = SubidConfig::default();
    let es = vec![
        entry(1000, 100000, 65536, subid_type::IdTypeUid),
        entry(1001, 165536, 65536, subid_type::IdTypeUid),
    ];
    assert_eq!(find_free_range(&es, subid_type::IdTypeUid, &c), Some((231072, 65536)));
    // Ranges of the other kind do not count.
    assert_eq!(find_free_range(&es, subid_type::IdTypeGid, &c), Some((100000, 65536)));
}

#[test]
fn free_range_finds_gap_in_unsorted_entries() {
    let c = cfg(100, 1000, 10);
    let es = vec![
        entry(1, 130, 10, subid_type::IdTypeUid),
        entry(2, 100, 15, subid_type::IdTypeUid),
    ];
    assert_eq!(find_free_range(&es, subid_type::IdTypeUid, &c), Some((115, 10)));
}

#[test]
fn free_range_none_when_count_zero_or_limits_empty() {
    assert_eq!(find_free_range(&[], subid_type::IdTypeUid, &cfg(100, 1000, 0)), None);
    assert_eq!(find_free_range(&[], subid_type::IdTypeGid, &cfg(1000, 100, 10)), None);
}

#[test]
fn free_range_none_when_full() {
    let c = cfg(100, 119, 10);
    let es = vec![entry(1, 100, 10, subid_type::IdTypeGid), entry(2, 110, 10, subid_type::IdTypeGid)];
    assert_eq!(find_free_range(&es, subid_type::IdTypeGid, &c), None);
    // Exactly fitting at the top is allowed.
    let es2 = vec![entry(1, 100, 10, subid_type::IdTypeGid)];
    assert_eq!(find_free_range(&es2, subid_type::IdTypeGid, &c), Some((110, 10)));
}

#[test]
fn free_range_gap_beyond_max_is_refused() {
    // The gap before the range at 1000 lies past the maximum of 150.
    let c = cfg(100, 150, 100);
    let es = vec![entry(1, 1000, 10, subid_type::IdTypeUid)];
    assert_eq!(find_free_range(&es, subid_type::IdTypeUid, &c), None);
}

#[test]
fn free_range_found_range_is_free_of_others() {
    let c = cfg(0, 10_000, 7);
    let es = vec![
        entry(1, 3, 5, subid_type::IdTypeUid),
        entry(2, 15, 2, subid_type::IdTypeUid),
        entry(3, 8, 4, subid_type::IdTypeUid),
        entry(4, 20, 30, subid_type::IdTypeGid),
    ];
    let (s, n) = find_free_range(&es, subid_type::IdTypeUid, &c).unwrap();
    assert_eq!((s, n), (17, 7));
    for e in es.iter().filter(|e| e.id_type == subid_type::IdTypeUid) {
        assert!(s + n <= e.start || e.start + e.count <= s);
    }
}

#[test]
fn free_range_skips_past_empty_entry() {
    // A zero-length entry still moves first fit past its start.
    let c = cfg(0, 1000, 10);
    let es = vec![entry(1, 5, 0, subid_type::IdTypeUid)];
    assert_eq!(find_free_range(&es, subid_type::IdTypeUid, &c), Some((5, 10)));
}

#[test]
fn free_range_never_runs_past_max() {
    let c = cfg(u64::MAX - 2, u64::MAX, 10);
    assert_eq!(find_free_range(&[], subid_type::IdTypeUid, &c), None);
    let c2 = cfg(u64::MAX - 9, u64::MAX, 10);
    assert_eq!(find_free_range(&[], subid_type::IdTypeUid, &c2), Some((u64::MAX - 9, 10)));
}

#[test]
fn free_range_sees_entry_at_top_of_u64() {
    let c = cfg(u64::MAX - 9, u64::MAX, 10);
    let es = vec![entry(1, u64::MAX, 1, subid_type::IdTypeUid)];
    assert_eq!(find_free_range(&es, subid_type::IdTypeUid, &c), None);
    let p = entry(1000, u64::MAX - 9, 10, subid_type::IdTypeUid);
    assert_eq!(confirm_allocation(&es, &p), Confirmation::Refused(AllocError::Conflict));
}

#[test]
fn free_range_ignores_order_and_other_kind() {
    let c = cfg(0, 10_000, 7);
    let a = vec![
        entry(1, 3, 5, subid_type::IdTypeUid),
        entry(2, 15, 2, subid_type::IdTypeUid),
        entry(3, 8, 4, subid_type::IdTypeUid),
    ];
    let b = vec![
        entry(9, 0, 100, subid_type::IdTypeGid),
        entry(3, 8, 4, subid_type::IdTypeUid),
        entry(1, 3, 5, subid_type::IdTypeUid),
        entry(2, 15, 2, subid_type::IdTypeUid),
        entry(1, 3, 5, subid_type::IdTypeUid),
    ];
    assert_eq!(
        find_free_range(&a, subid_type::IdTypeUid, &c),
        find_free_range(&b, subid_type::IdTypeUid, &c)
    );
}

// ---------------------------------------------------------------------------
// Queries
// ---------------------------------------------------------------------------

#[test]
fn has_range_checks_containment() {
    let es = vec![entry(1000, 100, 50, subid_type::IdTypeUid)];
    assert_eq!(has_range(&es, 1000, 100, 50, subid_type::IdTypeUid), Ok(true));
    assert_eq!(has_range(&es, 1000, 110, 10, subid_type::IdTypeUid), Ok(true));
    assert_eq!(has_range(&es, 1000, 140, 11, subid_type::IdTypeUid), Ok(false));
    assert_eq!(has_range(&es, 1000, 100, 10, subid_type::IdTypeGid), Ok(false));
    assert_eq!(has_range(&es, 1001, 100, 10, subid_type::IdTypeUid), Ok(false));
}

#[test]
fn has_range_joins_adjacent_entries() {
    let es = vec![
        entry(1000, 100000, 10, subid_type::IdTypeUid),
        entry(1000, 100010, 10, subid_type::IdTypeUid),
    ];
    assert_eq!(has_range(&es, 1000, 100005, 10, subid_type::IdTypeUid), Ok(true));
    assert_eq!(has_range(&es, 1000, 100000, 20, subid_type::IdTypeUid), Ok(true));
    assert_eq!(has_range(&es, 1000, 100005, 16, subid_type::IdTypeUid), Ok(false));
    // A gap between entries, or entries of another user, do not count.
    let gap = vec![
        entry(1000, 100, 10, subid_type::IdTypeUid),
        entry(1001, 110, 1, subid_type::IdTypeUid),
        entry(1000, 111, 10, subid_type::IdTypeUid),
    ];
    assert_eq!(has_range(&gap, 1000, 105, 10, subid_type::IdTypeUid), Ok(false));
    // An empty range is held.
    assert_eq!(has_range(&[], 1000, 5, 0, subid_type::IdTypeUid), Ok(true));
}

#[test]
fn has_range_top_of_u64() {
    let es = vec![entry(1000, u64::MAX - 1, 5, subid_type::IdTypeGid)];
    assert_eq!(has_range(&es, 1000, u64::MAX - 1, 1, subid_type::IdTypeGid), Ok(true));
    assert_eq!(has_range(&es, 1000, u64::MAX - 1, 1, subid_type::IdTypeUid), Ok(false));
}

#[test]
fn has_range_overflow_is_an_error() {
    let es = vec![entry(1000, 100, 50, subid_type::IdTypeUid)];
    assert_eq!(
        has_range(&es, 1000, u64::MAX, 1, subid_type::IdTypeUid),
        Err(RangeOverflow::Overflow)
    );
}

#[test]
fn list_ranges_in_db_order() {
    let es = vec![
        entry(1000, 300, 5, subid_type::IdTypeUid),
        entry(1001, 100, 5, subid_type::IdTypeUid),
        entry(1000, 100, 5, subid_type::IdTypeUid),
        entry(1000, 200, 5, subid_type::IdTypeGid),
    ];
    assert_eq!(list_ranges(&es, 1000, subid_type::IdTypeUid), vec![(300, 5), (100, 5)]);
    assert_eq!(list_ranges(&es, 1000, subid_type::IdTypeGid), vec![(200, 5)]);
    assert_eq!(list_ranges(&es, 42, subid_type::IdTypeGid), vec![]);
}

#[test]
fn find_owners_lists_each_uid_once() {
    let es = vec![
        entry(1002, 0, 100, subid_type::IdTypeUid),
        entry(1000, 40, 20, subid_type::IdTypeUid),
        entry(1002, 50, 1, subid_type::IdTypeUid),
        entry(1003, 50, 1, subid_type::IdTypeGid),
        entry(1004, 60, 10, subid_type::IdTypeUid),
    ];
    assert_eq!(find_owners(&es, 50, subid_type::IdTypeUid), vec![1002, 1000]);
    assert_eq!(find_owners(&es, 60, subid_type::IdTypeUid), vec![1002, 1004]);
    assert_eq!(find_owners(&es, 50, subid_type::IdTypeGid), vec![1003]);
    assert_eq!(find_owners(&es, 1000, subid_type::IdTypeUid), vec![]);
}

// ---------------------------------------------------------------------------
// Allocation decisions
// ---------------------------------------------------------------------------

#[test]
fn existing_allocation_returns_first_match() {
    let es = vec![
        entry(1000, 1, 2, subid_type::IdTypeGid),
        entry(1000, 3, 4, subid_type::IdTypeUid),
        entry(1000, 5, 6, subid_type::IdTypeUid),
    ];
    assert_eq!(existing_allocation(&es, 1000, subid_type::IdTypeUid), Some((3, 4)));
    assert_eq!(existing_allocation(&es, 1000, subid_type::IdTypeGid), Some((1, 2)));
    assert_eq!(existing_allocation(&es, 1001, subid_type::IdTypeGid), None);
}

#[test]
fn begin_allocation_outcomes() {
    let es = vec![entry(10, 1, 2, subid_type::IdTypeUid)];
    assert_eq!(begin_allocation(&es, 10, subid_type::IdTypeUid), FirstStep::Existing(1, 2));
    assert_eq!(
        begin_allocation(&es, 10, subid_type::IdTypeGid),
        FirstStep::Refused(AllocError::SystemUid)
    );
    assert_eq!(begin_allocation(&es, 1000, subid_type::IdTypeUid), FirstStep::Propose);
}

#[test]
fn find_owners_at_top_of_u64() {
    let es = vec![entry(7, u64::MAX, 1, subid_type::IdTypeUid)];
    assert_eq!(find_owners(&es, u64::MAX, subid_type::IdTypeUid), vec![7]);
}

#[test]
fn propose_refuses_system_users() {
    let c = SubidConfig::default();
    assert_eq!(
        propose_allocation(&[], 999, subid_type::IdTypeUid, &c),
        Err(AllocError::SystemUid)
    );
    assert_eq!(
        propose_allocation(&[], 1000, subid_type::IdTypeUid, &c),
        Ok(entry(1000, 100000, 65536, subid_type::IdTypeUid))
    );
}

#[test]
fn propose_reports_no_free_range() {
    let c = cfg(100, 109, 10);
    let es = vec![entry(1000, 100, 10, subid_type::IdTypeUid)];
    assert_eq!(
        propose_allocation(&es, 1001, subid_type::IdTypeUid, &c),
        Err(AllocError::NoFreeRange)
    );
}

#[test]
fn confirm_outcomes() {
    let p = entry(1001, 100, 10, subid_type::IdTypeUid);
    assert_eq!(confirm_allocation(&[], &p), Confirmation::Append(p));
    let taken = vec![entry(1001, 500, 10, subid_type::IdTypeUid)];
    assert_eq!(confirm_allocation(&taken, &p), Confirmation::Existing(500, 10));
    let clash = vec![entry(1002, 105, 10, subid_type::IdTypeUid)];
    assert_eq!(confirm_allocation(&clash, &p), Confirmation::Refused(AllocError::Conflict));
    let other_kind = vec![entry(1002, 105, 10, subid_type::IdTypeGid)];
    assert_eq!(confirm_allocation(&other_kind, &p), Confirmation::Append(p));
    let adjacent = vec![entry(1002, 110, 10, subid_type::IdTypeUid)];
    assert_eq!(confirm_allocation(&adjacent, &p), Confirmation::Append(p));
}

/// Runs one allocation over a database text, as the program does.
fn allocate_in(text: &mut Vec<u8>, uid: u32, ty: subid_type, c: &SubidConfig) -> Result<(u64, u64), AllocError> {
    let entries = read_db(text).unwrap();
    match begin_allocation(&entries, uid, ty) {
        FirstStep::Existing(s, n) => return Ok((s, n)),
        FirstStep::Refused(e) => return Err(e),
        FirstStep::Propose => {}
    }
    let p = propose_allocation(&entries, uid, ty, c)?;
    let now = read_db(text).unwrap();
    match confirm_allocation(&now, &p) {
        Confirmation::Existing(s, n) => Ok((s, n)),
        Confirmation::Refused(e) => Err(e),
        Confirmation::Append(e) => {
            text.extend_from_slice(&db_entry_line(&e));
            Ok((e.start, e.count))
        }
    }
}

#[test]
fn allocation_is_idempotent() {
    let c = SubidConfig::default();
    let mut text: Vec<u8> = Vec::new();
    let first = allocate_in(&mut text, 1000, subid_type::IdTypeUid, &c).unwrap();
    let second = allocate_in(&mut text, 1000, subid_type::IdTypeUid, &c).unwrap();
    assert_eq!(first, (100000, 65536));
    assert_eq!(first, second);
    assert_eq!(read_db(&text).unwrap().len(), 1);
}

#[test]
fn allocations_never_overlap() {
    let c = SubidConfig::default();
    let mut text: Vec<u8> = Vec::new();
    for uid in 1000..1010u32 {
        allocate_in(&mut text, uid, subid_type::IdTypeUid, &c).unwrap();
        allocate_in(&mut text, uid, subid_type::IdTypeGid, &c).unwrap();
    }
    let es = read_db(&text).unwrap();
    assert_eq!(es.len(), 20);
    for (i, a) in es.iter().enumerate() {
        for b in es.iter().skip(i + 1) {
            if a.id_type == b.id_type {
                assert!(a.start + a.count <= b.start || b.start + b.count <= a.start);
                assert_ne!(a.uid, b.uid);
            }
        }
    }
    assert_eq!(
        list_ranges(&es, 1009, subid_type::IdTypeGid),
        vec![(100000 + 9 * 65536, 65536)]
    );
}

#[test]
fn allocated_range_is_held() {
    let c = SubidConfig::default();
    let mut text: Vec<u8> = b"1500:5:5:u\n".to_vec();
    let (s, n) = allocate_in(&mut text, 1000, subid_type::IdTypeGid, &c).unwrap();
    let es = read_db(&text).unwrap();
    assert_eq!(has_range(&es, 1000, s, n, subid_type::IdTypeGid), Ok(true));
    assert_eq!(list_ranges(&es, 1000, subid_type::IdTypeGid), vec![(s, n)]);
    assert_eq!(find_owners(&es, s + n - 1, subid_type::IdTypeGid), vec![1000]);
}

// ---------------------------------------------------------------------------
// Plain types
// ---------------------------------------------------------------------------

#[test]
fn plain_types_compare() {
    assert_ne!(subid_type::IdTypeUid, subid_type::IdTypeGid);
    assert_ne!(subid_status::SubidStatusSuccess, subid_status::SubidStatusError);
    let r = subid_range { start: 1, count: 2 };
    assert_eq!(r, subid_range { start: 1, count: 2 });
}
