use concord::import::{
    allocated, checked_add, count_allocation, ensure_expansion_headroom, headroom, inode_headroom, preflight, rounded, ImportSize, Kind,
};
use concord::resource::{
    filesystem, footprint, high_status, host_memory, inode_stats, inspect, observed_inodes, rank, unknown, used_percent, used_status, worst,
    Inodes, Scan, Status, GIB, SEAT_CRIT, SEAT_WARN, TASK_CRIT, TASK_WARN,
};

#[test]
fn status_labels_and_ranks() {
    assert_eq!(Status::Okay.label(), "OK");
    assert_eq!(Status::Unknown.label(), "UNKNOWN");
    assert_eq!(rank(Status::Crit), 3);
    assert_eq!(rank(Status::Unknown), 1);
}

#[test]
fn worst_is_symmetric_and_idempotent() {
    let all = [Status::Okay, Status::Warn, Status::Crit, Status::Unknown];
    for a in all {
        assert_eq!(worst(a, a), a);
        assert_eq!(worst(Status::Okay, a), a);
        for b in all {
            assert_eq!(worst(a, b), worst(b, a));
            for c in all {
                assert_eq!(worst(worst(a, b), c), worst(a, worst(b, c)));
            }
        }
    }
    assert_eq!(worst(Status::Unknown, Status::Warn), Status::Warn);
}

#[test]
fn thresholds() {
    assert_eq!(high_status(TASK_WARN - 1, TASK_WARN, TASK_CRIT), Status::Okay);
    assert_eq!(high_status(TASK_WARN, TASK_WARN, TASK_CRIT), Status::Warn);
    assert_eq!(high_status(TASK_CRIT, TASK_WARN, TASK_CRIT), Status::Crit);
    assert_eq!(used_status(59), Status::Okay);
    assert_eq!(used_status(60), Status::Warn);
    assert_eq!(used_status(75), Status::Crit);
    assert_eq!((SEAT_WARN, SEAT_CRIT, GIB), (512 * 1024 * 1024, 2 * GIB, 1073741824));
}

#[test]
fn used_percent_is_bounded() {
    assert_eq!(used_percent(0, 0), 100);
    assert_eq!(used_percent(200, 50), 75);
    assert_eq!(used_percent(100, 150), 0);
    assert_eq!(used_percent(3, 0), 100);
    assert_eq!(used_percent(u64::MAX, 0), 1);
    assert_eq!(used_percent(u64::MAX, u64::MAX / 2), 1);
    assert_eq!(used_percent(1000, 250), 75);
}

#[test]
fn footprints() {
    let f = footprint("task", "/s/a", Ok(Scan { bytes: 3 * GIB, entries: 4 }), TASK_WARN, TASK_CRIT);
    assert_eq!((f.status, f.bytes, f.entries, f.note.is_none()), (Status::Warn, Some(3 * GIB), Some(4), true));
    let f = footprint("task", "/s/a", Err("gone".to_string()), TASK_WARN, TASK_CRIT);
    assert_eq!((f.status, f.bytes, f.note.as_deref()), (Status::Unknown, None, Some("gone")));
    assert_eq!(unknown("r", "/p", "n".to_string()).name, "r");
}

#[test]
fn filesystem_and_inodes() {
    assert_eq!(inode_stats(0, 0), None);
    let i = inode_stats(100, 30).unwrap();
    assert_eq!((i.status, i.used_percent), (Status::Warn, 70));
    let (held, note) = observed_inodes(Ok(None));
    assert_eq!((held, note.as_deref()), (None, Some("inode capacity is unavailable on this platform")));
    let o = filesystem(Ok((100, 50)), (Some(Inodes { status: Status::Crit, total: 10, available: 1, used_percent: 90 }), None));
    assert_eq!(o.status, Status::Crit);
    assert_eq!(o.value.unwrap().used_percent, 50);
    let o = filesystem(Err("no fs".to_string()), (None, None));
    assert_eq!((o.status, o.note.as_deref()), (Status::Unknown, Some("no fs")));
}

#[test]
fn host_memory_levels() {
    let o = host_memory(0, 0, 0, 0);
    assert_eq!((o.status, o.note.as_deref()), (Status::Unknown, Some("host memory capacity is unavailable")));
    assert_eq!(host_memory(100, 25, 0, 0).status, Status::Crit);
    assert_eq!(host_memory(100, 40, 0, 0).status, Status::Warn);
    let o = host_memory(100, 41, 7, 3);
    assert_eq!(o.status, Status::Okay);
    let v = o.value.unwrap();
    assert_eq!((v.available_percent, v.swap_total_bytes, v.swap_used_bytes), (41, 7, 3));
}

#[test]
fn task_status_is_the_worst_of_its_parts() {
    let ok = footprint("task", "/t", Ok(Scan { bytes: 1, entries: 1 }), TASK_WARN, TASK_CRIT);
    let bad = footprint("resource:x", "/t/x", Err("denied".to_string()), SEAT_WARN, SEAT_CRIT);
    let fs = filesystem(Ok((10, 10)), (None, None));
    let mem = host_memory(10, 10, 0, 0);
    let r = inspect("a/b".to_string(), ok.clone(), vec![], None, vec![bad], fs, mem);
    assert_eq!(r.status, Status::Unknown);
    assert_eq!(r.identity, "a/b");
}

#[test]
fn sizes_round_up_to_the_granularity() {
    assert_eq!(rounded(1, 4096).unwrap(), 4096);
    assert_eq!(rounded(4096, 4096).unwrap(), 4096);
    assert_eq!(rounded(0, 4096).unwrap(), 0);
    assert_eq!(rounded(7, 0).unwrap(), 7);
    assert_eq!(rounded(u64::MAX, 2).unwrap_err().message, "resource size overflows");
    assert_eq!(checked_add(1, 2, "x").unwrap(), 3);
    assert_eq!(checked_add(u64::MAX, 1, "resource size").unwrap_err().message, "resource size overflows");
}

#[test]
fn import_size_takes_paths() {
    let mut size = ImportSize::new();
    size.take(Kind::Directory, 4096, "/s").unwrap();
    size.take(Kind::File { len: 10 }, 4096, "/s/a").unwrap();
    size.close(4096).unwrap();
    assert_eq!(size, ImportSize { logical_bytes: 10, required_bytes: 3 * 4096, entries: 2 });
    let e = size.take(Kind::Link, 4096, "/s/l").unwrap_err();
    assert_eq!(e.message, "resource import refuses symbolic link /s/l");
    let e = size.take(Kind::Special, 4096, "/s/p").unwrap_err();
    assert_eq!(e.message, "resource import refuses special file /s/p");
}

#[test]
fn headroom_keeps_a_reserve() {
    assert_eq!(headroom(100 * GIB, 40 * GIB, GIB).unwrap(), 25 * GIB);
    assert_eq!(headroom(2 * GIB, 2 * GIB, 1).unwrap(), GIB);
    let e = headroom(100 * GIB, 25 * GIB, 1).unwrap_err();
    assert_eq!(e.message, format!("resource import requires 1 bytes plus {} bytes reserve, but only {} bytes are available", 25 * GIB, 25 * GIB));
    assert_eq!(headroom(0, 0, u64::MAX).unwrap_err().message, "resource headroom overflows");
    assert_eq!(inode_headroom(0, 0, 5).unwrap(), (None, None));
    assert_eq!(inode_headroom(100, 50, 5).unwrap(), (Some(50), Some(25)));
    let e = inode_headroom(100, 20, 5).unwrap_err();
    assert_eq!(e.message, "resource import requires 5 inodes plus 25 reserve, but only 20 are available");
}

#[test]
fn expansion_refuses_a_critical_filesystem() {
    assert!(ensure_expansion_headroom(100, 26).is_ok());
    let e = ensure_expansion_headroom(100, 25).unwrap_err();
    assert_eq!(e.message, "resource expansion refuses filesystem at 75% used (critical threshold 75%)");
}

#[test]
fn preflight_reports_what_an_import_needs() {
    let size = ImportSize { logical_bytes: 10, required_bytes: 8192, entries: 2 };
    let p = preflight("/src".to_string(), "/dst".to_string(), size, 100 * GIB, 50 * GIB, (1000, 900)).unwrap();
    assert_eq!((p.reserve_bytes, p.available_inodes, p.reserve_inodes), (25 * GIB, Some(900), Some(250)));
    assert!(preflight("/src".to_string(), "/dst".to_string(), size, 100 * GIB, 50 * GIB, (1000, 100)).is_err());
}

#[test]
fn hard_links_count_once() {
    let mut links = Vec::new();
    assert!(count_allocation(true, 2, 1, 7, &mut links));
    assert!(!count_allocation(true, 2, 1, 7, &mut links));
    assert!(count_allocation(true, 1, 1, 7, &mut links));
    assert!(count_allocation(false, 3, 1, 8, &mut links));
    assert_eq!(links, vec![(1, 7)]);
    assert_eq!(allocated(8), 4096);
    assert_eq!(allocated(u64::MAX), u64::MAX);
    let mut scan = Scan { bytes: 0, entries: 0 };
    scan.take(true, 10).unwrap();
    scan.take(false, 10).unwrap();
    assert_eq!(scan, Scan { bytes: 10, entries: 2 });
    let mut full = Scan { bytes: u64::MAX, entries: 0 };
    assert_eq!(full.take(true, 1).unwrap_err().message, "resource byte count overflows");
}
