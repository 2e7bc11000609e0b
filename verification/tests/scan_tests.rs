use memory_scanner_lib::Pattern;
use memory_scanner_lib::RegionRead;
use memory_scanner_lib::scan_region;
use memory_scanner_lib::scan_regions;

#[test]
fn test_scan_orders_and_counts() {
    let p = Pattern::from_string("ab cd").unwrap();
    let reads = vec![
        RegionRead { start: 0x1000, bytes: Some(vec![0xAB, 0xCD, 0x00, 0xAB, 0xCD, 0x99]) },
        RegionRead { start: 0x2000, bytes: None },
        RegionRead { start: 0x3000, bytes: Some(vec![0x00, 0xAB, 0xCD, 0x11]) },
    ];
    let all = scan_regions(&p, &reads, 100);
    assert_eq!(all.len(), 3);
    assert_eq!(all[0].address, 0x1000);
    assert_eq!(all[1].address, 0x1003);
    assert_eq!(all[2].address, 0x3001);
    assert_eq!(all[0].matched_bytes, vec![0xAB, 0xCD]);
    assert_eq!(all[1].matched_bytes, vec![0xAB, 0xCD]);
    assert_eq!(all[2].matched_bytes, vec![0xAB, 0xCD]);
}

#[test]
fn test_scan_caps_results() {
    let p = Pattern::from_string("ab cd").unwrap();
    let reads = vec![
        RegionRead { start: 0x1000, bytes: Some(vec![0xAB, 0xCD, 0x00, 0xAB, 0xCD, 0x99]) },
        RegionRead { start: 0x3000, bytes: Some(vec![0x00, 0xAB, 0xCD, 0x11]) },
    ];
    let two = scan_regions(&p, &reads, 2);
    assert_eq!(two.len(), 2);
    assert_eq!(two[0].address, 0x1000);
    assert_eq!(two[1].address, 0x1003);
    let none = scan_regions(&p, &reads, 0);
    assert!(none.is_empty());
}

#[test]
fn test_scan_adjacent_occurrences() {
    let p = Pattern::from_string("ab").unwrap();
    let reads = vec![RegionRead { start: 0x500, bytes: Some(vec![0xAB, 0xAB, 0xAB, 0x00]) }];
    let all = scan_regions(&p, &reads, 10);
    assert_eq!(all.len(), 3);
    assert_eq!(all[0].address, 0x500);
    assert_eq!(all[1].address, 0x501);
    assert_eq!(all[2].address, 0x502);
}

#[test]
fn test_scan_wildcard_captures_bytes() {
    let p = Pattern::from_string("22 xx 60").unwrap();
    let reads = vec![RegionRead { start: 0x10, bytes: Some(vec![0x22, 0x5E, 0x60, 0x77]) }];
    let all = scan_regions(&p, &reads, 10);
    assert_eq!(all.len(), 1);
    assert_eq!(all[0].address, 0x10);
    // the wildcard position reports the byte actually read
    assert_eq!(all[0].matched_bytes, vec![0x22, 0x5E, 0x60]);
}

#[test]
fn test_scan_window_stops_short() {
    // the sliding window never tests the offset whose window would end
    // exactly at the end of the buffer
    let p = Pattern::from_string("ab cd").unwrap();
    let exact = vec![RegionRead { start: 0x0, bytes: Some(vec![0xAB, 0xCD]) }];
    assert!(scan_regions(&p, &exact, 10).is_empty());
    let padded = vec![RegionRead { start: 0x0, bytes: Some(vec![0xAB, 0xCD, 0x00]) }];
    assert_eq!(scan_regions(&p, &padded, 10).len(), 1);
}

#[test]
fn test_scan_no_readable_regions() {
    let p = Pattern::from_string("ab").unwrap();
    let empty: Vec<RegionRead> = vec![];
    assert!(scan_regions(&p, &empty, 10).is_empty());
    let unreadable = vec![
        RegionRead { start: 0x1000, bytes: None },
        RegionRead { start: 0x2000, bytes: None },
    ];
    assert!(scan_regions(&p, &unreadable, 10).is_empty());
}

#[test]
fn test_scan_region_appends_and_caps() {
    let p = Pattern::from_string("ab").unwrap();
    let mut results = Vec::new();
    scan_region(&p, 0x100, &[0xAB, 0x00, 0xAB, 0x01], 3, &mut results);
    assert_eq!(results.len(), 2);
    scan_region(&p, 0x200, &[0xAB, 0xAB, 0xAB, 0xAB, 0x00], 3, &mut results);
    assert_eq!(results.len(), 3);
    assert_eq!(results[0].address, 0x100);
    assert_eq!(results[1].address, 0x102);
    assert_eq!(results[2].address, 0x200);
}
