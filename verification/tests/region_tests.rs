use memory_scanner_lib::MemoryRegion;
use memory_scanner_lib::parse_maps;
use memory_scanner_lib::protection_is_readable;
use memory_scanner_lib::region_is_scannable;

#[test]
fn test_parse_maps_readable_lines() {
    let text = "00400000-00401000 r-xp 00000000 08:01 123 /bin/true\n\
                00600000-00601000 ---p 00000000 08:01 123\n\
                7fff0000-7fff2000 rw-p 00000000 00:00 0 [stack]\n";
    let regions = parse_maps(text);
    assert_eq!(regions.len(), 2);
    assert_eq!(regions[0], MemoryRegion { start: 0x00400000, size: 0x1000 });
    assert_eq!(regions[1], MemoryRegion { start: 0x7fff0000, size: 0x2000 });
}

#[test]
fn test_parse_maps_last_line_without_newline() {
    let text = "1000-2000 r--p";
    let regions = parse_maps(text);
    assert_eq!(regions.len(), 1);
    assert_eq!(regions[0], MemoryRegion { start: 0x1000, size: 0x1000 });
}

#[test]
fn test_parse_maps_skips_malformed() {
    let text = "\n\
                deadbeef r-xp\n\
                zz00-zz10 r-xp\n\
                10-8 r-xp\n\
                1000-2000\n\
                2000-3000 ---p\n\
                ffffffffffffffffff-ffffffffffffffffff20 r--p\n\
                3000-4000 r--p\n";
    let regions = parse_maps(text);
    assert_eq!(regions.len(), 1);
    assert_eq!(regions[0], MemoryRegion { start: 0x3000, size: 0x1000 });
}

#[test]
fn test_parse_maps_empty_input() {
    assert!(parse_maps("").is_empty());
    assert!(parse_maps("\n\n").is_empty());
}

#[test]
fn test_region_is_scannable() {
    // committed, ordinary protection
    assert!(region_is_scannable(0x1000, 0x04));
    assert!(region_is_scannable(0x1000, 0x00));
    // not committed
    assert!(!region_is_scannable(0x0000, 0x04));
    // guard page
    assert!(!region_is_scannable(0x1000, 0x104));
    // no-access page
    assert!(!region_is_scannable(0x1000, 0x01));
}

#[test]
fn test_protection_is_readable() {
    assert!(protection_is_readable(0x1));
    assert!(protection_is_readable(0x3));
    assert!(protection_is_readable(0x7));
    assert!(!protection_is_readable(0x0));
    assert!(!protection_is_readable(0x2));
    assert!(!protection_is_readable(0x6));
}
