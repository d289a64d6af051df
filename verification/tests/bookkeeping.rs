use memhack::freezer::ValueFreezer;
use memhack::process::{collect_processes, process_name, RawProcessEntry};
use memhack::regions::{RegionInfo, RegionWalk, MEM_COMMIT, PAGE_GUARD, PAGE_NOACCESS};
use memhack::scanner::next_scan;
use memhack::session::{attach_failed_message, Session};
use memhack::table::{sanitize_name, saved_table_names, table_file_name, table_name_from_file, AddressTable};
use memhack::types::{FoundAddress, MemoryRegion, ScanFilter, ScanValue, TableEntry, ValueType};
use memhack::writer::{write_failed_message, write_result};

fn utf16z(s: &str) -> Vec<u16> {
    let mut v: Vec<u16> = s.encode_utf16().collect();
    v.push(0);
    v.extend_from_slice(&[0x41, 0x42]);
    v
}

#[test]
fn freeze_and_unfreeze() {
    let mut f = ValueFreezer::new(50);
    assert_eq!(f.interval_ms(), 50);
    assert!(!f.is_frozen(0x10));
    f.freeze(0x10, ScanValue::U32(99));
    f.freeze(0x20, ScanValue::U8(1));
    assert!(f.is_frozen(0x10));
    let mut a = f.frozen_addresses();
    a.sort();
    assert_eq!(a, vec![0x10, 0x20]);
    f.unfreeze(0x10);
    assert!(!f.is_frozen(0x10));
    assert_eq!(f.frozen_addresses(), vec![0x20]);
}

#[test]
fn freezer_round_writes_each_value() {
    let mut f = ValueFreezer::new(50);
    f.freeze(0x10, ScanValue::U16(0x0102));
    f.freeze(0x10, ScanValue::U16(0x0304));
    f.freeze(0x30, ScanValue::ByteArray(vec![7]));
    let mut w = f.tick().unwrap();
    w.sort();
    assert_eq!(w, vec![(0x10, vec![0x04, 0x03]), (0x30, vec![7])]);
    f.stop();
    assert!(f.tick().is_none());
}

#[test]
fn freeze_then_unfreeze_restores() {
    let mut f = ValueFreezer::new(10);
    f.freeze(1, ScanValue::U8(1));
    f.freeze(2, ScanValue::U8(2));
    f.unfreeze(2);
    assert_eq!(f.frozen_addresses(), vec![1]);
}

fn entry(label: &str) -> TableEntry {
    TableEntry { label: label.to_string(), address: 0x100, value_type: ValueType::I32, frozen: false, freeze_value: None }
}

#[test]
fn address_table_add_remove() {
    let mut t = AddressTable::new("Game");
    assert_eq!(t.game_name, "Game");
    t.add(entry("gold"));
    t.add(entry("hp"));
    assert!(t.remove(5).is_none());
    assert_eq!(t.entries.len(), 2);
    let e = t.remove(0).unwrap();
    assert_eq!(e.label, "gold");
    assert_eq!(t.entries.len(), 1);
    assert_eq!(t.entries[0].label, "hp");
}

#[test]
fn sanitize_names() {
    assert_eq!(sanitize_name("My Game: 2 (v1.0)"), "My_Game__2__v1_0_");
    assert_eq!(sanitize_name("über-game_x"), "über-game_x");
    let once = sanitize_name("a/b\\c.d");
    assert_eq!(sanitize_name(&once), once);
}

#[test]
fn table_files() {
    assert_eq!(table_file_name("Elden Ring"), "Elden_Ring.json");
    assert_eq!(table_name_from_file("Elden_Ring.json"), Some("Elden_Ring".to_string()));
    assert_eq!(table_name_from_file("a.json.json"), Some("a".to_string()));
    assert_eq!(table_name_from_file("notes.txt"), None);
    assert_eq!(table_name_from_file(".json"), Some(String::new()));
    let files = vec!["x.json".to_string(), "readme.md".to_string(), "y.json".to_string()];
    assert_eq!(saved_table_names(&files), vec!["x".to_string(), "y".to_string()]);
    let name = table_file_name("Some.Game");
    assert_eq!(table_name_from_file(&name), Some(sanitize_name("Some.Game")));
}

#[test]
fn process_names_stop_at_nul() {
    assert_eq!(process_name(&utf16z("game.exe")), "game.exe");
    assert_eq!(process_name(&[0x61, 0x62]), "ab");
    assert_eq!(process_name(&[0xD800, 0]), "\u{FFFD}");
}

#[test]
fn process_list_sorted_case_insensitively_and_stable() {
    let entries = vec![
        RawProcessEntry { pid: 0, exe_file: utf16z("[System Process]") },
        RawProcessEntry { pid: 8, exe_file: utf16z("zeta.exe") },
        RawProcessEntry { pid: 4, exe_file: utf16z("Alpha.exe") },
        RawProcessEntry { pid: 9, exe_file: utf16z("beta.exe") },
        RawProcessEntry { pid: 5, exe_file: utf16z("alpha.exe") },
    ];
    let list = collect_processes(&entries);
    let got: Vec<(u32, String)> = list.iter().map(|p| (p.pid, p.name.clone())).collect();
    assert_eq!(
        got,
        vec![
            (4, "Alpha.exe".to_string()),
            (5, "alpha.exe".to_string()),
            (9, "beta.exe".to_string()),
            (8, "zeta.exe".to_string()),
        ]
    );
}

#[test]
fn region_walk() {
    let mut w = RegionWalk::new();
    assert_eq!(w.address, 0);
    w.step(Some(RegionInfo { base_address: 0, region_size: 0x1000, state: 0x10000, protect: PAGE_NOACCESS }));
    assert_eq!(w.address, 0x1000);
    w.step(Some(RegionInfo { base_address: 0x1000, region_size: 0x2000, state: MEM_COMMIT, protect: 0x04 }));
    w.step(Some(RegionInfo { base_address: 0x3000, region_size: 0x1000, state: MEM_COMMIT, protect: 0x04 | PAGE_GUARD }));
    w.step(Some(RegionInfo { base_address: 0x4000, region_size: 0x1000, state: MEM_COMMIT, protect: PAGE_NOACCESS }));
    assert!(!w.done);
    w.step(None);
    assert!(w.done);
    assert_eq!(w.regions, vec![MemoryRegion { base_address: 0x1000, size: 0x2000 }]);
}

#[test]
fn region_walk_stops_at_top_of_address_space() {
    let mut w = RegionWalk::new();
    w.step(Some(RegionInfo { base_address: usize::MAX - 0xFFF, region_size: 0x1000, state: MEM_COMMIT, protect: 0x02 }));
    assert!(w.done);
    assert_eq!(w.regions.len(), 1);
    let mut w = RegionWalk::new();
    w.step(Some(RegionInfo { base_address: 0x10, region_size: 0, state: MEM_COMMIT, protect: 0x02 }));
    assert!(w.done);
    assert!(w.regions.is_empty());
}

#[test]
fn write_outcomes() {
    assert_eq!(write_result(0x1A2B, 4, 4), Ok(()));
    assert_eq!(write_result(0x1A2B, 4, 2), Err("Partial write: 2/4 bytes at 0x1A2B".to_string()));
    assert_eq!(write_failed_message(0xFF, "denied"), "WriteProcessMemory failed at 0xFF: denied");
    assert_eq!(write_result(0, 8, 0), Err("Partial write: 0/8 bytes at 0x0".to_string()));
}

#[test]
fn session_errors_before_attach() {
    let s = Session::new();
    assert_eq!(s.require_process(), Err("No process attached".to_string()));
    assert_eq!(s.require_freezer(), Err("No freezer active".to_string()));
    assert_eq!(s.previous_results().err(), Some("No process attached".to_string()));
    assert_eq!(s.get_scan_results(0, 10).err(), Some("No scan results".to_string()));
    assert_eq!(
        attach_failed_message(1234, "Access is denied."),
        "OpenProcess failed (pid 1234): Access is denied.. Run as Administrator?"
    );
}

fn found(addr: u64) -> FoundAddress {
    FoundAddress { address: addr, current_value: ScanValue::U8(1), previous_bytes: vec![1] }
}

#[test]
fn session_scan_flow() {
    let mut s = Session::new();
    assert_eq!(s.attach(42, "game.exe".to_string()), "Attached to game.exe (PID 42)");
    assert!(s.require_process().is_ok());
    assert_eq!(s.previous_results().err(), Some("No previous scan — run First Scan first".to_string()));
    let sum = s.record_first_scan(&ScanValue::StringUtf16("ab".into()), vec![found(1), found(2), found(3)]);
    assert_eq!((sum.found, sum.scan_number), (3, 1));
    assert_eq!(s.scan_state.as_ref().unwrap().value_type, ValueType::StringUtf16(4));
    assert_eq!(s.previous_results().unwrap().len(), 3);
    let sum = s.record_next_scan(vec![found(2)]);
    assert_eq!((sum.found, sum.scan_number), (1, 2));
    let sum = s.record_next_scan(vec![]);
    assert_eq!((sum.found, sum.scan_number), (0, 3));
    s.reset_scan();
    assert!(s.scan_state.is_none());
    s.detach();
    assert!(s.process.is_none());
}

#[test]
fn scan_results_pages() {
    let mut s = Session::new();
    s.attach(1, "x".to_string());
    s.record_first_scan(&ScanValue::U8(1), (0..5).map(found).collect());
    let p: Vec<u64> = s.get_scan_results(1, 2).unwrap().iter().map(|f| f.address).collect();
    assert_eq!(p, vec![1, 2]);
    let p: Vec<u64> = s.get_scan_results(3, 10).unwrap().iter().map(|f| f.address).collect();
    assert_eq!(p, vec![3, 4]);
    assert!(s.get_scan_results(5, 1).unwrap().is_empty());
    assert!(s.get_scan_results(9, 1).unwrap().is_empty());
    let a: Vec<u64> = s.get_scan_results(0, 2).unwrap().iter().map(|f| f.address).collect();
    let b: Vec<u64> = s.get_scan_results(2, 2).unwrap().iter().map(|f| f.address).collect();
    let c: Vec<u64> = s.get_scan_results(0, 4).unwrap().iter().map(|f| f.address).collect();
    assert_eq!([a, b].concat(), c);
}

#[test]
fn attach_resets_scan() {
    let mut s = Session::new();
    s.attach(1, "a".to_string());
    s.record_first_scan(&ScanValue::U8(1), vec![found(1)]);
    s.attach(2, "b".to_string());
    assert!(s.scan_state.is_none());
    assert_eq!(s.process.as_ref().unwrap().pid, 2);
}

#[test]
fn process_sort_ignores_case() {
    let entries = vec![
        RawProcessEntry { pid: 1, exe_file: utf16z("Zeta.exe") },
        RawProcessEntry { pid: 2, exe_file: utf16z("alpha.exe") },
        RawProcessEntry { pid: 3, exe_file: utf16z("ÉCLAIR.exe") },
        RawProcessEntry { pid: 4, exe_file: utf16z("Beta.exe") },
    ];
    let names: Vec<String> = collect_processes(&entries).into_iter().map(|p| p.name).collect();
    assert_eq!(names, vec!["alpha.exe", "Beta.exe", "Zeta.exe", "ÉCLAIR.exe"]);
}

#[test]
fn add_then_remove_last_restores_table() {
    let mut t = AddressTable::new("g");
    t.add(entry("a"));
    t.add(entry("b"));
    let e = t.remove(1).unwrap();
    assert_eq!(e.label, "b");
    assert_eq!(t.entries.len(), 1);
    assert_eq!(t.entries[0].label, "a");
}

#[test]
fn increased_and_decreased_never_both() {
    let prev = vec![FoundAddress { address: 1, current_value: ScanValue::I8(0), previous_bytes: vec![5] }];
    for b in [0u8, 5, 6, 200] {
        let reads = vec![Some(vec![b])];
        let i = next_scan(&prev, &reads, &ScanFilter::Increased, &[]).len();
        let d = next_scan(&prev, &reads, &ScanFilter::Decreased, &[]).len();
        assert!(i + d <= 1);
    }
}

#[test]
fn paging_through_all_results_gives_each_once() {
    let mut s = Session::new();
    s.attach(1, "x".to_string());
    s.record_first_scan(&ScanValue::U8(1), (0..7).map(found).collect());
    let k = 3;
    let mut all: Vec<u64> = vec![];
    let mut sizes: Vec<usize> = vec![];
    let mut i = 0;
    loop {
        let page = s.get_scan_results(i * k, k).unwrap();
        if page.is_empty() {
            break;
        }
        sizes.push(page.len());
        all.extend(page.iter().map(|f| f.address));
        i += 1;
    }
    assert_eq!(sizes, vec![3, 3, 1]);
    assert_eq!(all, (0..7).collect::<Vec<u64>>());
}

#[test]
fn sanitized_names_are_single_file_names() {
    let nasty = "../..\\etc/passwd:\u{0}\t\n\u{7f}x.json";
    let clean = sanitize_name(nasty);
    for c in clean.chars() {
        assert!(c != '/' && c != '\\' && c != '.' && c != ':' && !c.is_control(), "{clean:?}");
    }
    assert_eq!(clean, "______etc_passwd_____x_json");
    assert_eq!(sanitize_name(&clean), clean);
}

#[test]
fn stopped_freezer_writes_nothing() {
    let mut f = ValueFreezer::new(50);
    f.freeze(0x10, ScanValue::U16(3));
    let round = f.tick().unwrap();
    assert_eq!(round, vec![(0x10, vec![3, 0])]);
    f.stop();
    assert!(f.tick().is_none());
    f.freeze(0x20, ScanValue::U8(1));
    assert!(f.tick().is_none());
}

#[test]
fn saved_table_is_listed() {
    let file = table_file_name("My Game: 2");
    let files = vec!["notes.txt".to_string(), file, "other.json".to_string()];
    assert_eq!(saved_table_names(&files), vec![sanitize_name("My Game: 2"), "other".to_string()]);
}
