use std::time::Duration;

use latch::asset::AssetRegistry;
use latch::clock::{duration_checked_add, duration_from_nanos, duration_new, duration_saturating_add, nanos_of};
use latch::env::{level_is, line_size_of, mem_total_bytes, mem_total_fits, mem_total_kb_of, names_data_cache, parse_size_token, Memory, DEFAULT_CACHE_LINE, DEFAULT_L1, DEFAULT_L2, DEFAULT_L3, DEFAULT_TOTAL_RAM};
use latch::math::DeterministicRng;
use latch::memory::AllocationTracker;
use latch::net::{cell_id_from_coords, AuthorityMap, CellId, MembershipTable, NodeId, PROTOCOL_VERSION};
use latch::render::WindowConfig;
use latch::time::{tick_duration, SimulationTime, TICK_NANOS, TICK_RATE_HZ};

#[test]
fn simulation_time_is_ticks_times_tick_length() {
    assert_eq!(TICK_RATE_HZ, 60);
    assert_eq!(tick_duration(), Duration::from_nanos(TICK_NANOS));
    let mut t = SimulationTime::new();
    assert_eq!(t.tick_count(), 0);
    assert_eq!(t.total_time(), Duration::ZERO);
    for _ in 0..3 {
        t.advance_tick();
    }
    assert_eq!(t.tick_count(), 3);
    assert_eq!(t.total_time(), Duration::from_nanos(3 * 16_666_000));
}

#[test]
fn clock_helpers_follow_duration() {
    assert_eq!(nanos_of(&Duration::from_millis(2)), 2_000_000);
    assert_eq!(duration_new(1, 5), Duration::new(1, 5));
    assert_eq!(duration_from_nanos(1_500_000_001), Duration::new(1, 500_000_001));
    assert_eq!(duration_saturating_add(Duration::MAX, Duration::from_nanos(1)), Duration::MAX);
    assert_eq!(duration_checked_add(Duration::MAX, Duration::from_nanos(1)), None);
    assert_eq!(duration_checked_add(Duration::from_secs(1), Duration::from_secs(2)), Some(Duration::from_secs(3)));
}

#[test]
fn rng_same_seed_same_sequence() {
    let mut a = DeterministicRng::new(42);
    let mut b = DeterministicRng::new(42);
    let first = a.next_u32();
    assert_eq!(first, b.next_u32());
    assert_eq!(first as u64, (1664525u64 * 42 + 1013904223) % (1u64 << 32));
    assert_eq!(a.next_u32(), b.next_u32());
    let mut c = DeterministicRng::new(43);
    assert_ne!(c.next_u32(), first);
}

#[test]
fn rng_wraps_around_64_bits() {
    let mut r = DeterministicRng::new(u64::MAX);
    let expected = 1664525u64.wrapping_mul(u64::MAX).wrapping_add(1013904223) % (1u64 << 32);
    assert_eq!(r.next_u32() as u64, expected);
}

#[test]
fn size_tokens_parse_with_suffixes() {
    assert_eq!(parse_size_token(b"32K"), Some(32 * 1024));
    assert_eq!(parse_size_token(b" 8M\n"), Some(8 * 1024 * 1024));
    assert_eq!(parse_size_token(b"2G"), Some(2 * 1024 * 1024 * 1024));
    assert_eq!(parse_size_token(b"64"), Some(64));
    assert_eq!(parse_size_token(b"K"), None);
    assert_eq!(parse_size_token(b""), None);
    assert_eq!(parse_size_token(b"12Q"), None);
}

#[test]
fn memory_defaults_fill_missing_probes() {
    let m = Memory::from_probes(None, Some(49152), None, None, Some(8));
    assert_eq!(m.cache_line, DEFAULT_CACHE_LINE);
    assert_eq!(m.l1, 49152);
    assert_eq!(m.l2, DEFAULT_L2);
    assert_eq!(m.l3, DEFAULT_L3);
    assert_eq!(m.total_ram, 8);
    let d = Memory::from_probes(None, None, None, None, None);
    assert_eq!(d.l1, DEFAULT_L1);
    assert_eq!(d.total_ram, DEFAULT_TOTAL_RAM);
}

#[test]
fn cell_ids_pack_z_high_and_x_low() {
    assert_eq!(cell_id_from_coords(1, 2), CellId((2u64 << 32) | 1));
    assert_eq!(cell_id_from_coords(-1, 0), CellId(0xFFFF_FFFF));
    assert_eq!(cell_id_from_coords(0, -1), CellId(0xFFFF_FFFF_0000_0000));
    assert_eq!(PROTOCOL_VERSION, 1);
}

#[test]
fn authority_map_has_no_owner() {
    let mut m = AuthorityMap::new();
    m.assign_authority(CellId(5), NodeId(1));
    assert_eq!(m.get_authority(CellId(5)), None);
}

#[test]
fn membership_tracks_alive_nodes() {
    let mut t = MembershipTable::new();
    t.add_node(NodeId(1));
    t.add_node(NodeId(2));
    t.add_node(NodeId(3));
    t.mark_suspected(NodeId(2));
    t.mark_dead(NodeId(3));
    t.mark_dead(NodeId(9));
    assert_eq!(t.alive_nodes(), vec![NodeId(1)]);
    t.add_node(NodeId(2));
    let mut alive = t.alive_nodes();
    alive.sort_by_key(|n| n.0);
    assert_eq!(alive, vec![NodeId(1), NodeId(2)]);
}

#[test]
fn allocation_tracker_counts_per_frame() {
    let mut t = AllocationTracker::new();
    t.record_allocation(16);
    t.record_allocation(32);
    assert_eq!(t.frame_allocations(), 48);
    t.reset_frame();
    assert_eq!(t.frame_allocations(), 0);
}

#[test]
fn asset_handles_are_sequential() {
    let mut r = AssetRegistry::new();
    assert_eq!(r.register().0, 1);
    assert_eq!(r.register().0, 2);
}

#[test]
fn window_config_defaults() {
    let c = WindowConfig::default();
    assert_eq!(c.title, "Latch Engine");
    assert_eq!(c.width, 1280);
    assert_eq!(c.height, 720);
}

#[test]
fn parse_size_token_trims_unicode_whitespace() {
    assert_eq!(parse_size_token("\u{a0}32K\u{3000}".as_bytes()), Some(32 * 1024));
    assert_eq!(parse_size_token("4\u{2009}k".as_bytes()), Some(4 * 1024));
    assert_eq!(parse_size_token("\u{85}\u{1680}7\u{2028}".as_bytes()), Some(7));
    assert_eq!(parse_size_token("5\u{200b}".as_bytes()), None);
}

#[test]
fn mem_total_reads_the_first_mem_total_line() {
    let text = b"MemFree:  100 kB\nMemTotal:       16367168 kB\nMemTotal: 5 kB\n";
    assert_eq!(mem_total_kb_of(text), Some(16367168));
    assert!(mem_total_fits(text));
    assert_eq!(mem_total_bytes(text), Some(16367168 * 1024));
}

#[test]
fn mem_total_needs_the_label_at_a_line_start() {
    assert_eq!(mem_total_kb_of(b"XMemTotal: 5 kB\n"), None);
    assert_eq!(mem_total_kb_of(b"Free: 1\nMemTotal:\t+42\r\n"), Some(42));
    assert_eq!(mem_total_kb_of(b""), None);
}

#[test]
fn mem_total_stops_at_a_bad_or_missing_word() {
    // The first MemTotal line decides, even when a later one is readable.
    assert_eq!(mem_total_kb_of(b"MemTotal: abc kB\nMemTotal: 7 kB\n"), None);
    assert_eq!(mem_total_kb_of(b"MemTotal:   \n5 kB\n"), None);
    assert_eq!(mem_total_kb_of(b"MemTotal: 12x kB\n"), None);
    assert_eq!(mem_total_kb_of(b"MemTotal: -3 kB\n"), None);
    assert_eq!(mem_total_kb_of(b"MemTotal: 18446744073709551616 kB\n"), None);
    assert_eq!(mem_total_kb_of(b"MemTotal: 18446744073709551615 kB\n"), Some(u64::MAX));
    assert!(!mem_total_fits(b"MemTotal: 18446744073709551615 kB\n"));
}

#[test]
fn cache_listing_words_are_read_with_whitespace_trimmed() {
    assert!(names_data_cache(b"Data\n"));
    assert!(names_data_cache(b"  Data "));
    assert!(!names_data_cache(b"Instruction\n"));
    assert!(!names_data_cache(b"Unified\n"));
    assert!(!names_data_cache(b"data\n"));
    assert!(level_is(b"2\n", b"2"));
    assert!(!level_is(b"2\n", b"1"));
    assert!(!level_is(b"12\n", b"2"));
    assert_eq!(line_size_of(b"64\n"), Some(64));
    assert_eq!(line_size_of(b"+128"), Some(128));
    assert_eq!(line_size_of(b"0\n"), None);
    assert_eq!(line_size_of(b"64K\n"), None);
    assert_eq!(line_size_of(b"\n"), None);
}
