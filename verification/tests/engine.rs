use cidr_aggregate::BlockError;
use cidr_aggregate::BlockSet;
use cidr_aggregate::ClassifiedRecord;
use cidr_aggregate::NetworkBlock;
use cidr_aggregate::block_size;
use cidr_aggregate::mask;
use cidr_aggregate::optimize_blocks_simple;
use cidr_aggregate::process_records;
use cidr_aggregate::try_merge;

fn blk(network: u32, prefix_len: u8) -> NetworkBlock {
    NetworkBlock::new(network, prefix_len).unwrap()
}

fn texts(blocks: &[NetworkBlock]) -> Vec<String> {
    blocks.iter().map(|b| b.to_string()).collect()
}

#[test]
fn masking_on_construction() {
    let b = blk(0x0102_0304, 24);
    assert_eq!(b.network, 0x0102_0300);
    assert_eq!(b.prefix_len, 24);
    assert_eq!(b.network & mask(24), b.network);
    let whole = blk(0xDEAD_BEEF, 0);
    assert_eq!(whole.network, 0);
}

#[test]
fn invalid_prefix_is_rejected() {
    assert_eq!(NetworkBlock::new(0x0102_0304, 33), Err(BlockError::InvalidPrefix));
    assert!(NetworkBlock::new(0x0102_0304, 32).is_ok());
}

#[test]
fn mask_and_block_size_values() {
    assert_eq!(mask(0), 0);
    assert_eq!(mask(8), 0xFF00_0000);
    assert_eq!(mask(24), 0xFFFF_FF00);
    assert_eq!(mask(32), 0xFFFF_FFFF);
    assert_eq!(block_size(32), 1);
    assert_eq!(block_size(24), 256);
    assert_eq!(block_size(1), 0x8000_0000);
}

#[test]
fn last_address_of_block() {
    assert_eq!(blk(0x0100_0000, 23).last(), 0x0100_01FF);
    assert_eq!(blk(0x0100_0000, 32).last(), 0x0100_0000);
    assert_eq!(blk(0, 0).last(), u32::MAX);
}

#[test]
fn containment_is_strict() {
    let coarse = blk(0x0A00_0000, 8);
    let fine = blk(0x0A01_0200, 24);
    assert!(coarse.contains(&fine));
    assert!(!fine.contains(&coarse));
    assert!(!coarse.contains(&coarse));
    let other = blk(0x0B00_0000, 24);
    assert!(!coarse.contains(&other));
}

#[test]
fn merge_of_aligned_halves() {
    let a = blk(0x0100_0000, 24);
    let b = blk(0x0100_0100, 24);
    let merged = try_merge(&a, &b).unwrap();
    assert_eq!(merged, blk(0x0100_0000, 23));
    assert!(merged.contains(&a));
    assert!(merged.contains(&b));
}

#[test]
fn merge_rejects_unequal_prefixes() {
    // 1.0.1.0/24 followed by 1.0.2.0/23: contiguous, but not equal halves.
    let a = blk(0x0100_0100, 24);
    let b = blk(0x0100_0200, 23);
    assert_eq!(try_merge(&a, &b), None);
}

#[test]
fn merge_rejects_misaligned_pair() {
    // 1.0.1.0/24 followed by 1.0.2.0/24: adjacent equal halves of no
    // common supernet, since 1.0.1.0 is not aligned to a /23 boundary.
    let a = blk(0x0100_0100, 24);
    let b = blk(0x0100_0200, 24);
    assert_eq!(try_merge(&a, &b), None);
    // A gap also rejects the merge.
    assert_eq!(try_merge(&blk(0x0100_0000, 24), &blk(0x0100_0200, 24)), None);
    // The whole address space has no coarser supernet.
    assert_eq!(try_merge(&blk(0, 0), &blk(0, 0)), None);
}

#[test]
fn sweep_merges_adjacent_pair() {
    // Scenario: 1.0.1.0/24 and 1.0.0.0/24 collapse to 1.0.0.0/23.
    let out = optimize_blocks_simple(vec![blk(0x0100_0100, 24), blk(0x0100_0000, 24)]);
    assert_eq!(texts(&out), vec!["1.0.0.0/23"]);
}

#[test]
fn sweep_keeps_unmergeable_pair() {
    // Scenario: 1.0.1.0/24 and 1.0.2.0/23 stay as they are, address-ordered.
    let out = optimize_blocks_simple(vec![blk(0x0100_0200, 23), blk(0x0100_0100, 24)]);
    assert_eq!(texts(&out), vec!["1.0.1.0/24", "1.0.2.0/23"]);
}

#[test]
fn sweep_drops_contained_block() {
    // Scenario: 10.0.0.0/8 absorbs 10.1.2.0/24.
    let out = optimize_blocks_simple(vec![blk(0x0A00_0000, 8), blk(0x0A01_0200, 24)]);
    assert_eq!(texts(&out), vec!["10.0.0.0/8"]);
}

#[test]
fn sweep_cascades_four_quarters() {
    // Scenario: four consecutive /26 blocks collapse to one /24 through
    // two /25 merges and a final /24 merge.
    let out = optimize_blocks_simple(vec![
        blk(0x0100_00C0, 26),
        blk(0x0100_0000, 26),
        blk(0x0100_0080, 26),
        blk(0x0100_0040, 26),
    ]);
    assert_eq!(texts(&out), vec!["1.0.0.0/24"]);
}

#[test]
fn sweep_is_idempotent() {
    let first = optimize_blocks_simple(vec![
        blk(0x0100_00C0, 26),
        blk(0x0100_0000, 26),
        blk(0x0100_0080, 26),
        blk(0x0A00_0000, 8),
        blk(0x0A01_0200, 24),
    ]);
    let second = optimize_blocks_simple(first.clone());
    assert_eq!(texts(&first), texts(&second));
}

#[test]
fn sweep_absorbs_exact_duplicates() {
    let out = optimize_blocks_simple(vec![blk(0x0100_0100, 24), blk(0x0100_0100, 24)]);
    assert_eq!(texts(&out), vec!["1.0.1.0/24"]);
}

#[test]
fn sweep_handles_merged_block_appearing_in_input() {
    let out = optimize_blocks_simple(vec![
        blk(0x0100_0000, 23),
        blk(0x0100_0000, 24),
        blk(0x0100_0100, 24),
    ]);
    assert_eq!(texts(&out), vec!["1.0.0.0/23"]);
}

#[test]
fn block_text_rendering() {
    assert_eq!(blk(0xFFFF_FFFF, 32).to_string(), "255.255.255.255/32");
    assert_eq!(blk(0, 0).to_string(), "0.0.0.0/0");
    assert_eq!(blk(0x0A01_0200, 24).to_string(), "10.1.2.0/24");
    assert_eq!(blk(0xC0A8_0001, 32).to_string(), "192.168.0.1/32");
}

#[test]
fn block_set_deduplicates() {
    let mut set = BlockSet::new();
    set.insert(blk(0x0100_0100, 24));
    set.insert(blk(0x0100_0100, 24));
    set.insert(blk(0x0100_0100, 25));
    assert_eq!(set.len(), 2);
    assert!(set.contains(&blk(0x0100_0100, 24)));
    assert!(set.contains(&blk(0x0100_0100, 25)));
    assert!(!set.contains(&blk(0x0100_0000, 24)));
}

fn record(address: u32, prefix_len: u8, code: Option<&str>) -> ClassifiedRecord {
    ClassifiedRecord { address, prefix_len, classification: code.map(String::from) }
}

#[test]
fn home_network_excluded_unclassified_included() {
    // Scenario: one home-classified network and one unclassified network.
    let home = String::from("JP");
    let summary = process_records(
        vec![record(0x0100_0000, 24, Some("JP")), record(0x0100_0100, 24, None)],
        &home,
    );
    assert_eq!(summary.foreign, vec!["1.0.1.0/24"]);
    assert_eq!(summary.total_records, 2);
    assert_eq!(summary.home_records, 1);
    assert_eq!(summary.skipped_records, 0);
    assert_eq!(summary.foreign_before, 1);
    assert_eq!(summary.foreign_after, 1);
}

#[test]
fn foreign_classification_included() {
    let home = String::from("JP");
    let summary = process_records(vec![record(0x0200_0000, 16, Some("US"))], &home);
    assert_eq!(summary.foreign, vec!["2.0.0.0/16"]);
    assert_eq!(summary.home_records, 0);
}

#[test]
fn invalid_prefix_record_is_skipped() {
    let home = String::from("JP");
    let summary = process_records(
        vec![record(0x0200_0000, 40, Some("US")), record(0x0300_0000, 24, None)],
        &home,
    );
    assert_eq!(summary.foreign, vec!["3.0.0.0/24"]);
    assert_eq!(summary.total_records, 2);
    assert_eq!(summary.skipped_records, 1);
    assert_eq!(summary.foreign_before, 1);
}

#[test]
fn pipeline_deduplicates_and_aggregates() {
    let home = String::from("JP");
    let summary = process_records(
        vec![
            record(0x0100_0000, 24, Some("US")),
            record(0x0100_0000, 24, Some("CN")),
            record(0x0100_0100, 24, None),
            record(0x0A00_0000, 8, Some("US")),
            record(0x0A01_0200, 24, None),
        ],
        &home,
    );
    assert_eq!(summary.foreign_before, 4);
    assert_eq!(summary.foreign, vec!["1.0.0.0/23", "10.0.0.0/8"]);
    assert_eq!(summary.foreign_after, 2);
}

#[test]
fn output_is_address_ordered() {
    let out = optimize_blocks_simple(vec![
        blk(0xC000_0000, 8),
        blk(0x0100_0000, 24),
        blk(0x7F00_0000, 16),
    ]);
    assert_eq!(texts(&out), vec!["1.0.0.0/24", "127.0.0.0/16", "192.0.0.0/8"]);
}
