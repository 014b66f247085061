use bbg::stats::rel;
use bbg::stats::{GraphStats, STAT_RELATIONS};

fn stats(node_count: u64, diameter_bound: u64) -> GraphStats {
    GraphStats {
        node_count,
        relation_sizes: [1, 2, 3, 4, 5, 6, 7, 8, 9, 10, 11],
        max_degree: 4,
        diameter_bound,
    }
}

#[test]
fn serialize_length_is_fixed() {
    // 1 (node_count) + 11 (relations) + 1 (max_degree) + 1 (diameter) = 14 u64s
    assert_eq!(stats(100, 99).serialize().len(), 14 * 8);
}

#[test]
fn commit_is_deterministic() {
    assert_eq!(stats(100, 99).commit(), stats(100, 99).commit());
}

#[test]
fn different_node_count_changes_commitment() {
    assert_ne!(stats(100, 99).commit(), stats(101, 99).commit());
}

#[test]
fn different_diameter_changes_commitment() {
    assert_ne!(stats(100, 99).commit(), stats(100, 50).commit());
}

#[test]
fn relation_index_constants_cover_all_slots() {
    // Highest index must be exactly STAT_RELATIONS - 1.
    assert_eq!(rel::BALANCES, STAT_RELATIONS - 1);
}

#[test]
fn serialization_is_little_endian_in_field_order() {
    let bytes = stats(0x0102, 7).serialize();
    assert_eq!(&bytes[0..8], &[0x02, 0x01, 0, 0, 0, 0, 0, 0]);
    assert_eq!(&bytes[8..16], &1u64.to_le_bytes());
    assert_eq!(&bytes[88..96], &11u64.to_le_bytes());
    assert_eq!(&bytes[96..104], &4u64.to_le_bytes());
    assert_eq!(&bytes[104..112], &7u64.to_le_bytes());
}

#[test]
fn different_relation_sizes_change_commitment() {
    let mut other = stats(100, 99);
    other.relation_sizes[rel::SIGNALS] = 0;
    assert_ne!(stats(100, 99).commit(), other.commit());
}
