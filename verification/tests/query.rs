use bbg::query::Dim;
use bbg::query_auth::primary_index;

#[test]
fn dim_roundtrip() {
    for i in 0u64..=10 {
        assert_eq!(Dim::from_u64(i).unwrap().index(), i);
    }
    assert!(Dim::from_u64(11).is_none());
}

#[test]
fn dim_indices_follow_the_namespace_order() {
    assert_eq!(Dim::from_u64(0), Some(Dim::Particles));
    assert_eq!(Dim::from_u64(3), Some(Dim::Neurons));
    assert_eq!(Dim::from_u64(10), Some(Dim::Balances));
    assert_eq!(Dim::Time.index(), 8);
    assert!(Dim::from_u64(u64::MAX).is_none());
}

fn limbs_of(key: &[u8; 32]) -> Vec<u64> {
    key.chunks(4).map(|c| u32::from_le_bytes([c[0], c[1], c[2], c[3]]) as u64).collect()
}

fn table(entries: &[([u8; 32], Vec<u64>)]) -> Vec<u64> {
    let mut fields = vec![1, 0, entries.len() as u64];
    for (key, values) in entries {
        fields.extend(limbs_of(key));
        fields.extend(values.iter().copied());
    }
    fields[1] = fields.len() as u64;
    fields
}

fn height_key(h: u64) -> [u8; 32] {
    let mut key = [0u8; 32];
    key[..8].copy_from_slice(&h.to_le_bytes());
    key
}

#[test]
fn primary_cells_are_found_only_in_exact_ascending_tables() {
    let fields = table(&[([1; 32], vec![7; 12]), ([2; 32], vec![8; 12])]);
    assert_eq!(fields.len(), 43);
    assert_eq!(primary_index(&fields, Dim::Particles, &[1; 32]), Some(11));
    assert_eq!(primary_index(&fields, Dim::Particles, &[2; 32]), Some(31));
    assert_eq!(primary_index(&fields, Dim::Particles, &[3; 32]), None);
    // The declared widths are exact: a neuron entry is six cells, not twelve.
    assert_eq!(primary_index(&fields, Dim::Neurons, &[1; 32]), None);
    let swapped = table(&[([2; 32], vec![8; 12]), ([1; 32], vec![7; 12])]);
    assert_eq!(primary_index(&swapped, Dim::Particles, &[1; 32]), None);
    let duplicate = table(&[([1; 32], vec![7; 12]), ([1; 32], vec![7; 12])]);
    assert_eq!(primary_index(&duplicate, Dim::Particles, &[1; 32]), None);
    let mut trailing = fields.clone();
    trailing.push(0);
    assert_eq!(primary_index(&trailing, Dim::Particles, &[1; 32]), None);
    let mut overcounted = fields.clone();
    overcounted[2] = 3;
    assert_eq!(primary_index(&overcounted, Dim::Particles, &[1; 32]), None);
    let mut wide = fields.clone();
    wide[40] = u32::MAX as u64 + 1;
    assert_eq!(primary_index(&wide, Dim::Particles, &[1; 32]), None);
    assert_eq!(primary_index(&[1, 3], Dim::Particles, &[1; 32]), None);
    assert_eq!(primary_index(&[1, 3, 0], Dim::Particles, &[1; 32]), None);
}

#[test]
fn numeric_dimensions_order_by_height_and_signals_point_at_the_height() {
    let time = table(&[(height_key(1), vec![0; 8]), (height_key(256), vec![0; 8])]);
    assert_eq!(primary_index(&time, Dim::Time, &height_key(256)), Some(27));
    let by_bytes = table(&[(height_key(256), vec![0; 8]), (height_key(1), vec![0; 8])]);
    assert_eq!(primary_index(&by_bytes, Dim::Time, &height_key(1)), None);
    // Byte order would accept it for a dimension keyed by bytes.
    let cards = table(&[(height_key(256), vec![0; 16]), (height_key(1), vec![0; 16])]);
    assert_eq!(primary_index(&cards, Dim::Cards, &height_key(1)), Some(3 + 24 + 8));
    let mut stray = height_key(5);
    stray[9] = 1;
    let strays = table(&[(stray, vec![0; 8])]);
    assert_eq!(primary_index(&strays, Dim::Time, &stray), None);
    let signals = table(&[(height_key(5), vec![0; 28])]);
    assert_eq!(primary_index(&signals, Dim::Signals, &height_key(5)), Some(3 + 8 + 16));
    let axons = table(&[([4; 32], vec![1, 0, 9, 9, 9, 9, 9, 9, 9, 9])]);
    assert_eq!(primary_index(&axons, Dim::AxonsOut, &[4; 32]), Some(11));
    let short = table(&[([4; 32], vec![2, 0, 9, 9, 9, 9, 9, 9, 9, 9])]);
    assert_eq!(primary_index(&short, Dim::AxonsIn, &[4; 32]), None);
}
