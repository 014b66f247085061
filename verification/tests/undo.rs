use bbg::prune::PruneState;
use bbg::state::records::Undo;
use bbg::state::BbgState;
use bbg::transition::{key, Error, MAX_BYTES, MAX_KEYS};
use bbg::types::ParticleRecord;

fn le(values: &[u64]) -> Vec<u8> {
    values.iter().flat_map(|v| v.to_le_bytes()).collect()
}

#[test]
fn capture_limit_counts_unique_keys_and_coalesces_repeated_addresses() {
    let state = BbgState::new();
    let prune = PruneState::new();
    let mut undo = Undo::new(&state);
    for n in 0..MAX_KEYS {
        let mut entity = [0; 32];
        entity[..8].copy_from_slice(&(n as u64).to_le_bytes());
        let k = key(13, &entity);
        undo.capture(&state, &prune, &k).unwrap();
        undo.capture(&state, &prune, &k).unwrap();
    }
    assert_eq!(undo.len(), MAX_KEYS);
    assert_eq!(
        undo.capture(&state, &prune, &key(13, &[255; 32])),
        Err(Error::Limit("undo keys"))
    );
}

#[test]
fn oversized_adjacency_is_rejected_before_encoding_a_snapshot() {
    let mut state = BbgState::new();
    let mut prune = PruneState::new();
    let count = MAX_BYTES / 32;
    let mut value = (count as u64).to_le_bytes().to_vec();
    for _ in 0..count {
        value.extend_from_slice(&[2; 32]);
    }
    state.restore_record(&mut prune, &key(2, &[1; 32]), Some(&value)).unwrap();
    let mut undo = Undo::new(&state);
    assert_eq!(
        undo.capture(&state, &prune, &key(2, &[1; 32])),
        Err(Error::Limit("adjacency bytes"))
    );
    assert_eq!(undo.len(), 0);
}

#[test]
fn a_restored_particle_reads_back_as_its_bytes_and_its_record() {
    let mut state = BbgState::new();
    let mut prune = PruneState::new();
    let bytes = le(&[1, 2, 3, 4, 5, 6]);
    let k = key(1, &[7; 32]);
    assert_eq!(state.read_record(&prune, &k), None);
    state.restore_record(&mut prune, &k, Some(&bytes)).unwrap();
    assert_eq!(state.read_record(&prune, &k), Some(bytes));
    assert_eq!(
        state.particle(&[7; 32]),
        Some(ParticleRecord { energy: 1, pi_star: 2, weight: 3, s_yes: 4, s_no: 5, meta_score: 6 })
    );
    state.restore_record(&mut prune, &k, None).unwrap();
    assert_eq!(state.read_record(&prune, &k), None);
    assert_eq!(state.particle(&[7; 32]), None);
}

#[test]
fn malformed_keys_and_values_are_refused_without_a_change() {
    let mut state = BbgState::new();
    let mut prune = PruneState::new();
    assert_eq!(state.restore_record(&mut prune, &[], None), Err(Error::Arguments));
    assert_eq!(state.restore_record(&mut prune, &key(13, &[1; 31]), None), Err(Error::Arguments));
    assert_eq!(
        state.restore_record(&mut prune, &key(13, &[1; 32]), Some(&[0; 7])),
        Err(Error::Arguments)
    );
    assert_eq!(state.restore_record(&mut prune, &key(0, &[]), Some(&[1])), Err(Error::Arguments));
    assert_eq!(state.restore_record(&mut prune, &key(0, &[]), None), Ok(()));
    // Locations are never restored, and a commitment must be a canonical element.
    assert_eq!(state.restore_record(&mut prune, &key(5, &[1; 32]), None), Err(Error::Arguments));
    assert_eq!(
        state.restore_record(&mut prune, &key(11, &[1; 32]), Some(&u64::MAX.to_le_bytes())),
        Err(Error::Arguments)
    );
    // An adjacency list whose count disagrees with its length.
    let mut list = 2u64.to_le_bytes().to_vec();
    list.extend_from_slice(&[3; 32]);
    assert_eq!(
        state.restore_record(&mut prune, &key(2, &[1; 32]), Some(&list)),
        Err(Error::Arguments)
    );
    assert!(state.records(&prune).is_empty());
}

#[test]
fn time_and_signal_records_are_keyed_by_big_endian_height() {
    let mut state = BbgState::new();
    let prune = PruneState::new();
    state.record_time(256, [9; 32]);
    let mut k = vec![9];
    k.extend_from_slice(&256u64.to_be_bytes());
    assert_eq!(state.read_record(&prune, &k), Some(vec![9; 32]));
    k[7] = 0;
    assert_eq!(state.read_record(&prune, &k), None);
}

#[test]
fn undo_restores_captured_records_and_the_height() {
    let mut state = BbgState::new();
    let mut prune = PruneState::new();
    let balance = key(13, &[4; 32]);
    let touched = key(16, &[5; 32]);
    state.restore_record(&mut prune, &balance, Some(&le(&[70]))).unwrap();
    let before = state.records(&prune);

    let mut undo = Undo::new(&state);
    undo.capture(&state, &prune, &key(0, &[])).unwrap();
    undo.capture(&state, &prune, &balance).unwrap();
    undo.capture(&state, &prune, &touched).unwrap();
    assert_eq!(undo.len(), 3);
    state.restore_record(&mut prune, &balance, Some(&le(&[5]))).unwrap();
    state.restore_record(&mut prune, &touched, Some(&le(&[3]))).unwrap();
    // Capturing again keeps the first value.
    undo.capture(&state, &prune, &balance).unwrap();
    assert_eq!(state.balance(&[4; 32]), 5);

    undo.restore(&mut state, &mut prune);
    assert_eq!(state.balance(&[4; 32]), 70);
    assert_eq!(state.read_record(&prune, &touched), None);
    assert_eq!(prune.last_touched(&[5; 32]), None);
    assert_eq!(state.records(&prune), before);
}

#[test]
fn records_ascend_by_domain_then_entity() {
    let mut state = BbgState::new();
    let mut prune = PruneState::new();
    state.restore_record(&mut prune, &key(16, &[1; 32]), Some(&le(&[9]))).unwrap();
    state.restore_record(&mut prune, &key(13, &[2; 32]), Some(&le(&[8]))).unwrap();
    state.restore_record(&mut prune, &key(13, &[1; 32]), Some(&le(&[7]))).unwrap();
    state.restore_record(&mut prune, &key(12, &[3; 32]), Some(&[])).unwrap();
    let records = state.records(&prune);
    let keys: Vec<Vec<u8>> = records.iter().map(|r| r.key.clone()).collect();
    assert_eq!(
        keys,
        vec![key(12, &[3; 32]), key(13, &[1; 32]), key(13, &[2; 32]), key(16, &[1; 32])]
    );
    assert_eq!(records[1].value, le(&[7]));
    assert!(records[0].value.is_empty());
    assert!(state.is_spent(&[3; 32]));
}
