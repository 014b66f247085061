use bbg::prune::{estimate_bytes, prune, PruneConfig, PruneState};
use bbg::query::Dim;
use bbg::query_auth::primary_index;
use bbg::signal::{Cyberlink, InsertError, Signal, UtxoMove};
use bbg::state::{axon_id, balance_key, intent_key, BbgState, EPOCH_BLOCKS};
use bbg::types::{IntentRecord, NeuronRecord, Particle, SignalRecord};

fn particle(seed: u8) -> Particle {
    [seed; 32]
}

fn neuron_id(seed: u8) -> Particle {
    [seed; 32]
}

fn make_state() -> BbgState {
    let mut s = BbgState::new();
    s.set_neuron(&neuron_id(1), NeuronRecord { focus: 10_000, karma: 0, stake: 0 });
    s
}

fn insert_link(state: &mut BbgState, ps: &mut PruneState, from: Particle, to: Particle, amount: u64, epoch: u64) {
    let sig = Signal {
        neuron: neuron_id(1),
        links: vec![Cyberlink { from, to, token: particle(0), amount, valence: 1 }],
        utxo_moves: vec![],
        height: epoch * EPOCH_BLOCKS,
    };
    state.insert(&sig).unwrap();
    let aid = axon_id(&from, &to);
    ps.touch(aid, epoch);
}

#[test]
fn stale_low_weight_edge_is_pruned() {
    let mut state = make_state();
    let mut ps = PruneState::new();
    let config = PruneConfig { half_life_epochs: 10, rank_floor_pct: 0, max_bytes: u64::MAX };
    insert_link(&mut state, &mut ps, particle(1), particle(2), 100, 0);
    assert!(state.particle(&axon_id(&particle(1), &particle(2))).is_some());
    prune(&mut state, &mut ps, &config, 11);
    assert!(state.particle(&axon_id(&particle(1), &particle(2))).is_none());
}

#[test]
fn fresh_edge_survives_normal_pruning() {
    let mut state = make_state();
    let mut ps = PruneState::new();
    let config = PruneConfig { half_life_epochs: 100, rank_floor_pct: 0, max_bytes: u64::MAX };
    insert_link(&mut state, &mut ps, particle(1), particle(2), 100, 5);
    prune(&mut state, &mut ps, &config, 10);
    assert!(state.particle(&axon_id(&particle(1), &particle(2))).is_some());
}

#[test]
fn high_rank_edge_is_protected() {
    let mut state = make_state();
    let mut ps = PruneState::new();
    let config = PruneConfig { half_life_epochs: 1, rank_floor_pct: 50, max_bytes: u64::MAX };
    insert_link(&mut state, &mut ps, particle(1), particle(2), 100, 0);
    let aid = axon_id(&particle(1), &particle(2));
    let mut record = state.particle(&aid).unwrap();
    record.pi_star = 9_999;
    state.set_particle(&aid, record);
    prune(&mut state, &mut ps, &config, 100);
    assert!(state.particle(&aid).is_some());
}

#[test]
fn gravity_prunes_fresh_low_density_when_over_budget() {
    let mut state = make_state();
    let mut ps = PruneState::new();
    let config = PruneConfig { half_life_epochs: 10_000, rank_floor_pct: 0, max_bytes: 0 };
    insert_link(&mut state, &mut ps, particle(1), particle(2), 50, 0);
    insert_link(&mut state, &mut ps, particle(3), particle(4), 200, 0);
    prune(&mut state, &mut ps, &config, 1);
    let low_aid = axon_id(&particle(1), &particle(2));
    let hi_aid = axon_id(&particle(3), &particle(4));
    if state.particle(&hi_aid).is_some() {
        assert!(state.particle(&low_aid).is_none());
    }
}

#[test]
fn refresh_resets_staleness() {
    let mut state = make_state();
    let mut ps = PruneState::new();
    let config = PruneConfig { half_life_epochs: 10, rank_floor_pct: 0, max_bytes: u64::MAX };
    insert_link(&mut state, &mut ps, particle(1), particle(2), 100, 0);
    let aid = axon_id(&particle(1), &particle(2));
    ps.touch(aid, 8);
    prune(&mut state, &mut ps, &config, 15);
    assert!(state.particle(&aid).is_some());
}

#[test]
fn double_spend_is_rejected() {
    let mut state = BbgState::new();
    let nullifier = [42u8; 32];
    let sig = Signal {
        neuron: [1u8; 32],
        links: vec![],
        utxo_moves: vec![UtxoMove { nullifier, commitment: None }],
        height: 0,
    };
    state.insert(&sig).unwrap();
    assert_eq!(state.insert(&sig), Err(InsertError::DoubleSpend));
}

#[test]
fn a_cyberlink_moves_weight_energy_focus_and_balance() {
    let mut state = make_state();
    let from = particle(1);
    let to = particle(2);
    let token = particle(0);
    let sig = Signal {
        neuron: neuron_id(1),
        links: vec![
            Cyberlink { from, to, token, amount: 30, valence: 1 },
            Cyberlink { from, to, token, amount: 12, valence: -1 },
        ],
        utxo_moves: vec![UtxoMove { nullifier: [7; 32], commitment: Some(([8; 32], 0xffff_ffff_0000_0005)) }],
        height: 3,
    };
    state.insert(&sig).unwrap();
    let aid = axon_id(&from, &to);
    assert_eq!(state.particle(&aid).unwrap().weight, 42);
    assert_eq!(state.particle(&to).unwrap().energy, 42);
    assert_eq!(state.neuron(&neuron_id(1)).unwrap().focus, 10_000 - 42);
    assert_eq!(state.balance(&balance_key(&to, &token)), 42);
    assert_eq!(state.balance(&balance_key(&from, &token)), 0);
    assert_eq!(state.axons_out(&from), vec![aid]);
    assert_eq!(state.axons_in(&to), vec![aid]);
    assert!(state.is_spent(&[7; 32]));
    assert_eq!(state.commitment(&[8; 32]), Some(4));
    let stats = state.statistics();
    assert_eq!(stats.node_count, 2);
    assert_eq!(stats.relation_sizes, [2, 1, 1, 1, 0, 0, 0, 0, 0, 0, 2]);
    assert_eq!(stats.max_degree, 1);
    assert_eq!(stats.diameter_bound, 1);
    state.set_diameter_bound(7);
    assert_eq!(state.statistics().diameter_bound, 7);
    assert_eq!(estimate_bytes(&state), 2 * 80 + 64 + 64 + 56);
}

#[test]
fn focus_saturates_at_zero() {
    let mut state = make_state();
    let sig = Signal {
        neuron: neuron_id(1),
        links: vec![Cyberlink { from: particle(1), to: particle(2), token: particle(0), amount: 20_000, valence: 0 }],
        utxo_moves: vec![],
        height: 0,
    };
    state.insert(&sig).unwrap();
    assert_eq!(state.neuron(&neuron_id(1)).unwrap().focus, 0);
}

#[test]
fn intents_and_signal_records_are_kept_by_key() {
    let mut state = BbgState::new();
    let intent = IntentRecord { neuron: [1; 32], h0: 5, scope_hash: [2; 32], signature: [3; 64] };
    let key = state.apply_intent(&intent);
    assert_eq!(key, intent_key(&[1; 32], 5, &[2; 32]));
    assert_eq!(state.apply_intent(&intent), key);
    assert_ne!(key, intent_key(&[1; 32], 6, &[2; 32]));
    state.apply_signal_record(9, SignalRecord { neuron: [1; 32], link_count: 2, block_height: 4, proof_hash: [0; 32] });
    assert_eq!(state.statistics().relation_sizes[9], 1);
}

#[test]
fn a_signal_whose_credits_overflow_a_balance_does_not_fit() {
    let state = BbgState::new();
    let link = |amount: u64| Cyberlink { from: [2; 32], to: [3; 32], token: [4; 32], amount, valence: 0 };
    let ok = Signal { neuron: [1; 32], links: vec![link(u64::MAX)], utxo_moves: vec![], height: 0 };
    assert!(state.links_fit(&ok));
    let twice = Signal { neuron: [1; 32], links: vec![link(u64::MAX), link(1)], utxo_moves: vec![], height: 0 };
    assert!(!state.links_fit(&twice));
    // A debit of the credited owner first leaves room for nothing more.
    let back = Cyberlink { from: [3; 32], to: [2; 32], token: [4; 32], amount: 5, valence: 0 };
    let round = Signal { neuron: [1; 32], links: vec![link(u64::MAX), back, link(5)], utxo_moves: vec![], height: 0 };
    assert!(state.links_fit(&round));
    let over = Signal { neuron: [1; 32], links: vec![link(u64::MAX), back, link(6)], utxo_moves: vec![], height: 0 };
    assert!(!state.links_fit(&over));
    let mut applied = BbgState::new();
    applied.insert(&ok).unwrap();
    assert!(!applied.links_fit(&ok));
}

fn flat(entries: &[([u8; 32], Vec<u64>)]) -> Vec<u64> {
    let mut fields = vec![1, 0, entries.len() as u64];
    for (key, cells) in entries {
        fields.extend(key.chunks(4).map(|c| u32::from_le_bytes([c[0], c[1], c[2], c[3]]) as u64));
        fields.extend(cells.iter().copied());
    }
    fields[1] = fields.len() as u64;
    fields
}

#[test]
fn dimension_entries_ascend_and_locate_their_primary_cells() {
    let mut state = BbgState::new();
    let link = Cyberlink { from: [2; 32], to: [3; 32], token: [4; 32], amount: 7, valence: 0 };
    state.insert(&Signal { neuron: [1; 32], links: vec![link], utxo_moves: vec![], height: 0 }).unwrap();
    let particles = state.dim_entries(Dim::Particles);
    assert_eq!(particles.len(), 2);
    assert!(particles[0].0 < particles[1].0);
    assert!(particles.iter().all(|(_, cells)| cells.len() == 12 && cells.iter().all(|&c| c <= u32::MAX as u64)));
    let to = particles.iter().position(|(k, _)| *k == [3; 32]).unwrap();
    let energy = state.particle(&[3; 32]).unwrap().energy;
    assert_eq!(particles[to].1[0], energy % (1 << 32));
    let fields = flat(&particles);
    let first = primary_index(&fields, Dim::Particles, &particles[0].0).unwrap();
    assert_eq!(first, 3 + 8);
    assert_eq!(primary_index(&fields, Dim::Particles, &particles[1].0), Some(3 + 20 + 8));
    let record = SignalRecord { neuron: [5; 32], link_count: 1, block_height: 9, proof_hash: [6; 32] };
    state.apply_signal_record(256, record);
    state.apply_signal_record(5, record);
    let signals = state.dim_entries(Dim::Signals);
    assert_eq!(signals.len(), 2);
    assert_eq!(&signals[0].0[..8], &5u64.to_le_bytes());
    assert_eq!(&signals[1].0[..8], &256u64.to_le_bytes());
    assert!(signals.iter().all(|(k, cells)| k[8..].iter().all(|&b| b == 0) && cells.len() == 20));
    assert_eq!(signals[0].1[8..12], [1, 0, 9, 0]);
    let axons = state.dim_entries(Dim::AxonsOut);
    assert_eq!(axons.len(), 1);
    assert_eq!(axons[0].0, [2; 32]);
    assert_eq!(axons[0].1.len(), 2 + 8);
    assert_eq!(axons[0].1[..2], [1, 0]);
    assert!(state.dim_entries(Dim::Coins).is_empty());
}

#[test]
fn time_entries_ascend_by_height_with_the_height_little_endian() {
    let mut state = BbgState::new();
    state.record_time(256, [9; 32]);
    state.record_time(1, [7; 32]);
    let key = |h: u64| {
        let mut k = [0u8; 32];
        k[..8].copy_from_slice(&h.to_le_bytes());
        k
    };
    let limbs = |b: u8| vec![u32::from_le_bytes([b; 4]) as u64; 8];
    assert_eq!(state.dim_entries(Dim::Time), vec![(key(1), limbs(7)), (key(256), limbs(9))]);
    assert_eq!(state.dim_entries(Dim::Time)[1].0[0], 0);
    assert_eq!(state.dim_entries(Dim::Time)[1].0[1], 1);
}
