use rand::SeedableRng;
use rand_chacha::ChaCha20Rng;
use wolges_wasm::bag::{deal_sim, deal_sim_racks, replenish, shuffled_bag};
use wolges_wasm::deal::deal_unseen;
use wolges_wasm::named_cache::{register_builtin_rules, NamedCache};
use wolges_wasm::rules::GameRules;
use wolges_wasm::sim_registry::{sim_drop, SimRegistry};
use wolges_wasm::sim_request::{check_sim_request, SimPrepareError};
use wolges_wasm::tiles::unseen_tiles;

fn counts(tiles: &[u8], n: usize) -> Vec<usize> {
    let mut c = vec![0usize; n];
    for &t in tiles {
        c[t as usize] += 1;
    }
    c
}

#[test]
fn unseen_tiles_follow_the_tally() {
    assert_eq!(unseen_tiles(&vec![2, 1, 0, 3]), vec![0, 0, 1, 3, 3, 3]);
}

#[test]
fn unseen_tiles_of_an_empty_tally() {
    assert_eq!(unseen_tiles(&vec![]), Vec::<u8>::new());
    assert_eq!(unseen_tiles(&vec![0, 0, 0]), Vec::<u8>::new());
}

#[test]
fn unseen_tile_counts_match_the_tally() {
    let tally: Vec<u8> = vec![2, 9, 2, 2, 4, 12, 2, 3, 2, 9, 1, 1, 4, 2, 6, 8, 2, 1, 6, 4, 6, 4, 2, 2, 1, 2, 1];
    let tiles = unseen_tiles(&tally);
    let c = counts(&tiles, tally.len());
    for (t, &n) in tally.iter().enumerate() {
        assert_eq!(c[t], n as usize);
    }
    assert_eq!(tiles.len(), 100);
    assert!(tiles.windows(2).all(|w| w[0] <= w[1]));
}

#[test]
fn unseen_tiles_of_a_full_tally_of_tile_numbers() {
    let tally: Vec<u8> = vec![1; 256];
    let tiles = unseen_tiles(&tally);
    assert_eq!(tiles.len(), 256);
    assert_eq!(tiles[255], 255);
}

#[test]
fn scoring_deal_fills_racks_in_order() {
    let tally: Vec<u8> = vec![1, 2, 3, 4];
    let rules = GameRules::new(3, 4);
    let deal = deal_unseen(&tally, &rules, &vec![5, 5]);
    assert_eq!(deal.racks.len(), 3);
    assert_eq!(deal.racks[0], vec![5, 5]);
    assert_eq!(deal.racks[1], vec![0, 1, 1, 2]);
    assert_eq!(deal.racks[2], vec![2, 2, 3, 3]);
    assert_eq!(deal.bag, vec![3, 3]);
}

#[test]
fn scoring_deal_short_rack_when_tiles_run_out() {
    let tally: Vec<u8> = vec![2, 3];
    let rules = GameRules::new(3, 4);
    let deal = deal_unseen(&tally, &rules, &vec![]);
    assert_eq!(deal.racks[1], vec![0, 0, 1, 1]);
    assert_eq!(deal.racks[2], vec![1]);
    assert!(deal.bag.is_empty());
}

#[test]
fn scoring_deal_single_player_keeps_all_in_bag() {
    let tally: Vec<u8> = vec![1, 1];
    let rules = GameRules::new(1, 7);
    let deal = deal_unseen(&tally, &rules, &vec![9]);
    assert_eq!(deal.racks, vec![vec![9]]);
    assert_eq!(deal.bag, vec![0, 1]);
}

#[test]
fn scoring_deal_loses_no_tile() {
    let tally: Vec<u8> = vec![3, 0, 2, 5, 1, 4];
    let rules = GameRules::new(4, 3);
    let deal = deal_unseen(&tally, &rules, &vec![1]);
    let mut joined: Vec<u8> = Vec::new();
    for r in &deal.racks[1..] {
        assert!(r.len() <= 3);
        joined.extend(r);
    }
    joined.extend(&deal.bag);
    assert_eq!(joined, unseen_tiles(&tally));
}

fn rules2() -> GameRules {
    GameRules::new(2, 7)
}

#[test]
fn sim_request_accepted() {
    assert_eq!(check_sim_request(&rules2(), &vec![1, 2, 3], 1, &vec![7, 3], &vec![10, 20]), Ok(()));
}

#[test]
fn sim_request_rack_too_long() {
    assert_eq!(
        check_sim_request(&rules2(), &vec![1; 8], 5, &vec![], &vec![]),
        Err(SimPrepareError::RackTooLong { max: 7, rack_len: 8 })
    );
}

#[test]
fn sim_request_turn_out_of_range() {
    assert_eq!(
        check_sim_request(&rules2(), &vec![1], 2, &vec![], &vec![]),
        Err(SimPrepareError::TurnOutOfRange { num_players: 2, turn: 2 })
    );
}

#[test]
fn sim_request_rack_sizes_length() {
    assert_eq!(
        check_sim_request(&rules2(), &vec![1], 0, &vec![1, 7, 7], &vec![]),
        Err(SimPrepareError::RackSizesLength { expected: 2, found: 3 })
    );
}

#[test]
fn sim_request_rack_size_too_large() {
    assert_eq!(
        check_sim_request(&rules2(), &vec![1], 0, &vec![1, 8], &vec![]),
        Err(SimPrepareError::RackSizeTooLarge { max: 7, rack_sizes: vec![1, 8] })
    );
}

#[test]
fn sim_request_rack_size_mismatch() {
    assert_eq!(
        check_sim_request(&rules2(), &vec![1, 2], 0, &vec![1, 7], &vec![0, 0]),
        Err(SimPrepareError::RackSizeMismatch { turn: 0, rack_size: 1, rack_len: 2 })
    );
}

#[test]
fn sim_request_scores_length() {
    assert_eq!(
        check_sim_request(&rules2(), &vec![1, 2], 0, &vec![2, 7], &vec![0]),
        Err(SimPrepareError::ScoresLength { expected: 2, found: 1 })
    );
}

#[test]
fn replenish_draws_from_the_end_of_the_bag() {
    let mut bag = vec![1, 2, 3, 4, 5];
    let mut rack = vec![9];
    replenish(&mut bag, &mut rack, 3);
    assert_eq!(rack, vec![9, 5, 4]);
    assert_eq!(bag, vec![1, 2, 3]);
}

#[test]
fn replenish_empties_a_short_bag() {
    let mut bag = vec![1];
    let mut rack = vec![];
    replenish(&mut bag, &mut rack, 3);
    assert_eq!(rack, vec![1]);
    assert!(bag.is_empty());
}

#[test]
fn replenish_leaves_a_full_rack() {
    let mut bag = vec![1, 2];
    let mut rack = vec![3, 3, 3, 3];
    replenish(&mut bag, &mut rack, 3);
    assert_eq!(rack, vec![3, 3, 3, 3]);
    assert_eq!(bag, vec![1, 2]);
}

#[test]
fn sim_racks_dealt_in_player_order() {
    let deal = deal_sim_racks(vec![1, 2, 3, 4, 5, 6, 7, 8], 1, &vec![7, 7], &vec![3, 2, 2]).unwrap();
    assert_eq!(deal.racks, vec![vec![8, 7, 6], vec![7, 7], vec![5, 4]]);
    assert_eq!(deal.bag, vec![1, 2, 3]);
}

#[test]
fn sim_racks_unable_to_draw() {
    let r = deal_sim_racks(vec![1, 2], 1, &vec![], &vec![3, 0]);
    assert_eq!(r.err(), Some(SimPrepareError::UnableToDraw { rack_sizes: vec![3, 0], unplayed: 2 }));
}

#[test]
fn sim_racks_shortfall_after_the_player_to_move() {
    let r = deal_sim_racks(vec![1, 2, 3], 0, &vec![4, 4], &vec![2, 2, 2]);
    assert_eq!(r.err(), Some(SimPrepareError::UnableToDraw { rack_sizes: vec![2, 2, 2], unplayed: 5 }));
}

#[test]
fn sim_racks_rack_of_player_to_move_must_match() {
    let r = deal_sim_racks(vec![1, 2, 3], 0, &vec![4], &vec![2, 0]);
    assert_eq!(r.err(), Some(SimPrepareError::UnableToDraw { rack_sizes: vec![2, 0], unplayed: 4 }));
}

#[test]
fn shuffled_bag_keeps_the_tiles_but_not_their_order() {
    let tally: Vec<u8> = vec![4; 20];
    let mut rng = ChaCha20Rng::seed_from_u64(7);
    let bag = shuffled_bag(&tally, &mut rng);
    assert_eq!(counts(&bag, 20), vec![4; 20]);
    assert_ne!(bag, unseen_tiles(&tally));
}

#[test]
fn sim_deal_conserves_tiles() {
    let tally: Vec<u8> = vec![2, 3, 1, 4, 2];
    let mut rng = ChaCha20Rng::seed_from_u64(11);
    let deal = deal_sim(&tally, &mut rng, 0, &vec![1, 1], &vec![2, 3, 4]).unwrap();
    assert_eq!(deal.racks[0], vec![1, 1]);
    assert_eq!(deal.racks[1].len(), 3);
    assert_eq!(deal.racks[2].len(), 4);
    assert_eq!(deal.bag.len(), 12 - 7);
    let mut all: Vec<u8> = deal.bag.clone();
    all.extend(&deal.racks[1]);
    all.extend(&deal.racks[2]);
    assert_eq!(counts(&all, 5), vec![2, 3, 1, 4, 2]);
}

#[test]
fn sim_deal_too_few_tiles() {
    let tally: Vec<u8> = vec![1, 1];
    let mut rng = ChaCha20Rng::seed_from_u64(3);
    let r = deal_sim(&tally, &mut rng, 0, &vec![], &vec![0, 3]);
    assert_eq!(r.err(), Some(SimPrepareError::UnableToDraw { rack_sizes: vec![0, 3], unplayed: 2 }));
}

#[test]
fn sim_ids_count_up_and_refill_gaps() {
    let mut reg: SimRegistry<&str> = SimRegistry::new();
    assert_eq!(reg.register("a"), 0);
    assert_eq!(reg.register("b"), 1);
    assert_eq!(reg.register("c"), 2);
    assert!(sim_drop(&mut reg, 1));
    assert!(!sim_drop(&mut reg, 1));
    assert_eq!(reg.register("d"), 1);
    assert_eq!(reg.get(1), Some(&"d"));
    assert!(sim_drop(&mut reg, 0));
    assert_eq!(reg.len(), 2);
    assert_eq!(reg.register("e"), 0);
    assert_eq!(reg.get(2), Some(&"c"));
}

#[test]
fn sim_drop_of_unknown_id() {
    let mut reg: SimRegistry<u32> = SimRegistry::new();
    assert!(!sim_drop(&mut reg, 5));
    assert_eq!(reg.get(5), None);
    let pid = reg.register(42);
    assert_eq!(reg.get(pid), Some(&42));
    assert!(sim_drop(&mut reg, pid));
    assert_eq!(reg.get(pid), None);
    assert_eq!(reg.len(), 0);
}

#[test]
fn cache_read_after_write() {
    let mut cache: NamedCache<u32> = NamedCache::new();
    cache.insert("CSW21".to_string(), 1);
    cache.insert("NWL20".to_string(), 2);
    cache.insert("CSW21".to_string(), 3);
    assert_eq!(cache.get(&"CSW21".to_string()), Some(&3));
    assert_eq!(cache.get(&"NWL20".to_string()), Some(&2));
    assert_eq!(cache.get(&"ECWL".to_string()), None);
}

#[test]
fn cache_fetch_names_what_is_missing() {
    let cache: NamedCache<u32> = NamedCache::new();
    assert_eq!(cache.fetch(&"CSW21".to_string(), "kwg"), Err("missing kwg".to_string()));
    let mut cache = cache;
    cache.insert("CSW21".to_string(), 5);
    assert_eq!(cache.fetch(&"CSW21".to_string(), "kwg"), Ok(&5));
}

#[test]
fn builtin_rules_are_registered() {
    let mut cache: NamedCache<GameRules> = NamedCache::new();
    register_builtin_rules(&mut cache, GameRules::new(2, 7), GameRules::new(2, 7));
    assert_eq!(cache.get(&"CrosswordGame".to_string()), Some(&GameRules::new(2, 7)));
    assert!(cache.get(&"WordSmog".to_string()).is_some());
    assert!(cache.get(&"Other".to_string()).is_none());
}
