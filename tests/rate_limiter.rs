use partitioned_limiter::protocol::{decode, respond, Response};
use partitioned_limiter::rate_limiter::{init, init_partitioned, ArrayStore, InitError};
use std::time::{Duration, Instant};

fn wait(d: Duration) {
    let start = Instant::now();
    while start.elapsed() < d {
        std::hint::spin_loop();
    }
}

fn two_groups_of_26(limit: u8) -> ArrayStore<26> {
    let rest: Vec<usize> = (2..26).collect();
    init::<26>(vec![vec![0, 1], rest], limit).unwrap()
}

#[test]
fn verify_rate_limiter_respects_group_configuration() {
    let partitions = vec![vec![0, 1], vec![2, 3]];
    let limit = 1u8;
    let rl = init::<4>(partitions, limit).unwrap();

    let r0 = rl.check_key(&0).is_ok();
    assert_eq!(r0, true, "Expect query for 0 to succeed");
    let r1 = rl.check_key(&1).is_err();
    assert_eq!(r1, true, "Expect query for 1 to fail");

    let r2 = rl.check_key(&2).is_ok();
    assert_eq!(r2, true, "Expect query for 2 to succeed");
    let r3 = rl.check_key(&3).is_err();
    assert_eq!(r3, true, "Expect query for 3 to fail");
}

#[test]
fn quota_caps_back_to_back_admissions_and_replenishes() {
    let rl = init::<4>(vec![vec![0, 1, 2, 3]], 5).unwrap();
    let admitted = (0..20).filter(|_| rl.check_key(&0).is_ok()).count();
    assert_eq!(admitted, 5);
    wait(Duration::from_millis(1100));
    assert!(rl.check_key(&0).is_ok());
}

#[test]
fn symbols_of_one_partition_share_quota() {
    let rl = init::<4>(vec![vec![0, 1], vec![2, 3]], 2).unwrap();
    assert!(rl.check_key(&0).is_ok());
    assert!(rl.check_key(&0).is_ok());
    assert!(rl.check_key(&1).is_err());
    assert_eq!(rl.partition_of(0), rl.partition_of(1));
}

#[test]
fn partitions_are_independent() {
    let rl = init::<4>(vec![vec![0, 1], vec![2, 3]], 1).unwrap();
    assert!(rl.check_key(&0).is_ok());
    assert!(rl.check_key(&0).is_err());
    assert!(rl.check_key(&0).is_err());
    assert!(rl.check_key(&3).is_ok());
    assert_ne!(rl.partition_of(0), rl.partition_of(3));
}

#[test]
fn two_partitions_of_four_symbols_with_unit_quota() {
    let rl = init::<4>(vec![vec![0, 1], vec![2, 3]], 1).unwrap();
    assert!(rl.check_key(&0).is_ok());
    assert!(rl.check_key(&1).is_err());
    assert!(rl.check_key(&2).is_ok());
    assert!(rl.check_key(&3).is_err());
    wait(Duration::from_millis(1100));
    assert!(rl.check_key(&0).is_ok());
}

#[test]
fn init_maps_each_symbol_to_its_group() {
    let rl = init::<5>(vec![vec![4, 0], vec![2], vec![1, 3]], 3).unwrap();
    assert_eq!(rl.partition_of(0), 0);
    assert_eq!(rl.partition_of(4), 0);
    assert_eq!(rl.partition_of(2), 1);
    assert_eq!(rl.partition_of(1), 2);
    assert_eq!(rl.partition_of(3), 2);
}

#[test]
fn init_rejects_out_of_range_symbol() {
    assert_eq!(
        init::<4>(vec![vec![0, 1], vec![2, 4]], 1).err(),
        Some(InitError::SymbolOutOfRange)
    );
}

#[test]
fn init_rejects_incomplete_mapping() {
    assert_eq!(
        init::<4>(vec![vec![0, 1], vec![3]], 1).err(),
        Some(InitError::Incomplete)
    );
    assert_eq!(init::<4>(vec![], 1).err(), Some(InitError::Incomplete));
}

#[test]
fn lines_in_succession_get_success_then_failure() {
    let store = two_groups_of_26(1);
    assert_eq!(respond("A", &store).token(), "0\n");
    assert_eq!(respond("B", &store).token(), "1\n");
}

#[test]
fn malformed_lines_are_denied_without_using_quota() {
    let store = two_groups_of_26(1);
    assert_eq!(respond("7", &store), Response::Denied);
    assert_eq!(respond("a", &store), Response::Denied);
    assert_eq!(respond("", &store), Response::Denied);
    assert_eq!(respond("A", &store), Response::Admitted);
}

#[test]
fn decode_reads_first_character_only() {
    assert_eq!(decode("C"), Some(2));
    assert_eq!(decode("Zebra"), Some(25));
    assert_eq!(decode("zA"), None);
    assert_eq!(decode(""), None);
}

#[test]
fn response_tokens() {
    assert_eq!(Response::Admitted.token(), "0\n");
    assert_eq!(Response::Denied.token(), "1\n");
}

#[test]
fn init_partitioned_routes_each_group_to_its_bucket() {
    let (parts, store) = init_partitioned(4, 1, Some(11)).unwrap();
    assert_eq!(parts.len(), 4);
    for (i, part) in parts.iter().enumerate() {
        for c in part {
            assert_eq!(store.partition_of((*c as u8 - b'A') as usize), i);
        }
    }
}

#[test]
fn generated_partitions_drive_the_wire_scenario() {
    let (parts, store) = init_partitioned(2, 1, Some(5)).unwrap();
    let first = parts[0][0].to_string();
    assert_eq!(respond(&first, &store).token(), "0\n");
    if parts[0].len() > 1 {
        let second = parts[0][1].to_string();
        assert_eq!(respond(&second, &store).token(), "1\n");
    }
    let other = parts[1][0].to_string();
    assert_eq!(respond(&other, &store).token(), "0\n");
}

#[test]
fn every_bucket_gets_the_configured_quota() {
    let rl = init::<6>(vec![vec![0, 1], vec![2, 3], vec![4, 5]], 3).unwrap();
    for key in [0usize, 2, 4] {
        let admitted = (0..10).filter(|_| rl.check_key(&key).is_ok()).count();
        assert_eq!(admitted, 3);
    }
}
