use partitioned_limiter::symbols::{
    generate, partition_indices, partitions, slice_at, symbols, to_index, N,
};

fn assert_is_partition(parts: &Vec<Vec<char>>, k: usize) {
    assert_eq!(parts.len(), k);
    let mut seen = vec![0usize; N];
    for part in parts {
        assert!(!part.is_empty());
        for c in part {
            let ix = to_index(*c).unwrap();
            seen[ix] += 1;
        }
    }
    for count in seen {
        assert_eq!(count, 1);
    }
}

#[test]
fn verify_generate_returns_requested_number_of_partitions() {
    for i in 1..26usize {
        let partitions = generate(i as u8, None).unwrap();

        assert_eq!(
            partitions.len(),
            i,
            "expect number of partitions to be equal requested number: {}; but got: {}",
            i,
            partitions.len()
        );

        let total_symbols: usize = partitions.iter().map(|x| x.len()).sum();

        assert_eq!(
            total_symbols,
            symbols().len(),
            "expect total number of symbols across all partitions to be equal number of available symbols: {}; got {}",
            symbols().len(),
            total_symbols
        );
    }
}

#[test]
fn generate_gives_disjoint_covering_groups() {
    for k in 1..=26u8 {
        let parts = generate(k, Some(7 + k as u64)).unwrap();
        assert_is_partition(&parts, k as usize);
        let parts = generate(k, None).unwrap();
        assert_is_partition(&parts, k as usize);
    }
}

#[test]
fn same_seed_gives_same_partitioning() {
    for k in 1..=26u8 {
        assert_eq!(generate(k, Some(42)).unwrap(), generate(k, Some(42)).unwrap());
    }
}

#[test]
fn different_seeds_give_different_partitioning() {
    assert_ne!(generate(13, Some(1)).unwrap(), generate(13, Some(2)).unwrap());
}

#[test]
fn one_group_is_the_whole_alphabet() {
    let parts = generate(1, Some(3)).unwrap();
    assert_eq!(parts, vec![symbols()]);
}

#[test]
fn twenty_six_groups_are_singletons() {
    let parts = generate(26, Some(3)).unwrap();
    assert_eq!(parts.len(), 26);
    for (i, part) in parts.iter().enumerate() {
        assert_eq!(part, &vec![(b'A' + i as u8) as char]);
    }
}

#[test]
fn group_sizes_add_up_and_are_bounded() {
    for k in 1..=26u8 {
        let parts = generate(k, Some(1000 + k as u64)).unwrap();
        let total: usize = parts.iter().map(|p| p.len()).sum();
        assert_eq!(total, 26);
        for p in &parts {
            assert!(p.len() <= 26 - k as usize + 1);
        }
    }
}

#[test]
fn partitions_keep_repeated_symbols() {
    let parts = partitions(vec!['x', 'x', 'y', 'z'], 3, Some(4)).unwrap();
    assert_eq!(parts.len(), 3);
    let mut all: Vec<char> = parts.concat();
    all.sort();
    assert_eq!(all, vec!['x', 'x', 'y', 'z']);
}

#[test]
fn partitions_of_a_short_list() {
    let parts = partitions(vec!['x', 'y', 'z'], 2, Some(9)).unwrap();
    assert_eq!(parts.len(), 2);
    let mut all: Vec<char> = parts.concat();
    all.sort();
    assert_eq!(all, vec!['x', 'y', 'z']);
}

#[test]
fn slice_at_cuts_in_order() {
    let s = vec!['D', 'A', 'C', 'B', 'E'];
    assert_eq!(
        slice_at(&s, &vec![1, 3]),
        vec![vec!['D'], vec!['A', 'C'], vec!['B', 'E']]
    );
    assert_eq!(slice_at(&s, &vec![]), vec![s.clone()]);
}

#[test]
fn to_index_of_alphabet_and_others() {
    assert_eq!(to_index('A'), Some(0));
    assert_eq!(to_index('M'), Some(12));
    assert_eq!(to_index('Z'), Some(25));
    assert_eq!(to_index('@'), None);
    assert_eq!(to_index('['), None);
    assert_eq!(to_index('a'), None);
    assert_eq!(to_index('7'), None);
}

#[test]
fn symbols_are_a_to_z() {
    let s = symbols();
    assert_eq!(s.len(), 26);
    assert_eq!(s[0], 'A');
    assert_eq!(s[25], 'Z');
}

#[test]
fn partition_indices_maps_symbols_to_indices() {
    let parts = vec![vec!['C', 'A'], vec!['Z']];
    assert_eq!(partition_indices(&parts), Some(vec![vec![2, 0], vec![25]]));
    let bad = vec![vec!['C', 'a']];
    assert_eq!(partition_indices(&bad), None);
}
