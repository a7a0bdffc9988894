use loaded_dice::entry::AliasEntry;
use loaded_dice::entry::ONE;
use loaded_dice::table::construct_table;
use loaded_dice::table::AliasTable;
use loaded_dice::table::TableError;

/// The mass that the table gives to outcome `k`, in units of `1 / (n * ONE)`.
/// Within the tolerance a threshold may pass `ONE` by a little, and the rest
/// of its slot is then negative.
fn mass(table: &[AliasEntry], k: usize) -> i128 {
    let mut sum: i128 = 0;
    for e in table {
        if e.val == k {
            sum += e.prob_of_val as i128;
        }
        if e.alias == k {
            sum += ONE as i128 - e.prob_of_val as i128;
        }
    }
    sum
}

#[test]
fn one_is_two_to_the_53() {
    assert_eq!(ONE, 1u64 << 53);
    assert_eq!(ONE, 9007199254740992);
}

#[test]
fn entry_new_keeps_its_arguments() {
    let e = AliasEntry::new(3, 7, 42);
    assert_eq!(e.val, 3);
    assert_eq!(e.alias, 7);
    assert_eq!(e.prob_of_val, 42);
    assert_eq!(e, AliasEntry { val: 3, alias: 7, prob_of_val: 42 });
}

#[test]
fn table_of_half_quarter_quarter() {
    let table = construct_table(vec![ONE / 2, ONE / 4, ONE / 4]).unwrap();
    assert_eq!(
        table,
        vec![
            AliasEntry::new(2, 0, 3 * (ONE / 4)),
            AliasEntry::new(1, 0, 3 * (ONE / 4)),
            AliasEntry::new(0, usize::MAX, ONE),
        ]
    );
}

#[test]
fn threshold_is_weight_times_count() {
    // 4 outcomes; the least weight is ONE / 16, so its slot's threshold is ONE / 4.
    let table = construct_table(vec![ONE / 16, ONE / 2, ONE / 4, 3 * (ONE / 16)]).unwrap();
    assert_eq!(table[0], AliasEntry::new(0, 1, ONE / 4));
    // The donee paid 3/4 of a slot: 2 - 3/4 = 5/4 slots are left to it.
    // Next least is outcome 3 with 3/4 of a slot.
    assert_eq!(table[1], AliasEntry::new(3, 1, 3 * (ONE / 4)));
    // Outcome 1 now holds 1 slot, as does outcome 2; of equal weights the
    // higher outcome leaves first and the lower pays.
    assert_eq!(table[2], AliasEntry::new(2, 1, ONE));
    assert_eq!(table[3], AliasEntry::new(1, usize::MAX, ONE));
}

#[test]
fn equal_weights_leave_from_the_top() {
    let table = construct_table(vec![ONE / 4; 4]).unwrap();
    assert_eq!(
        table,
        vec![
            AliasEntry::new(3, 0, ONE),
            AliasEntry::new(2, 0, ONE),
            AliasEntry::new(1, 0, ONE),
            AliasEntry::new(0, usize::MAX, ONE),
        ]
    );
}

#[test]
fn zero_weight_gets_an_empty_slot() {
    let table = construct_table(vec![0, ONE]).unwrap();
    assert_eq!(
        table,
        vec![AliasEntry::new(0, 1, 0), AliasEntry::new(1, usize::MAX, ONE)]
    );
}

#[test]
fn conservation_on_exact_weights() {
    let cases: Vec<Vec<u64>> = vec![
        vec![ONE / 2, ONE / 4, ONE / 4],
        vec![ONE / 2, ONE / 4, ONE / 8, ONE / 8],
        vec![1, 2, 3, ONE - 6],
        vec![ONE / 8; 8],
        vec![ONE - 9, 1, 1, 1, 1, 1, 1, 1, 1, 1],
        vec![
            900719925474099,
            1801439850948198,
            2702159776422297,
            3602879701896398,
        ],
    ];
    for weights in cases {
        assert_eq!(weights.iter().map(|w| *w as u128).sum::<u128>(), ONE as u128);
        let n = weights.len();
        let table = construct_table(weights.clone()).unwrap();
        assert_eq!(table.len(), n);
        for k in 0..n {
            assert_eq!(mass(&table, k), n as i128 * weights[k] as i128);
        }
    }
}

#[test]
fn conservation_within_the_tolerance() {
    // The sum is ONE + 5; with 3 outcomes the excess is 15.
    let weights = vec![ONE / 2 + 5, ONE / 4, ONE / 4];
    let table = construct_table(weights.clone()).unwrap();
    let last = table[2].val;
    for k in 0..3 {
        let want = 3 * weights[k] as i128 - if k == last { 15 } else { 0 };
        assert_eq!(mass(&table, k), want);
    }
}

#[test]
fn threshold_may_pass_one_within_the_tolerance() {
    let table = construct_table(vec![ONE / 2 + 1, ONE / 2 + 1]).unwrap();
    assert_eq!(
        table,
        vec![AliasEntry::new(1, 0, ONE + 2), AliasEntry::new(0, usize::MAX, ONE)]
    );
}

#[test]
fn every_outcome_has_one_slot_of_its_own() {
    let weights = vec![ONE / 8, ONE / 2, ONE / 16, ONE / 16, ONE / 4];
    let table = construct_table(weights).unwrap();
    let mut seen = vec![false; 5];
    for e in &table {
        assert!(!seen[e.val]);
        seen[e.val] = true;
    }
    assert!(seen.iter().all(|s| *s));
    for e in &table[..4] {
        assert!(e.alias < 5);
        assert_ne!(e.alias, e.val);
    }
    assert_eq!(table[4].alias, usize::MAX);
    assert_eq!(table[4].prob_of_val, ONE);
}

#[test]
fn empty_weights_are_turned_down() {
    assert_eq!(construct_table(vec![]), Err(TableError::Empty));
    assert_eq!(AliasTable::new(vec![]).err(), Some(TableError::Empty));
}

#[test]
fn half_the_mass_is_turned_down() {
    assert_eq!(
        construct_table(vec![ONE / 4, ONE / 4]),
        Err(TableError::NotNormalized)
    );
    assert_eq!(
        construct_table(vec![ONE / 8, ONE / 8, ONE / 8, ONE / 8]),
        Err(TableError::NotNormalized)
    );
    assert_eq!(construct_table(vec![ONE / 2]), Err(TableError::NotNormalized));
}

#[test]
fn too_much_mass_is_turned_down() {
    assert_eq!(
        construct_table(vec![ONE, ONE]),
        Err(TableError::NotNormalized)
    );
    assert_eq!(
        construct_table(vec![u64::MAX, u64::MAX, u64::MAX]),
        Err(TableError::NotNormalized)
    );
    assert_eq!(construct_table(vec![0, 0]), Err(TableError::NotNormalized));
}

#[test]
fn tolerance_is_a_thousandth_of_a_slot() {
    // One outcome: the excess is the weight's distance from ONE.
    let edge = ONE / 1000; // 1000 * edge < ONE <= 1000 * (edge + 1)
    assert!(1000 * edge < ONE && ONE <= 1000 * (edge + 1));
    assert!(construct_table(vec![ONE + edge]).is_ok());
    assert!(construct_table(vec![ONE - edge]).is_ok());
    assert_eq!(
        construct_table(vec![ONE + edge + 1]),
        Err(TableError::NotNormalized)
    );
    assert_eq!(
        construct_table(vec![ONE - edge - 1]),
        Err(TableError::NotNormalized)
    );
    // Two outcomes: the same distance counts twice.
    assert!(construct_table(vec![ONE / 2, ONE / 2 + edge / 2]).is_ok());
    assert_eq!(
        construct_table(vec![ONE / 2, ONE / 2 + edge / 2 + 1]),
        Err(TableError::NotNormalized)
    );
}

#[test]
fn single_outcome_table() {
    let table = AliasTable::new(vec![ONE]).unwrap();
    assert_eq!(table.len(), 1);
    assert_eq!(
        table.entries(),
        &vec![AliasEntry::new(0, usize::MAX, ONE)]
    );
    for coin in [0, 1, ONE / 2, ONE - 1] {
        assert_eq!(table.outcome(0, coin), 0);
    }
}

#[test]
fn outcome_follows_the_coin() {
    let table = AliasTable::new(vec![ONE / 2, ONE / 4, ONE / 4]).unwrap();
    let threshold = 3 * (ONE / 4);
    // Slot 0 is outcome 2 up to the threshold, outcome 0 above it.
    assert_eq!(table.outcome(0, 0), 2);
    assert_eq!(table.outcome(0, threshold - 1), 2);
    assert_eq!(table.outcome(0, threshold), 2);
    assert_eq!(table.outcome(0, threshold + 1), 0);
    assert_eq!(table.outcome(0, ONE - 1), 0);
    assert_eq!(table.outcome(1, threshold), 1);
    assert_eq!(table.outcome(1, threshold + 1), 0);
    // The last slot has no alias.
    assert_eq!(table.outcome(2, 0), 0);
    assert_eq!(table.outcome(2, ONE - 1), 0);
}

#[test]
fn outcome_is_always_in_range() {
    let weights = vec![ONE / 8, ONE / 2, ONE / 16, ONE / 16, ONE / 4];
    let table = AliasTable::new(weights).unwrap();
    let coins = [0, 1, ONE / 16, ONE / 4, ONE / 2, ONE - 2, ONE - 1];
    for slot in 0..table.len() {
        for coin in coins {
            let k = table.outcome(slot, coin);
            assert!(k < 5);
            assert_ne!(k, usize::MAX);
        }
    }
}

#[test]
fn table_clone_is_equal() {
    let table = AliasTable::new(vec![ONE / 2, ONE / 2]).unwrap();
    let copy = table.clone();
    assert_eq!(table, copy);
    assert_eq!(copy.entries(), table.entries());
}

#[test]
fn same_weights_same_table() {
    let weights = vec![ONE / 8, ONE / 2, ONE / 16, ONE / 16, ONE / 4];
    assert_eq!(
        construct_table(weights.clone()),
        construct_table(weights.clone())
    );
}

#[test]
fn conservation_on_rounded_doubles() {
    // Probabilities given as doubles, rounded to fixed point: the table gives
    // back each probability to well within a billionth.
    let cases: Vec<Vec<f64>> = vec![
        vec![0.5, 0.3, 0.1, 0.1],
        vec![0.2, 0.3, 0.5],
        vec![0.1; 10],
        vec![0.05, 0.15, 0.25, 0.35, 0.2],
        vec![1.0 / 3.0, 1.0 / 3.0, 1.0 / 3.0],
        vec![0.7, 0.01, 0.02, 0.03, 0.04, 0.05, 0.15],
    ];
    for probs in cases {
        let n = probs.len();
        let weights: Vec<u64> = probs.iter().map(|p| (p * ONE as f64).round() as u64).collect();
        let table = construct_table(weights).unwrap();
        for k in 0..n {
            let p_k = mass(&table, k) as f64 / (n as f64 * ONE as f64);
            assert!((p_k - probs[k]).abs() < 1e-9);
        }
    }
}
