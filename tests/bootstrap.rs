use item_seed::bootstrap::{plan_bootstrap, BootstrapAction, BootstrapError};
use item_seed::seed::{seed_name, seed_rows, SEED_PRICE_CENTS, SEED_ROW_COUNT};

#[test]
fn empty_table_is_seeded() {
    assert_eq!(plan_bootstrap(0), Ok(BootstrapAction::Seed));
}

#[test]
fn seeded_table_is_left_alone() {
    assert_eq!(plan_bootstrap(100), Ok(BootstrapAction::AlreadySeeded));
}

#[test]
fn table_with_37_rows_is_corrupt() {
    assert_eq!(plan_bootstrap(37), Err(BootstrapError::Corrupt { count: 37 }));
}

#[test]
fn other_counts_are_corrupt() {
    assert_eq!(plan_bootstrap(1), Err(BootstrapError::Corrupt { count: 1 }));
    assert_eq!(plan_bootstrap(99), Err(BootstrapError::Corrupt { count: 99 }));
    assert_eq!(plan_bootstrap(101), Err(BootstrapError::Corrupt { count: 101 }));
    assert_eq!(plan_bootstrap(-1), Err(BootstrapError::Corrupt { count: -1 }));
    assert_eq!(plan_bootstrap(i64::MAX), Err(BootstrapError::Corrupt { count: i64::MAX }));
}

#[test]
fn corrupt_message_asks_for_a_manual_drop() {
    let e = plan_bootstrap(37).unwrap_err();
    assert_eq!(e.message(), "`items` table is corrupt. please drop it manually.");
}

#[test]
fn bootstrap_twice_inserts_once() {
    let mut count: i64 = 0;
    let mut inserted = 0;
    for _ in 0..2 {
        match plan_bootstrap(count).unwrap() {
            BootstrapAction::Seed => {
                let rows = seed_rows();
                inserted += 1;
                count += rows.len() as i64;
            }
            BootstrapAction::AlreadySeeded => {}
        }
    }
    assert_eq!(inserted, 1);
    assert_eq!(count, 100);
    assert_eq!(plan_bootstrap(count), Ok(BootstrapAction::AlreadySeeded));
}

#[test]
fn seed_rows_have_names_and_alternating_prices() {
    let rows = seed_rows();
    assert_eq!(rows.len() as u64, SEED_ROW_COUNT);
    assert_eq!(rows.len(), 100);
    for (i, row) in rows.iter().enumerate() {
        assert_eq!(row.name, format!("item{:04}", i + 1));
        let expected = if i % 2 == 0 { Some(SEED_PRICE_CENTS) } else { None };
        assert_eq!(row.price_cents, expected);
    }
    assert_eq!(rows[0].name, "item0001");
    assert_eq!(rows[0].price_cents, Some(1125));
    assert_eq!(rows[1].name, "item0002");
    assert_eq!(rows[1].price_cents, None);
    assert_eq!(rows[99].name, "item0100");
    assert_eq!(rows[99].price_cents, None);
}

#[test]
fn seed_name_pads_to_four_digits_and_no_further() {
    assert_eq!(seed_name(0), "item0001");
    assert_eq!(seed_name(8), "item0009");
    assert_eq!(seed_name(9), "item0010");
    assert_eq!(seed_name(998), "item0999");
    assert_eq!(seed_name(9999), "item10000");
}
