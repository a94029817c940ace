use item_seed::rows::{rows_agree, same_row, ItemRow};
use item_seed::seed::seed_rows;

fn seeded_table() -> Vec<ItemRow> {
    seed_rows()
        .into_iter()
        .enumerate()
        .map(|(i, r)| ItemRow {
            id: i as i64 + 1,
            name: r.name,
            price_cents: r.price_cents.map(|c| c as i64),
        })
        .collect()
}

fn by_membership(table: &[ItemRow], ids: &[i64]) -> Vec<ItemRow> {
    table
        .iter()
        .filter(|r| ids.contains(&r.id))
        .map(|r| ItemRow { id: r.id, name: r.name.clone(), price_cents: r.price_cents })
        .collect()
}

fn by_join(table: &[ItemRow], ids: &[i64]) -> Vec<ItemRow> {
    let mut out = Vec::new();
    for r in table {
        for id in ids {
            if *id == r.id {
                out.push(ItemRow { id: r.id, name: r.name.clone(), price_cents: r.price_cents });
            }
        }
    }
    out
}

#[test]
fn both_queries_return_the_same_three_rows() {
    let table = seeded_table();
    let ids = [10_i64, 20, 381, 35];
    let a = by_membership(&table, &ids);
    let b = by_join(&table, &ids);
    assert_eq!(a.len(), 3);
    assert!(rows_agree(&a, &b));
    assert_eq!(a[0].id, 10);
    assert_eq!(a[0].name, "item0010");
    assert_eq!(a[0].price_cents, None);
    assert_eq!(a[2].id, 35);
    assert_eq!(a[2].name, "item0035");
    assert_eq!(a[2].price_cents, Some(1125));
}

#[test]
fn empty_intersection_agrees() {
    let table = seeded_table();
    let ids = [0_i64, 101, 381, -5];
    let a = by_membership(&table, &ids);
    let b = by_join(&table, &ids);
    assert!(a.is_empty());
    assert!(rows_agree(&a, &b));
}

#[test]
fn results_in_another_order_disagree() {
    let table = seeded_table();
    let a = by_membership(&table, &[10, 20, 35]);
    let b = by_membership(&table, &[35, 10, 20]);
    assert!(rows_agree(&a, &b));
    let reversed: Vec<ItemRow> = a
        .iter()
        .rev()
        .map(|r| ItemRow { id: r.id, name: r.name.clone(), price_cents: r.price_cents })
        .collect();
    assert!(!rows_agree(&a, &reversed));
}

#[test]
fn a_missing_or_extra_row_disagrees() {
    let table = seeded_table();
    let a = by_membership(&table, &[10, 20, 35]);
    let b = by_membership(&table, &[10, 20]);
    assert!(!rows_agree(&a, &b));
    assert!(!rows_agree(&b, &a));
}

#[test]
fn rows_differing_in_one_field_disagree() {
    let base = ItemRow { id: 7, name: "item0007".to_string(), price_cents: Some(1125) };
    let same = ItemRow { id: 7, name: "item0007".to_string(), price_cents: Some(1125) };
    let other_id = ItemRow { id: 8, name: "item0007".to_string(), price_cents: Some(1125) };
    let other_name = ItemRow { id: 7, name: "item0008".to_string(), price_cents: Some(1125) };
    let no_price = ItemRow { id: 7, name: "item0007".to_string(), price_cents: None };
    let other_price = ItemRow { id: 7, name: "item0007".to_string(), price_cents: Some(1124) };
    assert!(same_row(&base, &same));
    assert!(!same_row(&base, &other_id));
    assert!(!same_row(&base, &other_name));
    assert!(!same_row(&base, &no_price));
    assert!(!same_row(&no_price, &base));
    assert!(!same_row(&base, &other_price));
}
