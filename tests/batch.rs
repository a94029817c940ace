use item_seed::batch::{encode_id_batch, encode_seed_batch};
use item_seed::seed::{seed_rows, SeedRow};

fn record(name: &str, price: Option<f64>) -> serde_json::Value {
    let mut m = serde_json::Map::new();
    m.insert("name".to_string(), serde_json::Value::String(name.to_string()));
    let p = match price {
        Some(p) => serde_json::Value::from(p),
        None => serde_json::Value::Null,
    };
    m.insert("price".to_string(), p);
    serde_json::Value::Object(m)
}

#[test]
fn id_batch_lists_the_identifiers() {
    let ids = vec![10_i64, 20, 381, 35];
    assert_eq!(encode_id_batch(&ids), "[10, 20, 381, 35]");
    assert_eq!(encode_id_batch(&ids), format!("{:?}", ids));
}

#[test]
fn id_batch_edge_values() {
    assert_eq!(encode_id_batch(&vec![]), "[]");
    assert_eq!(encode_id_batch(&vec![0]), "[0]");
    let ids = vec![i64::MIN, -1, 0, 9, 10, i64::MAX];
    assert_eq!(encode_id_batch(&ids), format!("{:?}", ids));
}

#[test]
fn id_batch_reads_back_as_the_identifiers() {
    let ids = vec![10_i64, 20, 381, 35, -7, i64::MIN, i64::MAX];
    let back: Vec<i64> = serde_json::from_str(&encode_id_batch(&ids)).unwrap();
    assert_eq!(back, ids);
}

#[test]
fn seed_batch_matches_serde_json_records() {
    let rows = seed_rows();
    let values: Vec<serde_json::Value> = (0..100)
        .map(|i| record(&format!("item{:04}", i + 1), if i % 2 == 0 { Some(11.25) } else { None }))
        .collect();
    assert_eq!(encode_seed_batch(&rows), serde_json::to_string(&values).unwrap());
}

#[test]
fn seed_batch_starts_with_the_first_two_records() {
    let text = encode_seed_batch(&seed_rows());
    assert!(text.starts_with(
        "[{\"name\":\"item0001\",\"price\":11.25},{\"name\":\"item0002\",\"price\":null},"
    ));
    assert!(text.ends_with("{\"name\":\"item0100\",\"price\":null}]"));
}

#[test]
fn seed_batch_reads_back_as_the_rows() {
    let rows = seed_rows();
    let back: serde_json::Value = serde_json::from_str(&encode_seed_batch(&rows)).unwrap();
    let back = back.as_array().unwrap();
    assert_eq!(back.len(), rows.len());
    for (row, v) in rows.iter().zip(back.iter()) {
        assert_eq!(v["name"].as_str().unwrap(), row.name);
        match row.price_cents {
            Some(c) => assert_eq!(v["price"].as_f64().unwrap(), c as f64 / 100.0),
            None => assert!(v["price"].is_null()),
        }
    }
}

#[test]
fn empty_seed_batch() {
    assert_eq!(encode_seed_batch(&vec![]), "[]");
}

#[test]
fn seed_batch_prices_have_two_fraction_digits() {
    let rows = vec![
        SeedRow { name: "a".to_string(), price_cents: Some(0) },
        SeedRow { name: "b".to_string(), price_cents: Some(5) },
        SeedRow { name: "c".to_string(), price_cents: Some(100) },
        SeedRow { name: "d".to_string(), price_cents: Some(99999999) },
    ];
    assert_eq!(
        encode_seed_batch(&rows),
        "[{\"name\":\"a\",\"price\":0.00},{\"name\":\"b\",\"price\":0.05},\
         {\"name\":\"c\",\"price\":1.00},{\"name\":\"d\",\"price\":999999.99}]"
    );
}

#[test]
fn seed_batch_escapes_names_as_json() {
    let rows = vec![SeedRow { name: "a\"b\\c\nd".to_string(), price_cents: None }];
    let text = encode_seed_batch(&rows);
    assert_eq!(text, "[{\"name\":\"a\\\"b\\\\c\\nd\",\"price\":null}]");
    let back: serde_json::Value = serde_json::from_str(&text).unwrap();
    assert_eq!(back[0]["name"].as_str().unwrap(), "a\"b\\c\nd");
}
