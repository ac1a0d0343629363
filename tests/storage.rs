use cozo::entities::{entities_at, offset_limit};
use cozo::program::{AttrValueType, Attribute, Cardinality};
use cozo::codec::{decode_eav_key, encode_eav_key};
use cozo::transact::SessionTx;
use cozo::value::{AttrId, DataValue, EntityId, Validity};

fn same(a: &DataValue, b: &DataValue) -> bool {
    a.same_as(b)
}

#[test]
fn key_layout_is_bit_exact() {
    let k = encode_eav_key(EntityId(0x0102), AttrId(7), &DataValue::Int(-1), Validity(i64::MAX));
    let mut expected = vec![1u8, 0, 0, 0, 0, 0, 0, 1, 2, 0, 0, 0, 7];
    expected.extend([0u8; 8]);
    expected.push(3);
    expected.extend([0x7f, 0xff, 0xff, 0xff, 0xff, 0xff, 0xff, 0xff]);
    assert_eq!(k, expected);
}

#[test]
fn keys_round_trip() {
    let values = vec![
        DataValue::Null,
        DataValue::Bool(true),
        DataValue::Bool(false),
        DataValue::Int(i64::MIN),
        DataValue::Int(42),
        DataValue::Str("top secret ünïcode".to_string()),
        DataValue::Str(String::new()),
        DataValue::EnId(EntityId(u64::MAX)),
        DataValue::Bottom,
    ];
    for v in &values {
        for vld in [i64::MIN, -5, 0, 17, i64::MAX] {
            let k = encode_eav_key(EntityId(99), AttrId(u32::MAX), v, Validity(vld));
            let (e, a, t, back) = decode_eav_key(&k).unwrap();
            assert_eq!(e, EntityId(99));
            assert_eq!(a, AttrId(u32::MAX));
            assert_eq!(t, Validity(vld));
            assert!(same(&back, v));
        }
    }
}

#[test]
fn later_validity_sorts_first() {
    let early = encode_eav_key(EntityId(1), AttrId(1), &DataValue::Int(0), Validity(10));
    let late = encode_eav_key(EntityId(1), AttrId(1), &DataValue::Int(0), Validity(20));
    assert!(late < early);
}

#[test]
fn malformed_keys_do_not_decode() {
    assert!(decode_eav_key(&vec![]).is_none());
    let mut k = encode_eav_key(EntityId(1), AttrId(1), &DataValue::Null, Validity(0));
    k[0] = 9;
    assert!(decode_eav_key(&k).is_none());
    let mut k = encode_eav_key(EntityId(1), AttrId(1), &DataValue::Str("a".to_string()), Validity(0));
    k.pop();
    assert!(decode_eav_key(&k).is_none());
}

fn tx() -> SessionTx {
    SessionTx { facts: vec![], w_tx_id: None }
}

#[test]
fn cardinality_one_overwrite() {
    let mut tx = tx();
    let age = AttrId(3);
    tx.put(EntityId(1), age, DataValue::Int(30), Validity(1));
    tx.put(EntityId(1), age, DataValue::Int(31), Validity(2));
    assert!(same(&tx.read_value(EntityId(1), age, Validity(i64::MAX)).unwrap(), &DataValue::Int(31)));
    assert!(same(&tx.read_value(EntityId(1), age, Validity(1)).unwrap(), &DataValue::Int(30)));
    assert!(tx.read_value(EntityId(1), age, Validity(0)).is_none());
}

#[test]
fn retraction_hides_value_from_its_validity_on() {
    let mut tx = tx();
    let tag = AttrId(4);
    tx.put(EntityId(1), tag, DataValue::Str("a".to_string()), Validity(1));
    tx.retract(EntityId(1), tag, DataValue::Str("a".to_string()), Validity(2));
    assert!(same(&tx.read_value(EntityId(1), tag, Validity(1)).unwrap(), &DataValue::Str("a".to_string())));
    assert!(tx.read_value(EntityId(1), tag, Validity(2)).is_none());
    assert!(tx.read_value(EntityId(2), tag, Validity(2)).is_none());
}

#[test]
fn reads_between_writes_agree() {
    let mut tx = tx();
    let a = AttrId(5);
    tx.put(EntityId(1), a, DataValue::Int(1), Validity(10));
    tx.put(EntityId(1), a, DataValue::Int(2), Validity(20));
    let at12 = tx.read_value(EntityId(1), a, Validity(12)).unwrap();
    let at19 = tx.read_value(EntityId(1), a, Validity(19)).unwrap();
    assert!(same(&at12, &at19));
    let at20 = tx.read_value(EntityId(1), a, Validity(20)).unwrap();
    assert!(!same(&at12, &at20));
}

#[test]
fn cardinality_many_retract_by_triple() {
    let mut tx = tx();
    let tag = AttrId(6);
    let a = DataValue::Str("a".to_string());
    let b = DataValue::Str("b".to_string());
    tx.put(EntityId(1), tag, a.clone(), Validity(1));
    tx.put(EntityId(1), tag, b.clone(), Validity(1));
    tx.retract(EntityId(1), tag, a.clone(), Validity(2));
    assert!(!tx.has_value(EntityId(1), tag, &a, Validity(i64::MAX)));
    assert!(tx.has_value(EntityId(1), tag, &b, Validity(i64::MAX)));
    assert!(tx.has_value(EntityId(1), tag, &a, Validity(1)));
    assert!(tx.has_value(EntityId(1), tag, &b, Validity(1)));
    assert!(!tx.has_value(EntityId(1), tag, &b, Validity(0)));
}

#[test]
fn entities_at_lists_visible_values() {
    let attr = |id: u32, name: &str, card: Cardinality| Attribute {
        id: AttrId(id),
        name: name.to_string(),
        val_type: AttrValueType::Any,
        cardinality: card,
        indexed: false,
        with_history: true,
        unique: false,
    };
    let attrs = vec![attr(3, "age", Cardinality::One), attr(6, "tag", Cardinality::Many)];
    let mut tx = tx();
    tx.put(EntityId(9), AttrId(3), DataValue::Int(30), Validity(1));
    tx.put(EntityId(2), AttrId(6), DataValue::Str("a".to_string()), Validity(1));
    tx.put(EntityId(2), AttrId(6), DataValue::Str("b".to_string()), Validity(1));
    tx.retract(EntityId(2), AttrId(6), DataValue::Str("a".to_string()), Validity(2));
    tx.put(EntityId(5), AttrId(7), DataValue::Int(1), Validity(1));
    tx.retract(EntityId(9), AttrId(3), DataValue::Int(30), Validity(3));
    let now = entities_at(&tx, &attrs, Validity(2));
    assert_eq!(now.len(), 2);
    assert_eq!(now[0].id, EntityId(2));
    assert_eq!(now[0].attrs.len(), 1);
    assert_eq!(now[0].attrs[0].0, "tag");
    assert_eq!(now[0].attrs[0].1.len(), 1);
    assert!(same(&now[0].attrs[0].1[0], &DataValue::Str("b".to_string())));
    assert_eq!(now[1].id, EntityId(9));
    assert!(same(&now[1].attrs[0].1[0], &DataValue::Int(30)));
    let later = entities_at(&tx, &attrs, Validity(3));
    assert_eq!(later.len(), 1);
    assert_eq!(later[0].id, EntityId(2));
    assert_eq!(offset_limit(vec![1, 2, 3, 4, 5], Some(1), Some(2)), vec![2, 3]);
    assert_eq!(offset_limit(vec![1, 2, 3], Some(5), None), Vec::<i32>::new());
    assert_eq!(offset_limit(vec![1, 2, 3], None, Some(9)), vec![1, 2, 3]);
}

#[test]
fn keys_sort_by_entity_then_attribute_then_value() {
    let k = |e: u64, a: u32, v: i64, t: i64| encode_eav_key(EntityId(e), AttrId(a), &DataValue::Int(v), Validity(t));
    assert!(k(1, 9, 0, 0) < k(2, 1, 0, 0));
    assert!(k(1, 1, 0, 0) < k(1, 2, 0, 0));
    assert!(k(1, 1, 0, 5) < k(1, 1, 0, 4));
    assert!(k(1, 1, -3, 0) < k(1, 1, 7, 0));
}
