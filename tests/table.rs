use ktable::{KData, KTable, KValue, TableError};

#[test]
fn concrete_scenario() {
    let (a, b, c, d, e) = (KValue::I32(1), KValue::I32(2), KValue::I32(3), KValue::I32(4), KValue::I32(5));
    let mut table = KTable::new(4);
    assert_eq!(table.insert("a", &a), Ok(()));
    assert_eq!(table.insert("b", &b), Ok(()));
    assert_eq!(table.insert("c", &c), Ok(()));
    assert_eq!(table.insert("d", &d), Ok(()));
    assert_eq!(table.insert("e", &e), Err(TableError::CapacityExceeded));
    assert_eq!(table.remove("b"), Ok(()));
    assert_eq!(table.insert("e", &e), Ok(()));
    assert_eq!(table.get::<i32>("b"), Err(TableError::NotFound));
    assert_eq!(table.get::<i32>("e"), Ok(&5));
    assert_eq!(table.get::<i32>("a"), Ok(&1));
    assert_eq!(table.get::<i32>("c"), Ok(&3));
    assert_eq!(table.get::<i32>("d"), Ok(&4));
}

#[test]
fn type_mismatch() {
    let v = KValue::I32(42);
    let mut table = KTable::new(8);
    assert_eq!(table.insert("x", &v), Ok(()));
    assert_eq!(table.get::<String>("x"), Err(TableError::TypeMismatch));
    assert_eq!(table.get::<i64>("x"), Err(TableError::TypeMismatch));
    assert_eq!(table.get::<i32>("x"), Ok(&42));
}

#[test]
fn probe_wraparound() {
    let v1 = KValue::I32(1);
    let v2 = KValue::I32(2);
    let mut table = KTable::new(4);
    assert_eq!(table.hash("c", 4), 3);
    assert_eq!(table.hash("g", 4), 3);
    assert_eq!(table.insert("c", &v1), Ok(()));
    assert_eq!(table.insert("g", &v2), Ok(()));
    assert_eq!(table.key_at(3), Some("c"));
    assert_eq!(table.key_at(0), Some("g"));
    assert_eq!(table.key_at(1), None);
    assert_eq!(table.key_at(4), None);
    assert_eq!(table.get::<i32>("g"), Ok(&2));
    assert_eq!(table.get::<i32>("c"), Ok(&1));
}

#[test]
fn round_trip_each_kind() {
    let values = [
        KValue::Bool(true),
        KValue::Char('z'),
        KValue::I32(-7),
        KValue::I64(-1 << 40),
        KValue::U32(7),
        KValue::U64(1 << 40),
        KValue::Usize(9),
        KValue::Text(String::from("hello")),
    ];
    let keys = ["bool", "char", "i32", "i64", "u32", "u64", "usize", "text"];
    let mut table = KTable::new(16);
    for (k, v) in keys.iter().zip(values.iter()) {
        assert_eq!(table.insert(k, v), Ok(()));
    }
    assert_eq!(table.get::<bool>("bool"), Ok(&true));
    assert_eq!(table.get::<char>("char"), Ok(&'z'));
    assert_eq!(table.get::<i32>("i32"), Ok(&-7));
    assert_eq!(table.get::<i64>("i64"), Ok(&(-1 << 40)));
    assert_eq!(table.get::<u32>("u32"), Ok(&7));
    assert_eq!(table.get::<u64>("u64"), Ok(&(1 << 40)));
    assert_eq!(table.get::<usize>("usize"), Ok(&9));
    assert_eq!(table.get::<String>("text"), Ok(&String::from("hello")));
    assert_eq!(table.get::<bool>("text"), Err(TableError::TypeMismatch));
}

#[test]
fn capacity_bound() {
    let vs = [KValue::U32(0), KValue::U32(1), KValue::U32(2), KValue::U32(3)];
    let mut table = KTable::new(3);
    assert_eq!(table.insert("k0", &vs[0]), Ok(()));
    assert_eq!(table.insert("k1", &vs[1]), Ok(()));
    assert_eq!(table.insert("k2", &vs[2]), Ok(()));
    assert_eq!(table.insert("k3", &vs[3]), Err(TableError::CapacityExceeded));
    assert_eq!(table.get::<u32>("k3"), Err(TableError::NotFound));
    assert_eq!(table.get::<u32>("k2"), Ok(&2));
}

#[test]
fn capacity_one() {
    let v = KValue::U64(1);
    let w = KValue::U64(2);
    let mut table = KTable::new(1);
    assert_eq!(table.size(), 1);
    assert_eq!(table.insert("only", &v), Ok(()));
    assert_eq!(table.insert("other", &w), Err(TableError::CapacityExceeded));
    assert_eq!(table.insert("only", &w), Ok(()));
    assert_eq!(table.get::<u64>("only"), Ok(&2));
}

#[test]
fn removal_keeps_displaced_entries() {
    let v1 = KValue::I32(1);
    let v2 = KValue::I32(2);
    let v3 = KValue::I32(3);
    let mut table = KTable::new(4);
    // "c", "g" and "k" all hash to slot 3 of 4.
    assert_eq!(table.hash("k", 4), 3);
    assert_eq!(table.insert("c", &v1), Ok(()));
    assert_eq!(table.insert("g", &v2), Ok(()));
    assert_eq!(table.insert("k", &v3), Ok(()));
    assert_eq!(table.key_at(1), Some("k"));
    assert_eq!(table.remove("g"), Ok(()));
    assert_eq!(table.key_at(0), None);
    assert_eq!(table.get::<i32>("g"), Err(TableError::NotFound));
    assert_eq!(table.get::<i32>("k"), Ok(&3));
    assert_eq!(table.get::<i32>("c"), Ok(&1));
    assert_eq!(table.remove("g"), Err(TableError::NotFound));
}

#[test]
fn removed_slot_is_reused() {
    let v1 = KValue::I32(1);
    let v2 = KValue::I32(2);
    let v3 = KValue::I32(3);
    let mut table = KTable::new(4);
    assert_eq!(table.insert("c", &v1), Ok(()));
    assert_eq!(table.insert("g", &v2), Ok(()));
    assert_eq!(table.remove("c"), Ok(()));
    assert_eq!(table.insert("g", &v3), Ok(()));
    assert_eq!(table.key_at(0), Some("g"));
    assert_eq!(table.key_at(3), None);
    assert_eq!(table.insert("c", &v1), Ok(()));
    assert_eq!(table.key_at(3), Some("c"));
    assert_eq!(table.get::<i32>("g"), Ok(&3));
}

#[test]
fn insert_overwrites_existing_key() {
    let v1 = KValue::I32(1);
    let v2 = KValue::Text(String::from("two"));
    let mut table = KTable::new(2);
    assert_eq!(table.insert("x", &v1), Ok(()));
    assert_eq!(table.insert("x", &v2), Ok(()));
    assert_eq!(table.get::<i32>("x"), Err(TableError::TypeMismatch));
    assert_eq!(table.get::<String>("x"), Ok(&String::from("two")));
    assert_eq!(table.remove("x"), Ok(()));
    assert_eq!(table.get::<String>("x"), Err(TableError::NotFound));
}

#[test]
fn missing_key_on_empty_and_full_tables() {
    let v = KValue::Bool(false);
    let mut table = KTable::new(2);
    assert_eq!(table.get::<bool>("nothing"), Err(TableError::NotFound));
    assert_eq!(table.remove("nothing"), Err(TableError::NotFound));
    assert_eq!(table.insert("p", &v), Ok(()));
    assert_eq!(table.insert("q", &v), Ok(()));
    assert_eq!(table.get::<bool>("nothing"), Err(TableError::NotFound));
    assert_eq!(table.get::<bool>("q"), Ok(&false));
}

#[test]
fn empty_key() {
    let v = KValue::Char('e');
    let mut table = KTable::new(5);
    assert_eq!(table.hash("", 5), 0);
    assert_eq!(table.insert("", &v), Ok(()));
    assert_eq!(table.key_at(0), Some(""));
    assert_eq!(table.get::<char>(""), Ok(&'e'));
}

#[test]
fn hash_reduces_after_every_character() {
    let table = KTable::new(1);
    assert_eq!(table.hash("a", 4), 1);
    // 97 % 10 = 7, then (7 * 31 + 98) % 10 = 5
    assert_eq!(table.hash("ab", 10), 5);
    // 97 % 7 = 6, then (6 * 31 + 98) % 7 = 4
    assert_eq!(table.hash("ab", 7), 4);
    // non-ASCII characters hash by code point: 233 % 7 = 2
    assert_eq!(table.hash("\u{e9}", 7), 2);
    assert_eq!(table.hash("anything", 1), 0);
}

#[test]
fn probing_wraps_modulo_size() {
    let table = KTable::new(1);
    assert_eq!(table.probing(3, 1, 4), 0);
    assert_eq!(table.probing(3, 0, 4), 3);
    assert_eq!(table.probing(5, 9, 4), 2);
    assert_eq!(table.probing(usize::MAX, usize::MAX, 7), ((usize::MAX % 7) * 2) % 7);
}

#[test]
fn data_holds_key_and_value() {
    let v = KValue::I64(3);
    let d = KData::new("k", &v);
    assert_eq!(d.key, "k");
    assert!(matches!(d.value, KValue::I64(3)));
    let copy = d;
    assert_eq!(copy.key, d.key);
}
