use query_pipeline::byte_layout::{pow256_word, push_le_bytes, read_le_value};
use query_pipeline::datavalues::{DataColumn, DataField, DataType, DataValue};
use query_pipeline::error::ErrorCode;
use query_pipeline::hash_method::{
    HashMethod, HashMethodFixedKeys, HashMethodKeysU16, HashMethodKeysU32, HashMethodKeysU64,
    HashMethodKeysU8, HashMethodKind, HashMethodSerializer,
};
use query_pipeline::hashing::{hash_rows, hash_value, mix_word};
use query_pipeline::datavalues::DataBlock;

fn uints(t: DataType, xs: &[u64]) -> DataColumn {
    DataColumn::new(t, xs.iter().map(|x| DataValue::UInt(*x)).collect()).unwrap()
}

fn field(name: &str, t: DataType) -> DataField {
    DataField::new(name.to_string(), t)
}

#[test]
fn hash_method_kind_names_and_types() {
    let kinds = vec![
        (HashMethodKind::Serializer(HashMethodSerializer::default()), "Serializer", DataType::Binary),
        (HashMethodKind::KeysU8(HashMethodKeysU8::default()), "FixedKeys1", DataType::UInt8),
        (HashMethodKind::KeysU16(HashMethodKeysU16::default()), "FixedKeys2", DataType::UInt16),
        (HashMethodKind::KeysU32(HashMethodKeysU32::default()), "FixedKeys4", DataType::UInt32),
        (HashMethodKind::KeysU64(HashMethodKeysU64::default()), "FixedKeys8", DataType::UInt64),
    ];
    for (kind, name, data_type) in kinds {
        assert_eq!(kind.name(), name);
        assert_eq!(kind.data_type(), data_type);
    }
}

#[test]
fn hash_method_trait_names() {
    fn name_of<T, M: HashMethod<T>>(m: &M) -> String {
        m.name()
    }
    assert_eq!(name_of::<Vec<u8>, _>(&HashMethodSerializer::default()), "Serializer");
    assert_eq!(name_of::<u32, _>(&HashMethodKeysU32::default()), "FixedKeys4");
}

#[test]
fn fixed_keys_lay_the_widest_column_first() {
    let a = uints(DataType::UInt8, &[0x12, 0x01]);
    let b = uints(DataType::UInt16, &[0x3456, 0x0002]);
    let c = uints(DataType::UInt8, &[0x78, 0x03]);
    let m = HashMethodKeysU32::default();
    // layout: b (2 bytes) at offset 0, a at offset 2, c at offset 3
    let keys = m.build_keys(&[&a, &b, &c], 2).unwrap();
    assert_eq!(keys, vec![0x7812_3456u32, 0x0301_0002]);
    let wide = HashMethodKeysU64::default().build_keys(&[&a, &b, &c], 2).unwrap();
    assert_eq!(wide, vec![0x7812_3456u64, 0x0301_0002]);
}

#[test]
fn fixed_keys_of_one_column_are_its_values() {
    let a = uints(DataType::UInt64, &[u64::MAX, 0, 77]);
    assert_eq!(HashMethodKeysU64::default().build_keys(&[&a], 3), Ok(vec![u64::MAX, 0, 77]));
    let b = uints(DataType::UInt8, &[255, 0]);
    assert_eq!(HashMethodKeysU8::default().build_keys(&[&b], 2), Ok(vec![255u8, 0]));
    assert_eq!(HashMethodKeysU16::default().build_keys(&[], 2), Ok(vec![0u16, 0]));
}

#[test]
fn fixed_keys_reject_what_does_not_fit() {
    let a = uints(DataType::UInt16, &[1]);
    let b = uints(DataType::UInt8, &[1]);
    let m = HashMethodKeysU16::default();
    assert_eq!(m.build_keys(&[&a, &b], 1), Err(ErrorCode::ConfigurationError));
    let wide = uints(DataType::UInt64, &[1]);
    assert_eq!(HashMethodKeysU32::default().build_keys(&[&wide], 1), Err(ErrorCode::ConfigurationError));
    let text = DataColumn::new(DataType::Binary, vec![DataValue::Binary(vec![1])]).unwrap();
    assert_eq!(HashMethodKeysU64::default().build_keys(&[&text], 1), Err(ErrorCode::ConfigurationError));
    let nulls = DataColumn::new(DataType::UInt8, vec![DataValue::Null]).unwrap();
    assert_eq!(HashMethodKeysU64::default().build_keys(&[&nulls], 1), Err(ErrorCode::ConfigurationError));
    // a column with another number of rows
    assert_eq!(HashMethodKeysU64::default().build_keys(&[&a], 2), Err(ErrorCode::ConfigurationError));
}

#[test]
fn fixed_keys_split_back_into_columns() {
    let m = HashMethodKeysU32::default();
    let fields = vec![field("b", DataType::UInt16), field("a", DataType::UInt8), field("c", DataType::UInt8)];
    let cols = m.de_group_columns(vec![0x7812_3456u32, 0x0301_0002], &fields).unwrap();
    assert_eq!(cols.len(), 3);
    assert_eq!(cols[0], uints(DataType::UInt16, &[0x3456, 0x0002]));
    assert_eq!(cols[1], uints(DataType::UInt8, &[0x12, 0x01]));
    assert_eq!(cols[2], uints(DataType::UInt8, &[0x78, 0x03]));
}

#[test]
fn fixed_keys_round_trip_when_fields_are_widest_first() {
    let b = uints(DataType::UInt32, &[0xdead_beef, 5]);
    let a = uints(DataType::UInt16, &[0xabcd, 6]);
    let c = uints(DataType::UInt8, &[0x42, 7]);
    let m = HashMethodKeysU64::default();
    let keys = m.build_keys(&[&b, &a, &c], 2).unwrap();
    let fields = vec![field("b", DataType::UInt32), field("a", DataType::UInt16), field("c", DataType::UInt8)];
    let cols = m.de_group_columns(keys, &fields).unwrap();
    assert_eq!(cols, vec![b, a, c]);
}

#[test]
fn fixed_keys_de_group_rejects_bad_fields() {
    let m = HashMethodKeysU16::default();
    let too_wide = vec![field("a", DataType::UInt16), field("b", DataType::UInt8)];
    assert_eq!(m.de_group_columns(vec![1u16], &too_wide), Err(ErrorCode::ConfigurationError));
    let binary = vec![field("a", DataType::Binary)];
    assert_eq!(m.de_group_columns(vec![1u16], &binary), Err(ErrorCode::ConfigurationError));
}

#[test]
fn fixed_keys_get_key_reads_the_cell() {
    let a = uints(DataType::UInt16, &[7, 65535]);
    let m = HashMethodKeysU16::default();
    assert_eq!(m.get_key(&a, 1), 65535u16);
    assert_eq!(m.get_key(&a, 0), 7u16);
}

#[test]
fn serializer_concatenates_encoded_cells() {
    let a = uints(DataType::UInt16, &[0x0102, 3]);
    let b = DataColumn::new(
        DataType::Binary,
        vec![DataValue::Binary(b"hi".to_vec()), DataValue::Binary(vec![])],
    )
    .unwrap();
    let m = HashMethodSerializer::default();
    let keys = m.build_keys(&[&a, &b], 2).unwrap();
    assert_eq!(keys[0], vec![1, 0x02, 0x01, 1, 2, 0, 0, 0, 0, 0, 0, 0, b'h', b'i']);
    assert_eq!(keys[1], vec![1, 3, 0, 1, 0, 0, 0, 0, 0, 0, 0, 0]);
}

#[test]
fn serializer_round_trip() {
    let a = DataColumn::new(
        DataType::UInt32,
        vec![DataValue::UInt(1), DataValue::Null, DataValue::UInt(0xffff_ffff)],
    )
    .unwrap();
    let b = DataColumn::new(
        DataType::Binary,
        vec![
            DataValue::Binary(b"alpha".to_vec()),
            DataValue::Binary(vec![]),
            DataValue::Null,
        ],
    )
    .unwrap();
    let c = uints(DataType::UInt8, &[9, 8, 7]);
    let m = HashMethodSerializer::default();
    let keys = m.build_keys(&[&a, &b, &c], 3).unwrap();
    let fields = vec![field("a", DataType::UInt32), field("b", DataType::Binary), field("c", DataType::UInt8)];
    let cols = m.de_group_columns(keys, &fields).unwrap();
    assert_eq!(cols, vec![a, b, c]);
}

#[test]
fn serializer_encodes_nulls_and_rejects_short_keys() {
    let m = HashMethodSerializer::default();
    let nulls = DataColumn::new(DataType::UInt8, vec![DataValue::Null, DataValue::UInt(0)]).unwrap();
    // a null is the byte 0; the value 0 is the byte 1 and then its byte
    assert_eq!(m.build_keys(&[&nulls], 2), Ok(vec![vec![0], vec![1, 0]]));
    let a = uints(DataType::UInt8, &[1]);
    assert_eq!(m.build_keys(&[&a], 2), Err(ErrorCode::ConfigurationError));
    let fields = vec![field("a", DataType::UInt32)];
    assert_eq!(m.de_group_columns(vec![vec![1, 1, 2, 3]], &fields), Err(ErrorCode::ConfigurationError));
    assert_eq!(m.de_group_columns(vec![vec![]], &fields), Err(ErrorCode::ConfigurationError));
    // a cell starts with 0 or 1
    assert_eq!(m.de_group_columns(vec![vec![2, 0, 0, 0, 0]], &fields), Err(ErrorCode::ConfigurationError));
    let binary = vec![field("b", DataType::Binary)];
    // the length says 5 bytes, 2 follow
    assert_eq!(
        m.de_group_columns(vec![vec![1, 5, 0, 0, 0, 0, 0, 0, 0, 1, 2]], &binary),
        Err(ErrorCode::ConfigurationError)
    );
    // bytes behind the last cell are ignored
    let ok = m.de_group_columns(vec![vec![1, 1, 0, 0, 0, 9, 9], vec![0, 9]], &fields).unwrap();
    assert_eq!(ok, vec![DataColumn::new(DataType::UInt32, vec![DataValue::UInt(1), DataValue::Null]).unwrap()]);
}

#[test]
fn serializer_get_key_copies_the_bytes() {
    let b = DataColumn::new(DataType::Binary, vec![DataValue::Binary(b"key".to_vec()), DataValue::Null]).unwrap();
    let m = HashMethodSerializer::default();
    assert_eq!(m.get_key(&b, 0), b"key".to_vec());
    assert_eq!(m.get_key(&b, 1), Vec::<u8>::new());
}

#[test]
fn little_endian_helpers() {
    let mut out = vec![9u8];
    push_le_bytes(&mut out, 0x0102_0304, 4);
    assert_eq!(out, vec![9, 4, 3, 2, 1]);
    push_le_bytes(&mut out, 0xffff, 1);
    assert_eq!(out, vec![9, 4, 3, 2, 1, 0xff]);
    assert_eq!(read_le_value(&out, 1, 4), 0x0102_0304);
    assert_eq!(read_le_value(&out, 0, 0), 0);
    assert_eq!(read_le_value(&vec![0xff; 8], 0, 8), u64::MAX);
    assert_eq!(pow256_word(0), 1);
    assert_eq!(pow256_word(3), 1 << 24);
    assert_eq!(pow256_word(7), 1 << 56);
}

#[test]
fn row_hash_exact_values() {
    // one mixing step: (h ^ x) * 0x100000001b3 mod 2^64
    assert_eq!(mix_word(0, 1), 0x0000_0100_0000_01b3);
    assert_eq!(mix_word(5, 5), 0);
    assert_eq!(mix_word(u64::MAX, 0), u64::MAX.wrapping_mul(0x0000_0100_0000_01b3));
    // a null folds in the word 0; an integer the tag 1, then the value
    assert_eq!(hash_value(3, &DataValue::Null), mix_word(3, 0));
    assert_eq!(hash_value(3, &DataValue::UInt(9)), mix_word(mix_word(3, 1), 9));
    // a byte string: tag 2, the bytes, the length
    assert_eq!(
        hash_value(3, &DataValue::Binary(vec![7, 8])),
        mix_word(mix_word(mix_word(mix_word(3, 2), 7), 8), 2)
    );
    let col = uints(DataType::UInt64, &[9, 10]);
    let block = DataBlock::new(vec![col]).unwrap();
    let h = hash_rows(&block, &vec![0], 3);
    let raw = mix_word(mix_word(3, 1), 9);
    assert_eq!(h[0], raw ^ (raw >> 32));
    assert_eq!(h.len(), 2);
    // no key columns: the hash of the seed alone
    assert_eq!(hash_rows(&block, &vec![], 3), vec![3, 3]);
}

#[test]
fn hash_method_trait_builds_the_same_keys() {
    fn keys_of<T, M: HashMethod<T>>(m: &M, cols: &[&DataColumn], rows: usize) -> Result<Vec<T>, ErrorCode> {
        m.build_keys(cols, rows)
    }
    let a = uints(DataType::UInt8, &[1, 2]);
    let b = uints(DataType::UInt16, &[0x0304, 0x0506]);
    assert_eq!(keys_of(&HashMethodKeysU32::default(), &[&a, &b], 2), Ok(vec![0x01_0304u32, 0x02_0506]));
    assert_eq!(
        keys_of(&HashMethodSerializer::default(), &[&a, &b], 2),
        Ok(vec![vec![1u8, 1, 1, 4, 3], vec![1, 2, 1, 6, 5]])
    );
    let unused: HashMethodFixedKeys<u64> = HashMethodFixedKeys::default();
    assert_eq!(unused.name(), "FixedKeys8");
}
