use dozer_pipeline::codec::{decode_record_values, encode_record_values, get_be, put_be};
use dozer_pipeline::errors::DeserializationError;
use dozer_pipeline::types::{Field, Record, Schema, FieldDefinition, FieldType};

fn samples() -> Vec<Field> {
    vec![
        Field::Null,
        Field::Boolean(true),
        Field::Boolean(false),
        Field::Int(-3),
        Field::Int(i64::MIN),
        Field::Int(i64::MAX),
        Field::UInt(u64::MAX),
        Field::Float(1.5f64.to_bits()),
        Field::Float(f64::NAN.to_bits()),
        Field::String("héllo".to_string()),
        Field::String(String::new()),
        Field::Binary(vec![0, 1, 2, 255]),
        Field::Binary(vec![]),
        Field::Timestamp(1_670_000_000_000),
        Field::Timestamp(-1),
        Field::Decimal(-12345, 2),
        Field::Decimal(i128::MIN, u32::MAX),
        Field::Date(-1),
        Field::Date(i32::MAX),
        Field::Json("{}".to_string()),
    ]
}

#[test]
fn encode_then_decode_gives_the_field_back() {
    for f in samples() {
        let bytes = f.encode();
        assert_eq!(Field::decode(&bytes), Ok(f));
    }
}

#[test]
fn fields_are_encoded_as_documented() {
    assert_eq!(Field::Null.encode(), vec![0]);
    assert_eq!(Field::Boolean(true).encode(), vec![1, 1]);
    assert_eq!(Field::Boolean(false).encode(), vec![1, 0]);
    assert_eq!(Field::Int(258).encode(), vec![2, 0, 0, 0, 0, 0, 0, 1, 2]);
    assert_eq!(Field::Int(-1).encode(), vec![2, 255, 255, 255, 255, 255, 255, 255, 255]);
    assert_eq!(Field::UInt(1 << 56).encode(), vec![3, 1, 0, 0, 0, 0, 0, 0, 0]);
    assert_eq!(Field::Float(1.0f64.to_bits()).encode(), vec![4, 0x3f, 0xf0, 0, 0, 0, 0, 0, 0]);
    assert_eq!(
        Field::String("ab".to_string()).encode(),
        vec![5, 0, 0, 0, 0, 0, 0, 0, 2, b'a', b'b']
    );
    assert_eq!(Field::Binary(vec![9]).encode(), vec![6, 0, 0, 0, 0, 0, 0, 0, 1, 9]);
    assert_eq!(Field::Timestamp(1).encode(), vec![7, 0, 0, 0, 0, 0, 0, 0, 1]);
    assert_eq!(
        Field::Decimal(1, 2).encode(),
        vec![8, 0, 0, 0, 0, 0, 0, 0, 0, 0, 0, 0, 0, 0, 0, 0, 1, 0, 0, 0, 2]
    );
    assert_eq!(Field::Date(-2).encode(), vec![9, 255, 255, 255, 254]);
    assert_eq!(Field::Json("x".to_string()).encode(), vec![10, 0, 0, 0, 0, 0, 0, 0, 1, b'x']);
}

#[test]
fn what_is_no_encoding_is_refused_with_the_reason() {
    assert_eq!(Field::decode(&[]), Err(DeserializationError::EmptyInput));
    assert_eq!(Field::decode(&[11]), Err(DeserializationError::UnrecognisedFieldType(11)));
    assert_eq!(Field::decode(&[0, 0]), Err(DeserializationError::BadDataLength));
    assert_eq!(Field::decode(&[1]), Err(DeserializationError::BadDataLength));
    assert_eq!(Field::decode(&[1, 2]), Err(DeserializationError::BadValue));
    assert_eq!(Field::decode(&[2, 0, 0]), Err(DeserializationError::BadDataLength));
    assert_eq!(Field::decode(&[3, 0, 0, 0, 0, 0, 0, 0, 0, 0]), Err(DeserializationError::BadDataLength));
    assert_eq!(
        Field::decode(&[5, 0, 0, 0, 0, 0, 0, 0, 2, b'a']),
        Err(DeserializationError::BadDataLength)
    );
    assert_eq!(
        Field::decode(&[5, 0, 0, 0, 0, 0, 0, 0, 1, 0xff]),
        Err(DeserializationError::Utf8)
    );
    assert_eq!(
        Field::decode(&[10, 0, 0, 0, 0, 0, 0, 0, 2, 0xc3, 0x28]),
        Err(DeserializationError::Utf8)
    );
    assert_eq!(
        Field::decode(&[6, 0, 0, 0, 0, 0, 0, 0, 0, 1]),
        Err(DeserializationError::BadDataLength)
    );
    assert_eq!(Field::decode(&[8, 0]), Err(DeserializationError::BadDataLength));
    assert_eq!(Field::decode(&[9, 0, 0, 0]), Err(DeserializationError::BadDataLength));
}

#[test]
fn the_values_of_a_record_are_read_back() {
    let values = samples();
    let bytes = encode_record_values(&values);
    assert_eq!(decode_record_values(&bytes), Ok(values));
    assert_eq!(encode_record_values(&vec![]), Vec::<u8>::new());
    assert_eq!(decode_record_values(&[]), Ok(vec![]));
    assert_eq!(
        encode_record_values(&vec![Field::Null, Field::Boolean(true)]),
        vec![0, 0, 0, 0, 0, 0, 0, 1, 0, 0, 0, 0, 0, 0, 0, 0, 2, 1, 1]
    );
    assert_eq!(decode_record_values(&[0, 0, 0]), Err(DeserializationError::BadDataLength));
    assert_eq!(
        decode_record_values(&[0, 0, 0, 0, 0, 0, 0, 2, 0]),
        Err(DeserializationError::BadDataLength)
    );
    assert_eq!(
        decode_record_values(&[0, 0, 0, 0, 0, 0, 0, 1, 99]),
        Err(DeserializationError::UnrecognisedFieldType(99))
    );
}

#[test]
fn numbers_are_written_most_significant_byte_first() {
    let mut buf = vec![7];
    put_be(&mut buf, 0x0102, 2);
    put_be(&mut buf, 0x01020304, 3);
    put_be(&mut buf, 5, 0);
    assert_eq!(buf, vec![7, 1, 2, 2, 3, 4]);
    assert_eq!(get_be(&buf, 1, 2), 0x0102);
    assert_eq!(get_be(&buf, 0, 6), 0x070102020304);
    assert_eq!(get_be(&buf, 3, 0), 0);
}

#[test]
fn records_and_schemas_are_built_column_by_column() {
    let mut r = Record::nulls(None, 3, Some(4));
    assert_eq!(r.values, vec![Field::Null, Field::Null, Field::Null]);
    assert_eq!(r.version, Some(4));
    r.set_value(1, Field::Int(9));
    assert_eq!(r, Record::new(None, vec![Field::Null, Field::Int(9), Field::Null], Some(4)));
    assert_eq!(r.clone(), r);
    assert!(Field::Int(9).equals(&r.values[1]));
    assert!(!Field::Int(9).equals(&Field::UInt(9)));
    assert!(Field::Binary(vec![1, 2]).equals(&Field::Binary(vec![1, 2])));
    assert!(!Field::Binary(vec![1, 2]).equals(&Field::Binary(vec![1, 3])));

    let mut schema = Schema::empty();
    schema.field(FieldDefinition::new("id".to_string(), FieldType::UInt, false), true, true);
    schema.field(FieldDefinition::new("name".to_string(), FieldType::String, true), true, false);
    schema.field(FieldDefinition::new("hidden".to_string(), FieldType::Int, true), false, false);
    assert_eq!(schema.fields.len(), 3);
    assert_eq!(schema.values, vec![0, 1]);
    assert_eq!(schema.primary_index, vec![0]);
    assert_eq!(schema.clone(), schema);
}
