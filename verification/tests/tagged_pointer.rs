use inko_rt::tagged_pointer::{Immediate, TaggedPointer, Value, MAX_INTEGER, MIN_INTEGER};
use inko_rt::errors::RuntimeError;

#[test]
fn round_trip_of_immediates() {
    let values = vec![
        Immediate::Nil,
        Immediate::Boolean(true),
        Immediate::Boolean(false),
        Immediate::Integer(0),
        Immediate::Integer(42),
        Immediate::Integer(-1),
        Immediate::Integer(MAX_INTEGER),
        Immediate::Integer(MIN_INTEGER),
        Immediate::Float(0),
        Immediate::Float(0x3fc0_0000),
        Immediate::Float(u32::MAX),
    ];
    for value in values {
        let word = TaggedPointer::encode(value).unwrap();
        assert_eq!(word.decode(), Value::Immediate(value));
    }
}

#[test]
fn integers_out_of_range_do_not_fit() {
    assert!(TaggedPointer::encode(Immediate::Integer(MAX_INTEGER + 1)).is_none());
    assert!(TaggedPointer::encode(Immediate::Integer(MIN_INTEGER - 1)).is_none());
    assert!(TaggedPointer::integer(i64::MAX).is_none());
    assert!(TaggedPointer::integer(i64::MIN).is_none());
}

#[test]
fn exact_words() {
    assert_eq!(TaggedPointer::nil().raw(), 6);
    assert_eq!(TaggedPointer::boolean(false).raw(), 2);
    assert_eq!(TaggedPointer::boolean(true).raw(), 10);
    assert_eq!(TaggedPointer::integer(0).unwrap().raw(), 1);
    assert_eq!(TaggedPointer::integer(42).unwrap().raw(), 85);
    assert_eq!(TaggedPointer::integer(-1).unwrap().raw(), u64::MAX);
    assert_eq!(TaggedPointer::float(1).raw(), 0x1_0000_0004);
    assert_eq!(TaggedPointer::null().raw(), 0);
}

#[test]
fn references_are_aligned() {
    assert!(TaggedPointer::reference(32768).is_some());
    assert!(TaggedPointer::reference(32769).is_none());
    assert!(TaggedPointer::reference(32772).is_none());
    let word = TaggedPointer::reference(32768).unwrap();
    assert!(word.is_reference());
    assert!(!word.is_immediate());
    assert_eq!(word.as_reference(), Ok(32768));
    assert_eq!(word.decode(), Value::Reference(32768));
}

#[test]
fn heap_access_through_an_immediate_is_a_type_mismatch() {
    let word = TaggedPointer::integer(7).unwrap();
    assert_eq!(word.as_reference(), Err(RuntimeError::TypeMismatch));
    assert_eq!(TaggedPointer::boolean(true).as_integer(), Err(RuntimeError::TypeMismatch));
    assert_eq!(TaggedPointer::nil().as_boolean(), Err(RuntimeError::TypeMismatch));
    assert_eq!(TaggedPointer::null().as_float(), Err(RuntimeError::TypeMismatch));
    assert_eq!(word.as_integer(), Ok(7));
    assert_eq!(TaggedPointer::boolean(true).as_boolean(), Ok(true));
    assert_eq!(TaggedPointer::float(9).as_float(), Ok(9));
}

#[test]
fn null_is_a_reference_and_not_an_immediate() {
    let word = TaggedPointer::null();
    assert!(word.is_null());
    assert!(word.is_reference());
    assert_eq!(word.decode(), Value::Reference(0));
    assert!(!TaggedPointer::nil().is_null());
}

#[test]
fn only_collector_violations_are_fatal() {
    assert!(RuntimeError::GCInvariantViolation.fatal());
    assert!(!RuntimeError::AllocationFailure.fatal());
    assert!(!RuntimeError::SendToDeadProcess.fatal());
    assert!(!RuntimeError::ProcessNotFound.fatal());
    assert!(!RuntimeError::InvalidClass.fatal());
    assert!(!RuntimeError::TypeMismatch.fatal());
    assert!(!RuntimeError::FieldIndex.fatal());
}

#[test]
fn packed_floats_keep_their_bits() {
    for value in [0.0f32, -0.0, 1.5, -2.25, f32::MAX, f32::MIN_POSITIVE, f32::INFINITY] {
        let word = TaggedPointer::float(value.to_bits());
        assert_eq!(f32::from_bits(word.as_float().unwrap()), value);
        assert!(word.is_immediate());
    }
    let nan = TaggedPointer::float(f32::NAN.to_bits());
    assert!(f32::from_bits(nan.as_float().unwrap()).is_nan());
}

#[test]
fn every_word_decodes() {
    assert_eq!(TaggedPointer::from_raw(14).decode(), Value::Immediate(Immediate::Nil));
    assert_eq!(TaggedPointer::from_raw(18).decode(), Value::Immediate(Immediate::Boolean(false)));
    assert_eq!(TaggedPointer::from_raw(26).decode(), Value::Immediate(Immediate::Boolean(true)));
    assert_eq!(TaggedPointer::from_raw(12).decode(), Value::Immediate(Immediate::Float(0)));
    assert_eq!(TaggedPointer::from_raw(3).decode(), Value::Immediate(Immediate::Integer(1)));
    assert_eq!(
        TaggedPointer::from_raw(u64::MAX - 2).decode(),
        Value::Immediate(Immediate::Integer(-2))
    );
    assert_eq!(TaggedPointer::from_raw(1 << 63).decode(), Value::Reference(1 << 63));
}
