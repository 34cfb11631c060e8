use gob::wire::encode_int;
use gob::EncodeError;
use gob::SchemaError;
use gob::SchemaRegistry;
use gob::SerializationCtx;
use gob::Stream;
use gob::TupleBuilder;
use gob::TypeDescriptor;
use gob::TypeId;
use gob::VecSink;

fn int_pair() -> TypeDescriptor {
    TypeDescriptor(5)
}

fn int_element() -> TypeDescriptor {
    TypeDescriptor(1)
}

fn registry_with_pair() -> SchemaRegistry {
    let mut reg = SchemaRegistry::new();
    assert!(reg.register(int_pair(), TypeId(7), vec![0xAA]));
    reg
}

#[test]
fn registry_resolves_registered_descriptor() {
    let reg = registry_with_pair();
    assert_eq!(reg.resolve(int_pair()), Ok(TypeId(7)));
    assert!(reg.knows_id(TypeId(7)));
    assert_eq!(*reg.definition_bytes(TypeId(7)), vec![0xAA]);
}

#[test]
fn registry_rejects_unknown_descriptor() {
    let reg = registry_with_pair();
    assert_eq!(
        reg.resolve(TypeDescriptor(99)),
        Err(SchemaError::Unencodable)
    );
    assert!(!reg.knows_id(TypeId(99)));
}

#[test]
fn registry_keeps_first_registration() {
    let mut reg = registry_with_pair();
    assert!(!reg.register(int_pair(), TypeId(8), vec![0xBB]));
    assert!(!reg.register(TypeDescriptor(6), TypeId(7), vec![0xBB]));
    assert!(!reg.register(TypeDescriptor(6), TypeId(0), vec![0xBB]));
    assert_eq!(reg.resolve(int_pair()), Ok(TypeId(7)));
    assert!(reg.register(TypeDescriptor(6), TypeId(8), vec![0xBB]));
}

#[test]
fn elements_are_emitted_in_call_order() {
    let reg = registry_with_pair();
    let mut stream = Stream::new(VecSink::new());

    let ctx = SerializationCtx::new(&reg);
    let type_id = ctx.type_id_for(int_pair()).unwrap();
    let mut builder = TupleBuilder::homogeneous(ctx, type_id, int_element());
    builder.serialize_element(int_element(), encode_int(1)).unwrap();
    builder.serialize_element(int_element(), encode_int(2)).unwrap();
    let (tid, ctx) = builder.end();
    ctx.flush(tid, &mut stream).unwrap();

    let sink = stream.into_sink();
    // definition frame, then value frame: tag 7 and the two elements
    // in the order they were serialized.
    assert_eq!(*sink.data(), vec![0x02, 0x0D, 0xAA, 0x03, 0x0E, 0x02, 0x04]);
}

#[test]
fn mismatched_element_fails_and_emits_nothing() {
    let reg = registry_with_pair();
    let stream = Stream::new(VecSink::new());

    let ctx = SerializationCtx::new(&reg);
    let type_id = ctx.type_id_for(int_pair()).unwrap();
    let mut builder = TupleBuilder::homogeneous(ctx, type_id, int_element());
    builder.serialize_element(int_element(), encode_int(1)).unwrap();
    let r = builder.serialize_element(TypeDescriptor(2), encode_int(2));
    assert_eq!(r, Err(EncodeError::TypeMismatch));

    // No flush happened: the stream wrote nothing.
    let sink = stream.into_sink();
    assert_eq!(*sink.data(), Vec::<u8>::new());
}

#[test]
fn mismatch_leaves_accumulated_value_unchanged() {
    let reg = registry_with_pair();
    let mut stream = Stream::new(VecSink::new());

    let ctx = SerializationCtx::new(&reg);
    let mut builder = TupleBuilder::homogeneous(ctx, TypeId(7), int_element());
    builder.serialize_element(int_element(), encode_int(1)).unwrap();
    assert!(builder.serialize_element(TypeDescriptor(2), encode_int(9)).is_err());
    builder.serialize_element(int_element(), encode_int(2)).unwrap();
    let (tid, ctx) = builder.end();
    ctx.flush(tid, &mut stream).unwrap();

    let sink = stream.into_sink();
    assert_eq!(*sink.data(), vec![0x02, 0x0D, 0xAA, 0x03, 0x0E, 0x02, 0x04]);
}

#[test]
fn batch_elements_keep_call_order() {
    let reg = registry_with_pair();
    let mut stream = Stream::new(VecSink::new());

    let ctx = SerializationCtx::new(&reg);
    let mut builder = TupleBuilder::homogeneous(ctx, TypeId(7), int_element());
    builder
        .serialize_elements(vec![
            (int_element(), encode_int(1)),
            (int_element(), encode_int(2)),
        ])
        .unwrap();
    let (tid, ctx) = builder.end();
    ctx.flush(tid, &mut stream).unwrap();

    let sink = stream.into_sink();
    assert_eq!(*sink.data(), vec![0x02, 0x0D, 0xAA, 0x03, 0x0E, 0x02, 0x04]);
}

#[test]
fn batch_stops_at_first_mismatched_element() {
    let reg = registry_with_pair();
    let mut stream = Stream::new(VecSink::new());

    let ctx = SerializationCtx::new(&reg);
    let mut builder = TupleBuilder::homogeneous(ctx, TypeId(7), int_element());
    let r = builder.serialize_elements(vec![
        (int_element(), encode_int(1)),
        (TypeDescriptor(2), encode_int(9)),
        (int_element(), encode_int(2)),
    ]);
    assert_eq!(r, Err(EncodeError::TypeMismatch));
    let (tid, ctx) = builder.end();
    ctx.flush(tid, &mut stream).unwrap();

    // Only the element before the mismatch was kept.
    let sink = stream.into_sink();
    assert_eq!(*sink.data(), vec![0x02, 0x0D, 0xAA, 0x02, 0x0E, 0x02]);
}

#[test]
fn nested_builders_accumulate_into_one_value() {
    let reg = registry_with_pair();
    let mut stream = Stream::new(VecSink::new());

    let ctx = SerializationCtx::new(&reg);
    let mut outer = TupleBuilder::homogeneous(ctx, TypeId(7), int_element());
    outer.serialize_element(int_element(), encode_int(1)).unwrap();
    let (tid, ctx) = outer.end();
    let mut inner = TupleBuilder::homogeneous(ctx, tid, int_element());
    inner.serialize_element(int_element(), encode_int(2)).unwrap();
    let (tid, ctx) = inner.end();
    ctx.flush(tid, &mut stream).unwrap();

    let sink = stream.into_sink();
    assert_eq!(*sink.data(), vec![0x02, 0x0D, 0xAA, 0x03, 0x0E, 0x02, 0x04]);
}
