use gob::BufVec;
use gob::EncodeError;
use gob::IoFault;
use gob::Stream;
use gob::TypeId;
use gob::VecSink;

fn value_buf(bytes: &[u8]) -> BufVec {
    let mut b = BufVec::new();
    b.push(bytes.to_vec());
    b
}

#[test]
fn first_flush_writes_definition_then_value() {
    let mut stream = Stream::new(VecSink::new());
    let tid = TypeId(7);
    let def = vec![0xAA];

    assert!(!stream.has_sent(tid));
    stream.flush(tid, &def, value_buf(&[1, 2, 3])).unwrap();
    assert!(stream.has_sent(tid));

    let sink = stream.into_sink();
    // definition frame: length 2, tag -7, definition byte;
    // value frame: length 4, tag 7, three payload bytes.
    assert_eq!(*sink.data(), vec![0x02, 0x0D, 0xAA, 0x04, 0x0E, 1, 2, 3]);
}

#[test]
fn second_flush_writes_only_the_value_frame() {
    let mut stream = Stream::new(VecSink::new());
    let tid = TypeId(7);
    let def = vec![0xAA];

    stream.flush(tid, &def, value_buf(&[1, 2, 3])).unwrap();
    stream.flush(tid, &def, value_buf(&[9])).unwrap();

    let sink = stream.into_sink();
    assert_eq!(
        *sink.data(),
        vec![0x02, 0x0D, 0xAA, 0x04, 0x0E, 1, 2, 3, 0x02, 0x0E, 9]
    );
}

#[test]
fn two_types_each_defined_once() {
    let mut stream = Stream::new(VecSink::new());
    stream.flush(TypeId(7), &vec![0xAA], value_buf(&[1])).unwrap();
    stream.flush(TypeId(8), &vec![0xBB], value_buf(&[2])).unwrap();
    stream.flush(TypeId(7), &vec![0xAA], value_buf(&[3])).unwrap();
    let sink = stream.into_sink();
    assert_eq!(
        *sink.data(),
        vec![
            0x02, 0x0D, 0xAA, 0x02, 0x0E, 1, // define 7, value of 7
            0x02, 0x0F, 0xBB, 0x02, 0x10, 2, // define 8, value of 8
            0x02, 0x0E, 3, // value of 7 only
        ]
    );
}

#[test]
fn multi_chunk_value_is_gathered_in_order() {
    let mut stream = Stream::new(VecSink::new());
    let mut value = BufVec::new();
    value.push(vec![1, 2]);
    value.push(vec![3]);
    value.push(vec![4, 5]);
    stream.flush(TypeId(7), &vec![0xAA], value).unwrap();
    let sink = stream.into_sink();
    assert_eq!(
        *sink.data(),
        vec![0x02, 0x0D, 0xAA, 0x06, 0x0E, 1, 2, 3, 4, 5]
    );
}

#[test]
fn partial_definition_write_is_not_marked_sent() {
    // Room for only two of the three definition-frame bytes.
    let mut stream = Stream::new(VecSink::with_limit(2));
    let tid = TypeId(7);
    let r = stream.flush(tid, &vec![0xAA], value_buf(&[1, 2, 3]));
    assert_eq!(r, Err(EncodeError::Io(IoFault { code: 0 })));
    assert!(!stream.has_sent(tid));
    let sink = stream.into_sink();
    assert_eq!(*sink.data(), vec![0x02, 0x0D]);
}

#[test]
fn complete_definition_is_sent_even_if_value_fails() {
    // Room for exactly the definition frame, none of the value frame.
    let mut stream = Stream::new(VecSink::with_limit(3));
    let tid = TypeId(7);
    let r = stream.flush(tid, &vec![0xAA], value_buf(&[1, 2, 3]));
    assert_eq!(r, Err(EncodeError::Io(IoFault { code: 0 })));
    assert!(stream.has_sent(tid));
    let sink = stream.into_sink();
    assert_eq!(*sink.data(), vec![0x02, 0x0D, 0xAA]);
}
