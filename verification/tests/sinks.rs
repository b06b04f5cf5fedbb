use lazy_replace::{Bounded, Sink, SinkError};

#[test]
fn buffer_takes_every_chunk() {
    let (buffer, outcome) = Vec::new().write(b"one");
    assert_eq!(Ok(()), outcome);
    let (buffer, outcome) = buffer.write(b"");
    assert_eq!(Ok(()), outcome);
    let (buffer, outcome) = buffer.write(b"two");
    assert_eq!(Ok(()), outcome);
    assert_eq!(b"onetwo".to_vec(), buffer);
}

#[test]
fn bounded_sink_takes_what_fits() {
    let sink = Bounded::new(5);
    assert_eq!(5, sink.room());
    let (sink, outcome) = sink.write(b"one");
    assert_eq!(Ok(()), outcome);
    assert_eq!(2, sink.room());
    let (sink, outcome) = sink.write(b"two");
    assert_eq!(Err(SinkError), outcome);
    assert_eq!(b"one", sink.as_slice());
    assert_eq!(2, sink.room());
    let (sink, outcome) = sink.write(b"tw");
    assert_eq!(Ok(()), outcome);
    assert_eq!(b"onetw", sink.as_slice());
    assert_eq!(0, sink.room());
    let (sink, outcome) = sink.write(b"");
    assert_eq!(Ok(()), outcome);
    assert_eq!(b"onetw", sink.as_slice());
}
