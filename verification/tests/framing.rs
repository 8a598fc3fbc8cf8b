use bytes::BytesMut;
use tcp_ais_broker::framing::{LineCodec, LineDecode};

fn line_of(d: LineDecode) -> Vec<u8> {
    match d {
        LineDecode::Line(b) => b.to_vec(),
        LineDecode::Oversized(n) => panic!("oversized {}", n),
        LineDecode::Overflow(n) => panic!("overflow {}", n),
        LineDecode::Incomplete => panic!("incomplete"),
        LineDecode::TailDiscarded(n) => panic!("tail discarded {}", n),
    }
}

#[test]
fn single_line_keeps_crlf() {
    let mut codec = LineCodec::new(4096);
    let input = b"!AIVDM,1,1,,A,15Mvq@001oJr>tpE>R0?wvlN0<0u,0*5C\r\n";
    let mut buf = BytesMut::from(&input[..]);
    let line = line_of(codec.decode(&mut buf));
    assert_eq!(line, input.to_vec());
    assert!(buf.is_empty());
}

#[test]
fn multiple_lines_in_one_read() {
    let mut codec = LineCodec::new(4096);
    let mut buf = BytesMut::from(&b"one\ntwo\r\nthr"[..]);
    assert_eq!(line_of(codec.decode(&mut buf)), b"one\n".to_vec());
    assert_eq!(line_of(codec.decode(&mut buf)), b"two\r\n".to_vec());
    assert!(matches!(codec.decode(&mut buf), LineDecode::Incomplete));
    assert_eq!(&buf[..], b"thr");
}

#[test]
fn partial_read_completes_later() {
    let mut codec = LineCodec::new(4096);
    let mut buf = BytesMut::from(&b"!AIVDM,1,1"[..]);
    assert!(matches!(codec.decode(&mut buf), LineDecode::Incomplete));
    assert_eq!(&buf[..], b"!AIVDM,1,1");
    buf.extend_from_slice(b",,A,x,0*00\r\n");
    assert_eq!(line_of(codec.decode(&mut buf)), b"!AIVDM,1,1,,A,x,0*00\r\n".to_vec());
    assert!(buf.is_empty());
}

#[test]
fn oversized_line_is_dropped() {
    let mut codec = LineCodec::new(4);
    let mut buf = BytesMut::from(&b"abcdef\nok\n"[..]);
    assert!(matches!(codec.decode(&mut buf), LineDecode::Oversized(7)));
    assert_eq!(&buf[..], b"ok\n");
    assert_eq!(line_of(codec.decode(&mut buf)), b"ok\n".to_vec());
}

#[test]
fn line_at_the_limit_passes() {
    let mut codec = LineCodec::new(4);
    let mut buf = BytesMut::from(&b"abcd\nabcde\n"[..]);
    assert_eq!(line_of(codec.decode(&mut buf)), b"abcd\n".to_vec());
    assert!(matches!(codec.decode(&mut buf), LineDecode::Oversized(6)));
    assert!(buf.is_empty());
}

#[test]
fn incomplete_overflow_resets_buffer() {
    let mut codec = LineCodec::new(4);
    let mut buf = BytesMut::from(&b"abcde"[..]);
    assert!(matches!(codec.decode(&mut buf), LineDecode::Overflow(5)));
    assert!(buf.is_empty());
    let mut codec = LineCodec::new(4);
    let mut buf = BytesMut::from(&b"abcd"[..]);
    assert!(matches!(codec.decode(&mut buf), LineDecode::Incomplete));
    assert_eq!(buf.len(), 4);
}

#[test]
fn tail_of_overflowed_line_is_discarded() {
    let mut codec = LineCodec::new(4);
    let mut buf = BytesMut::from(&b"abcdef"[..]);
    assert!(matches!(codec.decode(&mut buf), LineDecode::Overflow(6)));
    assert!(buf.is_empty());
    buf.extend_from_slice(b"gh");
    assert!(matches!(codec.decode(&mut buf), LineDecode::TailDiscarded(2)));
    assert!(buf.is_empty());
    buf.extend_from_slice(b"ij
ok
");
    assert!(matches!(codec.decode(&mut buf), LineDecode::TailDiscarded(3)));
    assert_eq!(&buf[..], b"ok
");
    assert_eq!(line_of(codec.decode(&mut buf)), b"ok
".to_vec());
}

#[test]
fn empty_buffer_is_incomplete() {
    let mut codec = LineCodec::new(0);
    let mut buf = BytesMut::new();
    assert!(matches!(codec.decode(&mut buf), LineDecode::Incomplete));
    let mut buf = BytesMut::from(&b"\n"[..]);
    assert_eq!(line_of(codec.decode(&mut buf)), b"\n".to_vec());
}
