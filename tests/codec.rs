use ort::codec::{CodecError, FrameDecoder, FrameEncoder, ReplyCodec, SpecCodec};
use ort::latency::Latency;
use ort::message::{Reply, Spec};
use ort::muxer::{Frame, FramedDecode, FramedEncode};
use ort::preface::Codec;

fn take<T, D: FrameDecoder<Item = T>>(dec: &mut D, buf: &mut Vec<u8>) -> T {
    let (n, item) = dec.decode(buf.as_slice()).expect("must decode");
    buf.drain(..n);
    item.expect("must decode")
}

fn reply(b: &[u8]) -> Reply {
    Reply { data: b.to_vec() }
}

#[test]
fn roundtrip_mux() {
    let mux0 = Frame { id: 1, value: reply(b"abcde") };
    let mux1 = Frame { id: 1, value: reply(b"fghij") };

    let mut buf = Vec::with_capacity(100);

    let mut enc = FramedEncode::new(ReplyCodec);
    enc.encode(mux0.clone(), &mut buf).expect("must encode");
    enc.encode(mux1.clone(), &mut buf).expect("must encode");

    let mut dec = FramedDecode::new(ReplyCodec);
    let d1 = take(&mut dec, &mut buf);
    let d2 = take(&mut dec, &mut buf);
    assert_eq!(d1.id, mux0.id);
    assert_eq!(d1.value, mux0.value);
    assert_eq!(d2.value, mux1.value);
}

#[test]
fn roundtrip_spec() {
    let spec0 = Spec { latency: Latency::from_millis(1), response_size: 3 };
    let spec1 = Spec { latency: Latency::from_millis(2), response_size: 4 };

    let mut buf = Vec::with_capacity(100);

    let mut enc = SpecCodec;
    enc.encode(spec0, &mut buf).expect("must encode");
    enc.encode(spec1, &mut buf).expect("must encode");

    let mut dec = SpecCodec;
    assert_eq!(take(&mut dec, &mut buf), spec0);
    assert_eq!(take(&mut dec, &mut buf), spec1);
}

#[test]
fn roundtrip_reply() {
    let reply0 = reply(b"abcdef");
    let reply1 = reply(b"ghijkl");

    let mut buf = Vec::with_capacity(100);

    let mut enc = ReplyCodec;
    enc.encode(reply0.clone(), &mut buf).expect("must encode");
    enc.encode(reply1.clone(), &mut buf).expect("must encode");

    let mut dec = ReplyCodec;
    assert_eq!(take(&mut dec, &mut buf), reply0);
    assert_eq!(take(&mut dec, &mut buf), reply1);
}

#[test]
fn muxer_roundtrip() {
    let mux0 = Frame { id: 1, value: reply(b"abcde") };
    let mux1 = Frame { id: 1, value: reply(b"fghij") };

    let mut buf = Vec::with_capacity(100);

    let mut enc = FramedEncode::new(ReplyCodec);
    enc.encode(mux0.clone(), &mut buf).expect("must encode");
    enc.encode(mux1.clone(), &mut buf).expect("must encode");

    let mut dec = FramedDecode::new(ReplyCodec);
    let d0 = take(&mut dec, &mut buf);
    let d1 = take(&mut dec, &mut buf);
    assert_eq!(d0.id, mux0.id);
    assert_eq!(d0.value, mux0.value);
    assert_eq!(d1.id, mux1.id);
    assert_eq!(d1.value, mux1.value);
}

#[test]
fn preface_roundtrip() {
    let b0 = reply(b"abcde");
    let b1 = reply(b"fghij");

    let mut buf = Vec::with_capacity(100);

    let mut enc = Codec::new(ReplyCodec);
    enc.encode(b0.clone(), &mut buf).expect("must encode");
    enc.encode(b1.clone(), &mut buf).expect("must encode");

    let mut dec = Codec::new(ReplyCodec);
    let d0 = take(&mut dec, &mut buf);
    let d1 = take(&mut dec, &mut buf);
    assert_eq!(d0, b0);
    assert_eq!(d1, b1);
}

#[test]
fn spec_wire_layout() {
    let mut buf = Vec::new();
    let spec = Spec { latency: Latency::from_millis(0x0102_0304), response_size: 0x0a0b_0c0d };
    SpecCodec.encode(spec, &mut buf).unwrap();
    assert_eq!(buf, vec![0, 0, 0, 8, 1, 2, 3, 4, 0x0a, 0x0b, 0x0c, 0x0d]);

    let mut buf = Vec::new();
    FramedEncode::new(SpecCodec)
        .encode(Frame { id: 0x0102030405060708, value: spec }, &mut buf)
        .unwrap();
    assert_eq!(&buf[..8], &[1, 2, 3, 4, 5, 6, 7, 8]);
    assert_eq!(buf.len(), 20);
}

#[test]
fn reply_wire_layout() {
    let mut buf = Vec::new();
    ReplyCodec.encode(reply(b"xyz"), &mut buf).unwrap();
    assert_eq!(buf, vec![0, 0, 0, 3, b'x', b'y', b'z']);
}

#[test]
fn partial_frames_wait() {
    let mut buf = Vec::new();
    FramedEncode::new(ReplyCodec).encode(Frame { id: 7, value: reply(b"hello") }, &mut buf).unwrap();
    let mut dec = FramedDecode::new(ReplyCodec);
    assert_eq!(dec.decode(&buf[..5]).unwrap(), (0, None));
    // The id is consumed; the payload is still missing.
    assert_eq!(dec.decode(&buf[..10]).unwrap(), (8, None));
    let (n, frame) = dec.decode(&buf[8..]).unwrap();
    assert_eq!(n, 9);
    assert_eq!(frame, Some(Frame { id: 7, value: reply(b"hello") }));
}

#[test]
fn spec_payload_must_be_eight_bytes() {
    let buf = vec![0, 0, 0, 4, 1, 2, 3, 4];
    assert_eq!(SpecCodec.decode(&buf), Err(CodecError::InvalidSpec));
    let buf = vec![0, 0, 0, 8, 1, 2, 3];
    assert_eq!(SpecCodec.decode(&buf), Ok((0, None)));
}

#[test]
fn wrong_preface_refused() {
    let mut buf = b"wrong-preface-abc......".to_vec();
    assert_eq!(buf.len(), 23);
    FramedEncode::new(SpecCodec)
        .encode(Frame { id: 1, value: Spec::default() }, &mut buf)
        .unwrap();
    let mut dec = Codec::new(FramedDecode::new(SpecCodec));
    assert_eq!(dec.decode(&buf), Err(CodecError::InvalidPreface));
}

#[test]
fn preface_is_written_once() {
    let mut buf = Vec::new();
    let mut enc = Codec::new(FramedEncode::new(SpecCodec));
    enc.encode(Frame { id: 1, value: Spec::default() }, &mut buf).unwrap();
    enc.encode(Frame { id: 2, value: Spec::default() }, &mut buf).unwrap();
    assert_eq!(&buf[..23], b"ort.olix0r.net/load\r\n\r\n");
    assert_eq!(buf.len(), 23 + 20 + 20);

    let mut dec = Codec::new(FramedDecode::new(SpecCodec));
    let f1 = take(&mut dec, &mut buf);
    let f2 = take(&mut dec, &mut buf);
    assert_eq!((f1.id, f2.id), (1, 2));
    assert!(buf.is_empty());
}

#[test]
fn preface_waits_for_all_its_bytes() {
    let mut dec = Codec::new(FramedDecode::new(SpecCodec));
    assert_eq!(dec.decode(b"ort.olix0r"), Ok((0, None)));
}
