use dadophoros::proto::{frame_len, read_message, write_message, ProtoError, MAX_FRAME};

#[test]
fn read_short_frame_errors() {
    // 4-byte length prefix says 100 bytes follow; the stream ends there.
    let err = read_message(&100u32.to_be_bytes()).unwrap_err();
    assert!(matches!(err, ProtoError::Io(_)));
}

#[test]
fn frames_are_read_back_one_by_one() {
    let hello = postcard::to_allocvec(&(0u8, "1.2.3".to_string())).unwrap();
    let ack: Vec<u8> = vec![2];
    let long = vec![7u8; 300];
    let mut stream: Vec<u8> = Vec::new();
    for payload in [&hello, &ack, &long] {
        stream.extend(write_message(payload).unwrap());
    }
    assert_eq!(&stream[..4], &(hello.len() as u32).to_be_bytes());
    let mut at = 0;
    for payload in [&hello, &ack, &long] {
        let (got, used) = read_message(&stream[at..]).unwrap();
        assert_eq!(&got, payload);
        at += used;
    }
    assert_eq!(at, stream.len());
    let (back, version): (u8, String) = postcard::from_bytes(&hello).unwrap();
    assert_eq!((back, version.as_str()), (0, "1.2.3"));
}

#[test]
fn an_empty_payload_has_a_frame() {
    assert_eq!(write_message(&[]).unwrap(), vec![0, 0, 0, 0]);
    assert_eq!(read_message(&[0, 0, 0, 0, 9]).unwrap(), (vec![], 4));
}

#[test]
fn a_frame_that_is_cut_is_refused_everywhere() {
    let whole = write_message(&[1, 2, 3, 4, 5]).unwrap();
    for n in 0..whole.len() {
        assert!(matches!(read_message(&whole[..n]), Err(ProtoError::Io(_))));
    }
    assert!(read_message(&whole).is_ok());
}

#[test]
fn the_frame_limit_holds_both_ways() {
    let limit = vec![0u8; MAX_FRAME];
    assert_eq!(write_message(&limit).unwrap().len(), MAX_FRAME + 4);
    let over = vec![0u8; MAX_FRAME + 1];
    assert!(matches!(write_message(&over), Err(ProtoError::FrameTooLarge(n)) if n == MAX_FRAME + 1));
    assert!(matches!(read_message(&[0, 0x10, 0, 1]), Err(ProtoError::FrameTooLarge(0x10_0001))));
    assert!(matches!(frame_len(&[0, 0x10, 0, 0]), Ok(MAX_FRAME)));
    assert!(matches!(frame_len(&[0xff, 0xff, 0xff, 0xff]), Err(ProtoError::FrameTooLarge(0xffff_ffff))));
    assert!(matches!(frame_len(&[0, 0, 1, 2]), Ok(258)));
}

#[test]
fn errors_have_their_text() {
    assert_eq!(ProtoError::Io("early eof".to_string()).message(), "io: early eof");
    assert_eq!(ProtoError::Codec("bad".to_string()).message(), "codec: bad");
    assert_eq!(ProtoError::FrameTooLarge(1048577).message(), "frame too large: 1048577");
}
