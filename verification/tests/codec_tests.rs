use moose_irc2::codec::{Codec, Error};
use moose_irc2::parse::Message;

fn drain_all(codec: &mut Codec, buf: &mut Vec<u8>) -> Vec<Message> {
    let mut out = Vec::new();
    loop {
        match codec.decode(buf).expect("no codec errors") {
            Some(frame) => out.push(frame),
            None => return out,
        }
    }
}

#[test]
fn test_decode() {
    let mut buf =
        b"\r\n\r\n:test!test@test.example.com PRIVMSG you :Hello, World!\r\nPING :xyz\r\nPONG\n\n"
            .to_vec();
    let mut decoder = Codec;
    let mut full_cnt = 0;
    loop {
        match decoder.decode(&mut buf).expect("no codec errors") {
            Some(_frame) => {
                full_cnt += 1;
            }
            None => break,
        }
    }
    assert!(
        full_cnt == 3,
        "there should only be three full irc lines to parse."
    );
}

#[test]
fn test_encode() {
    let mut buf: Vec<u8> = Vec::new();
    let mut encoder = Codec;
    let hello_world = Message::of_command(
        "PRIVMSG",
        vec![b"#test".to_vec(), b"Hello, world!".to_vec()],
    );
    encoder.encode(hello_world, &mut buf).unwrap();
    let quit = Message::of_command("QUIT", vec![b"Bye, world.".to_vec()]);
    encoder.encode(quit, &mut buf).unwrap();
    assert_eq!(buf, b"PRIVMSG #test :Hello, world!\r\nQUIT :Bye, world.\r\n".to_vec());
}

#[test]
fn test_round_trip_encode_decode_encode() {
    let m = Message::of_command(
        "PRIVMSG",
        vec![b"#test".to_vec(), b"hello there world".to_vec()],
    );
    let first = m.to_server_vec();
    let mut wire = first.clone();
    wire.extend_from_slice(b"\r\n");
    let mut codec = Codec;
    let decoded = codec
        .decode(&mut wire)
        .expect("no codec errors")
        .expect("one full frame");
    assert_eq!(decoded.to_server_vec(), first);
    assert!(wire.is_empty());
}

#[test]
fn test_fragmented_ping() {
    // a line arriving split across reads decodes once it is terminated
    let mut codec = Codec;
    let mut buf: Vec<u8> = Vec::new();
    buf.extend_from_slice(b"PING ");
    assert!(matches!(codec.decode(&mut buf), Ok(None)));
    buf.extend_from_slice(b":ab");
    assert!(matches!(codec.decode(&mut buf), Ok(None)));
    buf.extend_from_slice(b"c\r\n");
    let m = codec
        .decode(&mut buf)
        .expect("no codec errors")
        .expect("one full frame");
    assert_eq!(m.command.as_deref(), Some(b"PING".as_slice()));
    assert_eq!(m.params.len(), 1);
    assert_eq!(m.params[0].as_slice(), b"abc");
    assert!(matches!(codec.decode(&mut buf), Ok(None)));
}

#[test]
fn test_chunked_decode_matches_one_pass() {
    // decoding split at every byte boundary gives the same messages as
    // decoding in one pass
    let input: &[u8] = b":a!b@c PRIVMSG #x :hi there\r\nPING :tok\r\n\r\nQUIT\n";
    let mut one = Codec;
    let mut whole = input.to_vec();
    let expect: Vec<Vec<u8>> = drain_all(&mut one, &mut whole)
        .into_iter()
        .map(|m| m.to_server_vec())
        .collect();
    for cut in 0..=input.len() {
        let mut codec = Codec;
        let mut buf: Vec<u8> = Vec::new();
        let mut got: Vec<Vec<u8>> = Vec::new();
        buf.extend_from_slice(&input[..cut]);
        for m in drain_all(&mut codec, &mut buf) {
            got.push(m.to_server_vec());
        }
        buf.extend_from_slice(&input[cut..]);
        for m in drain_all(&mut codec, &mut buf) {
            got.push(m.to_server_vec());
        }
        assert_eq!(got, expect, "split at byte {cut} must not change the messages");
    }
}

#[test]
fn test_line_too_long_is_fatal() {
    let mut codec = Codec;
    let mut buf = vec![b'a'; 65537];
    assert!(matches!(codec.decode(&mut buf), Err(Error::LineTooLong)));
}

#[test]
fn test_long_terminated_line_is_fine() {
    let mut codec = Codec;
    let mut buf = vec![b'a'; 65000];
    buf.extend_from_slice(b"\r\n");
    let m = codec
        .decode(&mut buf)
        .expect("no codec errors")
        .expect("one full frame");
    assert_eq!(m.command.as_deref().map(|c| c.len()), Some(65000));
}

#[test]
fn test_blank_lines_are_collapsed() {
    let mut codec = Codec;
    let mut buf = b"\r\n\r\n\nPING :a\r\n\r\n\r\nPING :b\r\n".to_vec();
    let msgs = drain_all(&mut codec, &mut buf);
    assert_eq!(msgs.len(), 2);
    assert_eq!(msgs[0].params[0].as_slice(), b"a");
    assert_eq!(msgs[1].params[0].as_slice(), b"b");
}
