//! Tests for the frame codec and the per-connection framing state machine.

use std::rc::Rc;

use relay::codec::encode_frame;
use relay::codec::encode_len;
use relay::codec::decode_len;
use relay::connection::Connection;
use relay::connection::Token;

fn frame(payload: &[u8]) -> Vec<u8> {
    encode_frame(&payload.to_vec())
}

#[test]
fn header_bytes_are_big_endian() {
    assert_eq!(encode_len(5), vec![0, 0, 0, 0, 0, 0, 0, 5]);
    assert_eq!(
        encode_len(0x0102_0304_0506_0708),
        vec![1, 2, 3, 4, 5, 6, 7, 8]
    );
    assert_eq!(encode_len(0), vec![0; 8]);
    assert_eq!(decode_len(&vec![1, 2, 3, 4, 5, 6, 7, 8]), 0x0102_0304_0506_0708);
    assert_eq!(decode_len(&vec![0, 0, 0, 0, 0, 0, 0, 5]), 5);
}

#[test]
fn encode_frame_is_header_then_payload() {
    let f = frame(b"hello");
    assert_eq!(&f[..8], &[0, 0, 0, 0, 0, 0, 0, 5]);
    assert_eq!(&f[8..], b"hello");
}

#[test]
fn round_trip_whole_frame() {
    let mut c = Connection::new(Token(0));
    let frames = c.readable(&frame(b"hello"));
    assert_eq!(frames, vec![b"hello".to_vec()]);
}

#[test]
fn zero_length_frame_yields_nothing() {
    let mut c = Connection::new(Token(0));
    let frames = c.readable(&[0u8; 8]);
    assert!(frames.is_empty());
    // the decoder is back at its starting state: a following frame decodes
    let frames = c.readable(&frame(b"x"));
    assert_eq!(frames, vec![b"x".to_vec()]);
}

#[test]
fn partial_header_is_accumulated() {
    let f = frame(b"abc");
    let mut c = Connection::new(Token(0));
    assert!(c.readable(&f[..3]).is_empty());
    assert!(c.readable(&f[3..8]).is_empty());
    let frames = c.readable(&f[8..]);
    assert_eq!(frames, vec![b"abc".to_vec()]);
}

#[test]
fn partial_body_resumes_without_rereading_length() {
    let f = frame(b"hello world");
    let mut c = Connection::new(Token(0));
    // header plus two body bytes: no frame yet
    assert!(c.readable(&f[..10]).is_empty());
    // the rest completes the same frame
    let frames = c.readable(&f[10..]);
    assert_eq!(frames, vec![b"hello world".to_vec()]);
}

#[test]
fn byte_by_byte_delivery_decodes_one_frame() {
    let f = frame(b"drip");
    let mut c = Connection::new(Token(0));
    let mut got: Vec<Vec<u8>> = Vec::new();
    for b in f.iter() {
        got.extend(c.readable(&[*b]));
    }
    assert_eq!(got, vec![b"drip".to_vec()]);
}

#[test]
fn two_frames_in_one_read_keep_order() {
    let mut data = frame(b"first");
    data.extend_from_slice(&frame(b"second"));
    let mut c = Connection::new(Token(0));
    let frames = c.readable(&data);
    assert_eq!(frames, vec![b"first".to_vec(), b"second".to_vec()]);
}

#[test]
fn partial_write_resumes_at_exact_byte() {
    let mut c = Connection::new(Token(7));
    c.send_message(Rc::new(b"hello".to_vec()));
    // first the 8-byte header
    let chunk = c.next_chunk().unwrap();
    assert_eq!(chunk, vec![0, 0, 0, 0, 0, 0, 0, 5]);
    // the socket accepts only 3 bytes: the next chunk starts at byte 3
    c.writable(3);
    assert_eq!(c.next_chunk().unwrap(), vec![0, 0, 0, 0, 5]);
    c.writable(5);
    // header out; now the payload
    assert_eq!(c.next_chunk().unwrap(), b"hello".to_vec());
    c.writable(2);
    assert_eq!(c.next_chunk().unwrap(), b"llo".to_vec());
    c.writable(3);
    assert!(c.next_chunk().is_none());
    assert!(!c.interest().writable);
}

#[test]
fn queued_frame_not_started_before_head_drains() {
    let mut c = Connection::new(Token(0));
    c.send_message(Rc::new(b"aa".to_vec()));
    c.send_message(Rc::new(b"zzzz".to_vec()));
    assert_eq!(c.queue_len(), 2);
    // everything offered still belongs to the first frame
    assert_eq!(c.next_chunk().unwrap(), vec![0, 0, 0, 0, 0, 0, 0, 2]);
    c.writable(8);
    assert_eq!(c.next_chunk().unwrap(), b"aa".to_vec());
    c.writable(1);
    assert_eq!(c.next_chunk().unwrap(), b"a".to_vec());
    c.writable(1);
    // only now does the second frame begin, from its first header byte
    assert_eq!(c.queue_len(), 1);
    assert_eq!(c.next_chunk().unwrap(), vec![0, 0, 0, 0, 0, 0, 0, 4]);
}

#[test]
fn zero_length_queued_frame_completes_with_header() {
    let mut c = Connection::new(Token(0));
    c.send_message(Rc::new(Vec::new()));
    assert_eq!(c.next_chunk().unwrap(), vec![0; 8]);
    c.writable(8);
    assert!(c.next_chunk().is_none());
    assert_eq!(c.queue_len(), 0);
}

#[test]
fn fresh_connection_interest() {
    let c = Connection::new(Token(3));
    let i = c.interest();
    assert!(i.readable);
    assert!(i.hangup);
    assert!(!i.writable);
    assert_eq!(c.token(), Token(3));
    assert!(!c.is_draining());
}
