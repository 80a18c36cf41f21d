use rustxi::session::CODEBUF_SIZE;
use rustxi::session::REPLY_SIZE;
use rustxi::session::ReadStep;
use rustxi::session::RoundOutcome;
use rustxi::session::Verdict;
use rustxi::session::clip_message;
use rustxi::session::parse_reply;
use rustxi::session::read_disposition;
use rustxi::session::received_payload;
use rustxi::session::reply_message;

#[test]
fn reply_messages_are_the_wire_literals() {
    assert_eq!(reply_message(RoundOutcome::Returned), "success");
    assert_eq!(reply_message(RoundOutcome::Died), "failed");
    assert!(reply_message(RoundOutcome::Returned).len() < REPLY_SIZE);
    assert!(reply_message(RoundOutcome::Died).len() < REPLY_SIZE);
}

#[test]
fn replies_parse_back_to_their_round_verdict() {
    assert_eq!(
        parse_reply(reply_message(RoundOutcome::Returned)),
        Some(Verdict::Committed)
    );
    assert_eq!(parse_reply(reply_message(RoundOutcome::Died)), Some(Verdict::Failed));
}

#[test]
fn unknown_replies_are_a_protocol_error() {
    assert_eq!(parse_reply("done"), None);
    assert_eq!(parse_reply(""), None);
    assert_eq!(parse_reply("successs"), None);
    assert_eq!(parse_reply("Success"), None);
}

#[test]
fn read_results_are_dispatched_by_sign() {
    assert_eq!(read_disposition(-1), ReadStep::Fatal);
    assert_eq!(read_disposition(0), ReadStep::EofExit);
    assert_eq!(read_disposition(1), ReadStep::Run);
    assert_eq!(read_disposition(4096), ReadStep::Run);
}

#[test]
fn short_messages_go_out_whole() {
    let bytes: Vec<u8> = b"f: ".to_vec();
    assert_eq!(clip_message(&bytes), bytes);
}

#[test]
fn long_messages_are_clipped_to_the_buffer_size() {
    let bytes: Vec<u8> = vec![b'x'; CODEBUF_SIZE + 904];
    let clipped = clip_message(&bytes);
    assert_eq!(clipped.len(), CODEBUF_SIZE);
    assert_eq!(clipped, bytes[..CODEBUF_SIZE].to_vec());
}

#[test]
fn a_message_exactly_at_the_limit_is_not_clipped() {
    let bytes: Vec<u8> = vec![b'y'; CODEBUF_SIZE];
    assert_eq!(clip_message(&bytes), bytes);
}

#[test]
fn only_the_bytes_read_are_part_of_the_snippet() {
    let mut buf: Vec<u8> = vec![0u8; 16];
    buf[0] = b'f';
    buf[1] = b':';
    buf[2] = b' ';
    assert_eq!(received_payload(&buf, 3), b"f: ".to_vec());
    assert_eq!(received_payload(&buf, 0), Vec::<u8>::new());
}
