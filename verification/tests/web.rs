use verz_link::echo::{
    answered, asks_at, busiest_path, checksum, cut_at, echo, echo_to, EchoRun,
};
use verz_link::path::Path;
use verz_link::tunnel::validate_ipv4;
use verz_link::tunnel_client::digest_text;
use verz_link::web::{
    body_length, check_file, decimal_text, expects_continue, head, header_state, pacing, page,
    stream_digest, HeaderState, Page, WebError,
};

#[test]
fn requests_are_recognised() {
    for (line, expected) in [
        ("GET /health HTTP/1.1\r\n", Page::Health),
        ("GET /download HTTP/1.1\r\n", Page::Download),
        ("GET /stream HTTP/1.1\r\n", Page::Stream),
        ("GET /bulk HTTP/1.1\r\n", Page::Bulk),
        ("GET /stream-sha256 HTTP/1.1\r\n", Page::StreamDigest),
        ("GET /bulk-sha256 HTTP/1.1\r\n", Page::BulkDigest),
        ("GET /sha256 HTTP/1.1\r\n", Page::FileDigest),
        ("POST /upload HTTP/1.1\r\n", Page::Upload),
        ("GET /healthy HTTP/1.1\r\n", Page::Unknown),
    ] {
        assert_eq!(page(line), expected, "{line}");
    }
    assert_eq!(pacing(Page::Bulk, 3, 20), (64, 0));
    assert_eq!(pacing(Page::Stream, 3, 20), (3, 20));
}

#[test]
fn header_is_read_byte_by_byte_up_to_a_limit() {
    assert_eq!(header_state(b""), HeaderState::ReadByte);
    assert_eq!(header_state(b"GET / HTTP/1.1\r\n\r"), HeaderState::ReadByte);
    assert_eq!(header_state(b"GET / HTTP/1.1\r\n\r\n"), HeaderState::Complete);
    assert_eq!(header_state(&vec![b'x'; 8192]), HeaderState::TooLarge);
}

#[test]
fn length_of_a_body_is_read_and_bounded() {
    assert_eq!(body_length("POST /upload HTTP/1.1\r\ncontent-LENGTH: 12 \r\n\r\n"), Ok(12));
    assert_eq!(body_length("POST /upload HTTP/1.1\r\n\r\n"), Ok(0));
    assert_eq!(
        body_length("POST /\r\nContent-Length: 16777217\r\n\r\n"),
        Err(WebError::UploadTooLarge)
    );
    assert_eq!(
        body_length("POST /\r\nContent-Length: many\r\n\r\n"),
        Err(WebError::ContentLength)
    );
    assert!(expects_continue("POST /\r\nExpect: 100-continue\r\n\r\n"));
    assert!(!expects_continue("POST /\r\n\r\n"));
}

#[test]
fn answers_are_written() {
    assert_eq!(decimal_text(0), "0");
    assert_eq!(decimal_text(18_446_744_073_709_551_615), "18446744073709551615");
    assert_eq!(head(7, false), "HTTP/1.1 200 OK\r\nContent-Length: 7\r\nConnection: close\r\n\r\n");
    assert!(head(7, true).contains("Content-Type: application/octet-stream\r\n"));
    assert_eq!(stream_digest(&b"ab".to_vec(), 3), format!("{}\n", digest_text(b"ababab")));
    assert!(check_file(&[0; 4]).is_ok());
    assert_eq!(check_file(&vec![0; 16_777_217]).err(), Some(WebError::FileTooLarge));
}

#[test]
fn echo_is_a_valid_packet_and_its_answer_is_known() {
    let source = [10, 78, 0, 2];
    let asked = echo(source, 513);
    assert!(validate_ipv4(&asked, Some(source), Some([10, 78, 0, 1])).is_ok());
    assert_eq!(checksum(&asked[..20]), 0);
    assert_eq!(checksum(&asked[20..]), 0);
    assert_eq!(checksum(&[0x12, 0x34, 0x56]), !(0x1234u16 + 0x5600));
    // A request is no answer; the system turns the type.
    assert_eq!(answered(&asked, 0x5a), None);
    let mut reply = echo_to([10, 78, 0, 1], source, 0x5a, 513);
    reply[20] = 0;
    assert_eq!(answered(&reply, 0x5a), Some(513));
    assert_eq!(answered(&reply, 0x5b), None);
}

#[test]
fn run_passes_only_with_every_answer_in_time() {
    let mut run = EchoRun::new();
    run.all_ready = true;
    for n in 0..5u16 {
        run.note(n, 100 + 20 * n as u64);
        run.note(n, 101 + 20 * n as u64);
    }
    assert!(!run.passed(6));
    assert!(run.passed(5));
    run.note(5, 400);
    assert!(!run.passed(6), "a gap of 219 ms is too long");
}

#[test]
fn run_cuts_the_busiest_path_for_a_time() {
    let mut paths: Vec<Path> = (0..3).map(|i| Path::new(i, false)).collect();
    assert_eq!(busiest_path(&paths), Some(2));
    paths[1].sent_bytes = 9;
    assert_eq!(busiest_path(&paths), Some(1));
    paths[2].sent_bytes = 9;
    assert_eq!(busiest_path(&paths), Some(2));
    assert_eq!(busiest_path(&[]), None);
    let moments = [0, 249, 250, 1999, 2000, 2999, 3000, 5499, 5500];
    let asked: Vec<u64> = moments.into_iter().filter(|m| asks_at(*m)).collect();
    assert_eq!(asked, vec![250, 1999, 2000, 2999, 3000, 5499]);
    let cut: Vec<u64> = moments.into_iter().filter(|m| cut_at(*m)).collect();
    assert_eq!(cut, vec![2000, 2999]);
}
