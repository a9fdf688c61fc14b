use cache_server::codec::{take_args, TakeResult};
use cache_server::dispatch::handle_command;
use cache_server::reply::{dec_bytes, make_array, make_bulk, make_null_bulk};
use cache_server::session::{event_data, Conn};
use cache_server::store::Store;

fn parse(bytes: &[u8]) -> TakeResult {
    take_args(&bytes.to_vec(), 0)
}

fn complete(bytes: &[u8]) -> (Vec<Vec<u8>>, usize) {
    match parse(bytes) {
        TakeResult::Complete { args, end } => (args, end),
        TakeResult::Incomplete => panic!("unexpectedly incomplete"),
        TakeResult::Fail { msg } => panic!("unexpected error: {:?}", msg),
    }
}

fn fail_msg(bytes: &[u8]) -> Vec<u8> {
    match parse(bytes) {
        TakeResult::Fail { msg } => msg,
        _ => panic!("expected a protocol error"),
    }
}

fn run(store: &mut Store, bytes: &[u8]) -> (Vec<u8>, bool) {
    let mut input = bytes.to_vec();
    event_data(&mut input, store)
}

#[test]
fn inline_two_tokens() {
    let (args, end) = complete(b"GET k\r\n");
    assert_eq!(args, vec![b"GET".to_vec(), b"k".to_vec()]);
    assert_eq!(end, 7);
}

#[test]
fn inline_skips_extra_spaces() {
    let (args, _) = complete(b"  SET   a  1  \r\n");
    assert_eq!(args, vec![b"SET".to_vec(), b"a".to_vec(), b"1".to_vec()]);
}

#[test]
fn inline_quoted_argument() {
    let (args, _) = complete(b"SET \"a b\" v\n");
    assert_eq!(args, vec![b"SET".to_vec(), b"a b".to_vec(), b"v".to_vec()]);
}

#[test]
fn inline_letter_and_hex_escapes() {
    let (args, _) = complete(b"\"\\n\\r\\t\\b\\a\\x41\\q\" \n");
    assert_eq!(args, vec![vec![10u8, 13, 9, 8, 7, 0x41, b'q']]);
}

#[test]
fn inline_bad_hex_escape_is_literal_x() {
    let (args, _) = complete(b"\"\\xZZ\" \n");
    assert_eq!(args, vec![b"xZZ".to_vec()]);
}

#[test]
fn inline_unbalanced_quote_is_error() {
    let msg = fail_msg(b"\"abc\ndef\n");
    assert_eq!(msg, b"ERR Protocol error: unbalanced quotes in request".to_vec());
}

#[test]
fn inline_unterminated_quote_waits() {
    assert!(matches!(parse(b"\"abc"), TakeResult::Incomplete));
    assert!(matches!(parse(b"\"abc\\"), TakeResult::Incomplete));
}

#[test]
fn multibulk_single_command() {
    let (args, end) = complete(b"*1\r\n$4\r\nPING\r\n");
    assert_eq!(args, vec![b"PING".to_vec()]);
    assert_eq!(end, 14);
}

#[test]
fn multibulk_three_arguments() {
    let (args, _) = complete(b"*3\r\n$3\r\nSET\r\n$3\r\nfoo\r\n$3\r\nbar\r\n");
    assert_eq!(args, vec![b"SET".to_vec(), b"foo".to_vec(), b"bar".to_vec()]);
}

#[test]
fn multibulk_zero_is_complete_and_empty() {
    let (args, end) = complete(b"*0\r\n");
    assert!(args.is_empty());
    assert_eq!(end, 4);
}

#[test]
fn multibulk_partial_payload_waits() {
    assert!(matches!(parse(b"*1\r\n$5\r\nhel"), TakeResult::Incomplete));
    assert!(matches!(parse(b"*2\r\n$3\r\nfoo\r\n"), TakeResult::Incomplete));
    assert!(matches!(parse(b"*2\r\n$3\r\nfo"), TakeResult::Incomplete));
}

#[test]
fn multibulk_bulk_terminator_bytes_are_skipped_unchecked() {
    // The two bytes after a bulk payload must be present but are not
    // inspected.
    let (args, end) = complete(b"*1\r\n$3\r\nfooXY");
    assert_eq!(args, vec![b"foo".to_vec()]);
    assert_eq!(end, 13);
}

#[test]
fn multibulk_bad_count_is_error() {
    let msg = fail_msg(b"*x\r\n");
    assert_eq!(msg, b"ERR Protocol error: invalid multibulk length".to_vec());
}

#[test]
fn multibulk_bad_bulk_length_is_error() {
    let msg = fail_msg(b"*1\r\n$y\r\n");
    assert_eq!(msg, b"ERR Protocol error: invalid bulk length".to_vec());
}

#[test]
fn multibulk_missing_dollar_is_error() {
    let msg = fail_msg(b"*1\r\n#3\r\nfoo\r\n");
    assert_eq!(msg, b"ERR Protocol error: expected '$', got '#'".to_vec());
}

#[test]
fn progress_and_determinism() {
    // A complete frame moves the cursor forward; the same bytes and cursor
    // give the same outcome again.
    let buf = b"PING\r\nGET k\r\n".to_vec();
    let first = take_args(&buf, 0);
    match (first, take_args(&buf, 0)) {
        (TakeResult::Complete { args: a1, end: e1 }, TakeResult::Complete { args: a2, end: e2 }) => {
            assert!(e1 > 0);
            assert_eq!(a1, a2);
            assert_eq!(e1, e2);
            let second = take_args(&buf, e1);
            match second {
                TakeResult::Complete { args, end } => {
                    assert_eq!(args, vec![b"GET".to_vec(), b"k".to_vec()]);
                    assert!(end > e1);
                },
                _ => panic!("second frame should be complete"),
            }
        },
        _ => panic!("first frame should be complete"),
    }
}

#[test]
fn prefix_safety_ignores_tail_bytes() {
    let (short_args, short_end) = complete(b"PING\r\n");
    let (long_args, long_end) = complete(b"PING\r\nSET a 1\r\n");
    assert_eq!(short_args, long_args);
    assert_eq!(short_end, long_end);
}

#[test]
fn incremental_chunks_match_whole_stream() {
    let stream = b"SET alpha 1\r\n*2\r\n$3\r\nGET\r\n$5\r\nalpha\r\nPING\r\n";
    let mut whole_store = Store::new();
    let mut whole = Conn::new();
    whole.on_data(&stream.to_vec(), &mut whole_store);
    for cut in 0..stream.len() {
        let mut store = Store::new();
        let mut conn = Conn::new();
        conn.on_data(&stream[..cut].to_vec(), &mut store);
        conn.on_data(&stream[cut..].to_vec(), &mut store);
        assert_eq!(conn.output, whole.output, "split at {}", cut);
        assert_eq!(conn.close, whole.close);
    }
}

#[test]
fn quote_escapes_round_trip() {
    for x in 0u16..=255 {
        let x = x as u8;
        let mut lit = vec![b'"'];
        match x {
            10 => lit.extend_from_slice(b"\\n"),
            13 => lit.extend_from_slice(b"\\r"),
            9 => lit.extend_from_slice(b"\\t"),
            8 => lit.extend_from_slice(b"\\b"),
            7 => lit.extend_from_slice(b"\\a"),
            _ => {
                let hex = b"0123456789ABCDEF";
                lit.push(b'\\');
                lit.push(b'x');
                lit.push(hex[(x >> 4) as usize]);
                lit.push(hex[(x & 15) as usize]);
            },
        }
        lit.extend_from_slice(b"\" \n");
        let (args, end) = complete(&lit);
        assert_eq!(args, vec![vec![x]], "byte {}", x);
        assert_eq!(end, lit.len());
    }
}

#[test]
fn get_after_set_returns_value() {
    let mut store = Store::new();
    let (out, _) = run(&mut store, b"SET k v\r\nGET k\r\n");
    assert_eq!(out, b"+OK\r\n$1\r\nv\r\n".to_vec());
}

#[test]
fn get_without_set_returns_null_bulk() {
    let mut store = Store::new();
    let (out, _) = run(&mut store, b"GET nothing\r\n");
    assert_eq!(out, b"$-1\r\n".to_vec());
    let (out2, _) = run(&mut store, b"SET k v\r\nDEL k\r\nGET k\r\n");
    assert_eq!(out2, b"+OK\r\n:1\r\n$-1\r\n".to_vec());
}

#[test]
fn del_reports_presence() {
    let mut store = Store::new();
    let (out, _) = run(&mut store, b"DEL k\r\nSET k v\r\nDEL k\r\nDEL k\r\n");
    assert_eq!(out, b":0\r\n+OK\r\n:1\r\n:0\r\n".to_vec());
}

#[test]
fn flushdb_empties_the_store() {
    let mut store = Store::new();
    let (out, _) = run(&mut store, b"SET a 1\r\nSET b 2\r\nFLUSHDB\r\nGET a\r\nDEL b\r\n");
    assert_eq!(out, b"+OK\r\n+OK\r\n+OK\r\n$-1\r\n:0\r\n".to_vec());
}

fn parse_keys_reply(out: &[u8], expected: usize) -> Vec<Vec<u8>> {
    let header = format!("*{}\r\n", expected).into_bytes();
    assert_eq!(&out[..header.len()], &header[..]);
    let mut elems = Vec::new();
    let mut rest = &out[header.len()..];
    for _ in 0..expected {
        assert_eq!(rest[0], b'$');
        let nl = rest.iter().position(|&b| b == b'\n').unwrap();
        let len: usize = std::str::from_utf8(&rest[1..nl - 1]).unwrap().parse().unwrap();
        elems.push(rest[nl + 1..nl + 1 + len].to_vec());
        rest = &rest[nl + 1 + len + 2..];
    }
    assert!(rest.is_empty());
    elems
}

#[test]
fn keys_star_lists_every_key() {
    let mut store = Store::new();
    let (_, _) = run(&mut store, b"SET a 1\r\nSET b 2\r\n");
    let (out, _) = run(&mut store, b"KEYS *\r\n");
    let mut elems = parse_keys_reply(&out, 2);
    elems.sort();
    assert_eq!(elems, vec![b"a".to_vec(), b"b".to_vec()]);
}

#[test]
fn keys_pattern_filters() {
    let mut store = Store::new();
    let (_, _) = run(&mut store, b"SET foo 1\r\nSET bar 2\r\nSET fig 3\r\n");
    let (out, _) = run(&mut store, b"KEYS f*\r\n");
    let mut elems = parse_keys_reply(&out, 2);
    elems.sort();
    assert_eq!(elems, vec![b"fig".to_vec(), b"foo".to_vec()]);
    let (out2, _) = run(&mut store, b"KEYS ?a?\r\n");
    let elems2 = parse_keys_reply(&out2, 1);
    assert_eq!(elems2, vec![b"bar".to_vec()]);
}

#[test]
fn keys_invalid_pattern_returns_null_bulk() {
    let mut store = Store::new();
    let (_, _) = run(&mut store, b"SET a 1\r\n");
    let (out, _) = run(&mut store, b"KEYS a***\r\n");
    assert_eq!(out, b"$-1\r\n".to_vec());
}

#[test]
fn command_match_is_case_insensitive() {
    let mut store = Store::new();
    let (out, _) = run(&mut store, b"set k v\r\nSeT k w\r\nGeT k\r\ndel k\r\n");
    assert_eq!(out, b"+OK\r\n+OK\r\n$1\r\nw\r\n:1\r\n".to_vec());
}

#[test]
fn ping_inline() {
    let mut store = Store::new();
    let (out, close) = run(&mut store, b"PING\r\n");
    assert_eq!(out, b"+PONG\r\n".to_vec());
    assert!(!close);
}

#[test]
fn ping_multibulk() {
    let mut store = Store::new();
    let (out, _) = run(&mut store, b"*1\r\n$4\r\nPING\r\n");
    assert_eq!(out, b"+PONG\r\n".to_vec());
}

#[test]
fn ping_with_message_echoes_bulk() {
    let mut store = Store::new();
    let (out, _) = run(&mut store, b"PING hello\r\n");
    assert_eq!(out, b"$5\r\nhello\r\n".to_vec());
}

#[test]
fn multibulk_set_then_inline_get() {
    let mut store = Store::new();
    let (out, _) = run(&mut store, b"*3\r\n$3\r\nSET\r\n$3\r\nfoo\r\n$3\r\nbar\r\n");
    assert_eq!(out, b"+OK\r\n".to_vec());
    let (out2, _) = run(&mut store, b"GET foo\r\n");
    assert_eq!(out2, b"$3\r\nbar\r\n".to_vec());
}

#[test]
fn unknown_command_keeps_connection_open() {
    let mut store = Store::new();
    let (out, close) = run(&mut store, b"*1\r\n$5\r\nHELLO\r\n");
    assert_eq!(out, b"-ERR unknown command 'HELLO'\r\n".to_vec());
    assert!(!close);
}

#[test]
fn unbalanced_quote_closes_connection() {
    let mut store = Store::new();
    let (out, close) = run(&mut store, &[b'"', 0xff, b'\n']);
    assert!(out.starts_with(b"-ERR Protocol error:"));
    assert!(close);
}

#[test]
fn quit_replies_ok_and_closes() {
    let mut store = Store::new();
    let (out, close) = run(&mut store, b"QUIT\r\n");
    assert_eq!(out, b"+OK\r\n".to_vec());
    assert!(close);
}

#[test]
fn commands_after_quit_are_not_executed() {
    let mut store = Store::new();
    let (out, close) = run(&mut store, b"QUIT\r\nSET a 1\r\n");
    assert_eq!(out, b"+OK\r\n".to_vec());
    assert!(close);
    let (out2, _) = run(&mut store, b"GET a\r\n");
    assert_eq!(out2, b"$-1\r\n".to_vec());
}

#[test]
fn arity_errors_name_the_command() {
    let mut store = Store::new();
    let (out, _) = run(&mut store, b"GET\r\n");
    assert_eq!(out, b"-ERR wrong number of arguments for 'GET' command\r\n".to_vec());
    let (out2, _) = run(&mut store, b"SET k\r\n");
    assert_eq!(out2, b"-ERR wrong number of arguments for 'SET' command\r\n".to_vec());
}

#[test]
fn handle_command_reports_writes() {
    let mut store = Store::new();
    let set = vec![b"SET".to_vec(), b"k".to_vec(), b"v".to_vec()];
    let (out, wrote, close) = handle_command(&set, &mut store);
    assert_eq!(out, b"+OK\r\n".to_vec());
    assert!(wrote);
    assert!(!close);
    let del_miss = vec![b"DEL".to_vec(), b"other".to_vec()];
    let (_, wrote2, _) = handle_command(&del_miss, &mut store);
    assert!(!wrote2);
}

#[test]
fn encoders_produce_exact_bytes() {
    assert_eq!(make_bulk(&b"bar".to_vec()), b"$3\r\nbar\r\n".to_vec());
    assert_eq!(make_bulk(&Vec::new()), b"$0\r\n\r\n".to_vec());
    assert_eq!(make_array(2), b"*2\r\n".to_vec());
    assert_eq!(make_null_bulk(), b"$-1\r\n".to_vec());
    assert_eq!(dec_bytes(0), b"0".to_vec());
    assert_eq!(dec_bytes(12345), b"12345".to_vec());
}

#[test]
fn partial_frame_is_kept_in_the_buffer() {
    let mut store = Store::new();
    let mut input = b"PING\r\nGET k".to_vec();
    let (out, _) = event_data(&mut input, &mut store);
    assert_eq!(out, b"+PONG\r\n".to_vec());
    assert_eq!(input, b"GET k".to_vec());
    input.extend_from_slice(b"\r\n");
    let (out2, _) = event_data(&mut input, &mut store);
    assert_eq!(out2, b"$-1\r\n".to_vec());
    assert!(input.is_empty());
}

#[test]
fn connection_drains_output_before_dropping() {
    let mut store = Store::new();
    let mut conn = Conn::new();
    conn.on_data(&b"QUIT\r\n".to_vec(), &mut store);
    assert_eq!(conn.output, b"+OK\r\n".to_vec());
    assert!(conn.close);
    assert!(!conn.should_drop());
    conn.wrote(3);
    assert_eq!(conn.output, b"\r\n".to_vec());
    conn.wrote(2);
    assert!(conn.should_drop());
}
