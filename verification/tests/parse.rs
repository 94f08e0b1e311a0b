use minikv::command::{interpret, parse_command, parse_u64, Command};
use minikv::resp::{
    decode_bulk_string, decode_length, decode_request, encode_bulk_string, encode_reply, Reply,
};

#[test]
fn test_parse_length() {
    let input = b"123\r\n";
    let (len, pos) = decode_length(input).unwrap();
    assert_eq!(pos, 5);
    assert_eq!(len, 123);
}

#[test]
fn main_test_parse_bulk_string() {
    let input = b"$6\r\nfoobar\r\n";
    let (result, pos) = decode_bulk_string(input).unwrap();
    assert_eq!(pos, 12);
    assert_eq!(result, b"foobar".to_vec());
}

#[test]
fn test_parse_lenght() {
    let input = b"123\r\n";
    let (len, pos) = decode_length(input).unwrap();
    assert_eq!(pos, 5);
    assert_eq!(len, 123);
}

#[test]
fn parse_test_parse_bulk_string() {
    let input = b"$3\r\nfoo\r\n";
    let (result, pos) = decode_bulk_string(input).unwrap();
    assert_eq!(pos, 9);
    assert_eq!(result, b"foo".to_vec());
}

#[test]
fn test_parse_array() {
    let input = b"*2\r\n$3\r\nfoo\r\n$3\r\nbar\r\n";
    let result = decode_request(input).unwrap();
    assert_eq!(result.len(), 2);
    assert_eq!(result[0], b"foo".to_vec());
    assert_eq!(result[1], b"bar".to_vec());
}

#[test]
fn test_bulk_string_round_trip() {
    let encoded = encode_bulk_string(&b"foo".to_vec());
    assert_eq!(encoded, b"$3\r\nfoo\r\n".to_vec());
    let (decoded, consumed) = decode_bulk_string(&encoded).unwrap();
    assert_eq!(decoded, b"foo".to_vec());
    assert_eq!(consumed, 9);

    let empty = encode_bulk_string(&Vec::new());
    assert_eq!(empty, b"$0\r\n\r\n".to_vec());
    let (decoded, consumed) = decode_bulk_string(&empty).unwrap();
    assert_eq!(decoded, Vec::<u8>::new());
    assert_eq!(consumed, 6);
}

#[test]
fn test_decode_length_errors() {
    assert!(decode_length(b"12x\r\n").is_err());
    assert!(decode_length(b"123").is_err());
    assert!(decode_length(b"123\r").is_err());
    assert!(decode_length(b"123\rX").is_err());
    // zero digits before the terminator denote zero
    assert_eq!(decode_length(b"\r\n").unwrap(), (0, 2));
}

#[test]
fn test_decode_bulk_string_errors() {
    assert!(decode_bulk_string(b"3\r\nfoo\r\n").is_err());
    assert!(decode_bulk_string(b"$10\r\nfoo\r\n").is_err());
    assert!(decode_bulk_string(b"$3\r\nfooXY").is_err());
    assert!(decode_bulk_string(b"$3\r\nfo").is_err());
    assert!(decode_bulk_string(b"").is_err());
}

#[test]
fn test_decode_request_errors() {
    assert!(decode_request(b"$3\r\nfoo\r\n").is_err());
    assert!(decode_request(b"*2\r\n$3\r\nfoo\r\n").is_err());
    assert!(decode_request(b"*x\r\n").is_err());
    assert!(decode_request(b"").is_err());
    assert_eq!(decode_request(b"*0\r\n").unwrap().len(), 0);
}

#[test]
fn test_interpret_ping_any_case() {
    let tokens = vec![b"PiNg".to_vec(), b"extra".to_vec()];
    assert!(matches!(interpret(&tokens).unwrap(), Command::Ping));
}

#[test]
fn test_interpret_echo() {
    let tokens = vec![b"ECHO".to_vec(), b"hey".to_vec()];
    match interpret(&tokens).unwrap() {
        Command::Echo(m) => assert_eq!(m, b"hey".to_vec()),
        _ => panic!("expected an echo command"),
    }
    // wrong arity: unknown, not an error
    let tokens = vec![b"echo".to_vec()];
    assert!(matches!(interpret(&tokens).unwrap(), Command::Unknown));
    let tokens = vec![b"echo".to_vec(), b"a".to_vec(), b"b".to_vec()];
    assert!(matches!(interpret(&tokens).unwrap(), Command::Unknown));
}

#[test]
fn test_interpret_set() {
    let tokens = vec![b"set".to_vec(), b"k".to_vec(), b"v".to_vec()];
    match interpret(&tokens).unwrap() {
        Command::SetValue(k, v, e) => {
            assert_eq!(k, b"k".to_vec());
            assert_eq!(v, b"v".to_vec());
            assert_eq!(e, None);
        }
        _ => panic!("expected a set command"),
    }
    let tokens = vec![
        b"SET".to_vec(),
        b"k".to_vec(),
        b"v".to_vec(),
        b"PX".to_vec(),
        b"1500".to_vec(),
    ];
    match interpret(&tokens).unwrap() {
        Command::SetValue(_, _, e) => assert_eq!(e, Some(1500)),
        _ => panic!("expected a set command"),
    }
    // four tokens: unknown
    let tokens = vec![b"set".to_vec(), b"k".to_vec(), b"v".to_vec(), b"px".to_vec()];
    assert!(matches!(interpret(&tokens).unwrap(), Command::Unknown));
    // five tokens without the px marker: unknown
    let tokens = vec![
        b"set".to_vec(),
        b"k".to_vec(),
        b"v".to_vec(),
        b"ex".to_vec(),
        b"12".to_vec(),
    ];
    assert!(matches!(interpret(&tokens).unwrap(), Command::Unknown));
}

#[test]
fn test_interpret_bad_ttl_is_fatal() {
    let tokens = vec![
        b"set".to_vec(),
        b"k".to_vec(),
        b"v".to_vec(),
        b"px".to_vec(),
        b"abc".to_vec(),
    ];
    assert!(interpret(&tokens).is_err());
    let tokens = vec![
        b"set".to_vec(),
        b"k".to_vec(),
        b"v".to_vec(),
        b"px".to_vec(),
        b"".to_vec(),
    ];
    assert!(interpret(&tokens).is_err());
}

#[test]
fn test_interpret_get_keys_config() {
    let tokens = vec![b"get".to_vec(), b"k".to_vec()];
    assert!(matches!(interpret(&tokens).unwrap(), Command::Get(_)));
    let tokens = vec![b"get".to_vec()];
    assert!(matches!(interpret(&tokens).unwrap(), Command::Unknown));
    let tokens = vec![b"keys".to_vec(), b"*".to_vec()];
    match interpret(&tokens).unwrap() {
        Command::Keys(p) => assert_eq!(p, b"*".to_vec()),
        _ => panic!("expected a keys command"),
    }
    let tokens = vec![b"CONFIG".to_vec(), b"GET".to_vec(), b"dir".to_vec()];
    match interpret(&tokens).unwrap() {
        Command::ConfigGet(p) => assert_eq!(p, b"dir".to_vec()),
        _ => panic!("expected a config-get command"),
    }
    let tokens = vec![b"config".to_vec(), b"set".to_vec(), b"dir".to_vec()];
    assert!(matches!(interpret(&tokens).unwrap(), Command::Unknown));
    let tokens: Vec<Vec<u8>> = Vec::new();
    assert!(matches!(interpret(&tokens).unwrap(), Command::Unknown));
    let tokens = vec![b"flushall".to_vec()];
    assert!(matches!(interpret(&tokens).unwrap(), Command::Unknown));
}

#[test]
fn test_parse_command_frames() {
    match parse_command(b"*3\r\n$3\r\nSET\r\n$3\r\nkey\r\n$5\r\nvalue\r\n").unwrap() {
        Command::SetValue(k, v, e) => {
            assert_eq!(k, b"key".to_vec());
            assert_eq!(v, b"value".to_vec());
            assert_eq!(e, None);
        }
        _ => panic!("expected a set command"),
    }
    assert!(matches!(
        parse_command(b"*1\r\n$4\r\nPING\r\n").unwrap(),
        Command::Ping
    ));
    // a malformed frame fails; an unrecognized command does not
    assert!(parse_command(b"PING\r\n").is_err());
    assert!(matches!(
        parse_command(b"*1\r\n$4\r\nQUIT\r\n").unwrap(),
        Command::Unknown
    ));
}

#[test]
fn test_parse_u64_values() {
    assert_eq!(parse_u64(&b"0".to_vec()), Some(0));
    assert_eq!(parse_u64(&b"1500".to_vec()), Some(1500));
    assert_eq!(parse_u64(&b"18446744073709551615".to_vec()), Some(u64::MAX));
    assert_eq!(parse_u64(&b"18446744073709551616".to_vec()), None);
    assert_eq!(parse_u64(&b"".to_vec()), None);
    assert_eq!(parse_u64(&b"12a".to_vec()), None);
}

#[test]
fn test_encode_reply_forms() {
    assert_eq!(encode_reply(&Reply::Simple(b"PONG".to_vec())), b"+PONG\r\n".to_vec());
    assert_eq!(encode_reply(&Reply::NullBulk), b"$-1\r\n".to_vec());
    assert_eq!(
        encode_reply(&Reply::Error(b"unknown command".to_vec())),
        b"-ERR unknown command\r\n".to_vec()
    );
    let items = vec![b"dir".to_vec(), b"/tmp/data".to_vec()];
    assert_eq!(
        encode_reply(&Reply::Array(items)),
        b"*2\r\n$3\r\ndir\r\n$9\r\n/tmp/data\r\n".to_vec()
    );
    let empty: Vec<Vec<u8>> = Vec::new();
    assert_eq!(encode_reply(&Reply::Array(empty)), b"*0\r\n".to_vec());
}
