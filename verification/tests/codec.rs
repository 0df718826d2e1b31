use redis_top::decoder::Decoder;
use redis_top::encoder::{_encode_one, encode_one};
use redis_top::value::RedisValue;

#[test]
fn test_decoder() {
    let decode_tests = vec![
        RedisValue::Integer(20190717),
        RedisValue::String("I'm a string!".to_string()),
        RedisValue::Error("Oh fudge.".to_string()),
        RedisValue::Null,
        RedisValue::BulkString(vec![0, 13, 10, 4, 8, 15, 16, 23, 42, 0]),
        RedisValue::Array(vec![]),
        RedisValue::Array(vec![
            RedisValue::Integer(20190717),
            RedisValue::String("I'm a string!".to_string()),
            RedisValue::Error("Oh fudge.".to_string()),
            RedisValue::Null,
            RedisValue::BulkString(vec![0, 13, 10, 4, 8, 15, 16, 23, 42, 0]),
            RedisValue::Array(vec![
                RedisValue::Error("Oh fudge.".to_string()),
                RedisValue::Error("Oh fudge.".to_string()),
            ]),
        ]),
    ];

    for test in decode_tests {
        let vec = encode_one(test.clone());
        let mut decoder = Decoder::new(vec);
        assert_eq!(decoder.decode_one().unwrap(), test)
    }
}

#[test]
fn test_raw_encode_oner() {
    assert_eq!(
        _encode_one(1, "abc".to_string()),
        vec![1, 97, 98, 99, 13, 10]
    );
    assert_eq!(_encode_one(2, "".to_string()), vec![2, 13, 10]);
}

#[test]
fn test_string_encode_one() {
    assert_eq!(
        encode_one(RedisValue::String("abc".to_string())),
        vec![43, 97, 98, 99, 13, 10]
    );
}

#[test]
fn test_integer_encode_one() {
    assert_eq!(
        encode_one(RedisValue::Integer(100)),
        vec![58, 49, 48, 48, 13, 10]
    );
}

#[test]
fn test_bulkstring_encode_one() {
    assert_eq!(
        encode_one(RedisValue::BulkString(vec![1, 0, 100, 10])),
        vec![36, 52, 13, 10, 1, 0, 100, 10, 13, 10]
    );
}

#[test]
fn test_error_encode_one() {
    assert_eq!(
        encode_one(RedisValue::Error("abc".to_string())),
        vec![45, 97, 98, 99, 13, 10]
    );
}

#[test]
fn test_encode_one_null() {
    assert_eq!(encode_one(RedisValue::Null), vec![36, 45, 49, 13, 10])
}

#[test]
fn test_encode_one_array() {
    assert_eq!(
        encode_one(RedisValue::Array(vec![
            RedisValue::Null,
            RedisValue::BulkString(vec![0, 1, 2])
        ])),
        vec![42, 50, 13, 10, 36, 45, 49, 13, 10, 36, 51, 13, 10, 0, 1, 2, 13, 10]
    )
}

#[test]
fn test_encode_one_nested_array() {
    assert_eq!(
        encode_one(RedisValue::Array(vec![
            RedisValue::BulkString(vec![0, 1, 2]),
            RedisValue::Array(vec![
                RedisValue::Null,
                RedisValue::String("abc".to_string()),
                RedisValue::Array(vec![]),
            ]),
            RedisValue::Integer(1000),
        ])),
        vec![
            42, 51, 13, 10, 36, 51, 13, 10, 0, 1, 2, 13, 10, 42, 51, 13, 10, 36, 45, 49, 13,
            10, 43, 97, 98, 99, 13, 10, 42, 48, 13, 10, 58, 49, 48, 48, 48, 13, 10
        ]
    )
}

#[test]
fn null_sentinel_decodes() {
    assert_eq!(encode_one(RedisValue::Null), b"$-1\r\n".to_vec());
    let mut decoder = Decoder::new(b"$-1\r\n".to_vec());
    assert_eq!(decoder.decode_one().unwrap(), RedisValue::Null);
}

#[test]
fn array_recursion_roundtrip() {
    let v = RedisValue::Array(vec![
        RedisValue::Integer(1),
        RedisValue::Array(vec![RedisValue::String("a".to_string())]),
    ]);
    let wire = encode_one(v.clone());
    let mut decoder = Decoder::new(wire);
    assert_eq!(decoder.decode_one().unwrap(), v);
    assert_eq!(encode_one(RedisValue::Array(vec![])), b"*0\r\n".to_vec());
}

#[test]
fn unrecognized_tag_fails() {
    let mut decoder = Decoder::new(vec![0x7a, 13, 10]);
    assert!(decoder.decode_one().is_err());
}

#[test]
fn bulk_length_enforced() {
    // declared length 5, but only 3 payload bytes before the terminator
    let mut decoder = Decoder::new(b"$5\r\nabc\r\n".to_vec());
    assert!(decoder.decode_one().is_err());
    // declared length 3, but the terminator is wrong
    let mut decoder = Decoder::new(b"$3\r\nabcXY".to_vec());
    assert!(decoder.decode_one().is_err());
    // exact length and terminator decode
    let mut decoder = Decoder::new(b"$3\r\nabc\r\n".to_vec());
    assert_eq!(
        decoder.decode_one().unwrap(),
        RedisValue::BulkString(b"abc".to_vec())
    );
}

#[test]
fn negative_lengths_fail() {
    let mut decoder = Decoder::new(b"$-2\r\n".to_vec());
    assert!(decoder.decode_one().is_err());
    let mut decoder = Decoder::new(b"*-1\r\n".to_vec());
    assert!(decoder.decode_one().is_err());
}

#[test]
fn integer_line_parsing() {
    let mut decoder = Decoder::new(b":123\r\n".to_vec());
    assert_eq!(decoder.decode_one().unwrap(), RedisValue::Integer(123));
    let mut decoder = Decoder::new(b":+5\r\n".to_vec());
    assert_eq!(decoder.decode_one().unwrap(), RedisValue::Integer(5));
    let mut decoder = Decoder::new(b":-9223372036854775808\r\n".to_vec());
    assert_eq!(decoder.decode_one().unwrap(), RedisValue::Integer(i64::MIN));
    let mut decoder = Decoder::new(b":9223372036854775808\r\n".to_vec());
    assert!(decoder.decode_one().is_err());
    let mut decoder = Decoder::new(b":12a\r\n".to_vec());
    assert!(decoder.decode_one().is_err());
    let mut decoder = Decoder::new(b":\r\n".to_vec());
    assert!(decoder.decode_one().is_err());
}

#[test]
fn simple_string_decodes_utf8_only() {
    let mut decoder = Decoder::new(b"+abc\r\n".to_vec());
    assert_eq!(
        decoder.decode_one().unwrap(),
        RedisValue::String("abc".to_string())
    );
    let mut decoder = Decoder::new(vec![43, 0xff, 13, 10]);
    assert!(decoder.decode_one().is_err());
}

#[test]
fn bare_cr_is_not_a_terminator() {
    // a CR not followed by LF stays inside the line
    let mut decoder = Decoder::new(b"+a\rb\r\n".to_vec());
    assert_eq!(
        decoder.decode_one().unwrap(),
        RedisValue::String("a\rb".to_string())
    );
}

#[test]
fn truncated_stream_fails() {
    let mut decoder = Decoder::new(b"+abc".to_vec());
    assert!(decoder.decode_one().is_err());
    let mut decoder = Decoder::new(Vec::new());
    assert!(decoder.decode_one().is_err());
}
