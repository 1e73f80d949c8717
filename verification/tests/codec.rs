use discover::codec::new_default_codec;
use discover::codec::Decoder;
use discover::codec::DefaultCodecError;
use discover::codec::DefaultDecoder;
use discover::codec::DefaultEncoder;
use discover::codec::Encoder;
use discover::Instance;

const CANONICAL: &str = "zone=sh1&env=test&appid=provider&hostname=myhostname&addrs=http%3A%2F%2F172.1.1.1%3A8000&addrs=grpc%3A%2F%2F172.1.1.1%3A9999&version=111&metadata=%7B%22weight%22%3A%2210%22%7D";

fn sample_instance() -> Instance {
    Instance {
        zone: "sh1".to_owned(),
        env: "test".to_owned(),
        appid: "provider".to_owned(),
        hostname: "myhostname".to_owned(),
        addrs: vec![
            "http://172.1.1.1:8000".to_owned(),
            "grpc://172.1.1.1:9999".to_owned(),
        ],
        version: "111".to_owned(),
        metadata: [("weight".to_owned(), "10".to_owned())].iter().cloned().collect(),
    }
}

#[test]
fn test_default_encoder_encode() {
    let cases = [(sample_instance(), CANONICAL)];
    let codec = new_default_codec();
    let encoder = codec.get_encoder_ref();
    for case in cases.iter() {
        let res = encoder.encode(&case.0);
        assert!(res.is_ok());
        assert_eq!(case.1, String::from_utf8(res.unwrap()).unwrap());
    }
}

#[test]
fn test_encode_deterministic() {
    let ins = sample_instance();
    let a = DefaultEncoder.encode(&ins).unwrap();
    let b = DefaultEncoder.encode(&ins).unwrap();
    assert_eq!(a, b);
}

#[test]
fn test_round_trip() {
    let ins = sample_instance();
    let enc = DefaultEncoder.encode(&ins).unwrap();
    let back = DefaultDecoder.decode(&enc).unwrap();
    assert_eq!(back, ins);
}

#[test]
fn test_round_trip_unicode() {
    let ins = Instance {
        zone: "z\u{f6}ne".to_owned(),
        env: "pr\u{e9}".to_owned(),
        appid: "/app/\u{3c0}".to_owned(),
        hostname: "h st&name=".to_owned(),
        addrs: vec!["http://h\u{f8}st:1?q=a&b".to_owned()],
        version: "1%2".to_owned(),
        metadata: [("k\u{e9}y".to_owned(), "v\u{e4}l ue".to_owned())]
            .iter()
            .cloned()
            .collect(),
    };
    let enc = DefaultEncoder.encode(&ins).unwrap();
    let back = DefaultDecoder.decode(&enc).unwrap();
    assert_eq!(back, ins);
}

#[test]
fn test_unknown_key_ignored() {
    let ins = sample_instance();
    let enc = DefaultEncoder.encode(&ins).unwrap();
    let mut with_junk = enc.clone();
    with_junk.extend_from_slice(b"&junk=1");
    let a = DefaultDecoder.decode(&enc).unwrap();
    let b = DefaultDecoder.decode(&with_junk).unwrap();
    assert_eq!(a, b);
}

#[test]
fn test_decode_canonical() {
    let got = DefaultDecoder.decode(CANONICAL.as_bytes()).unwrap();
    assert_eq!(got, sample_instance());
}

#[test]
fn test_field_order() {
    let enc = DefaultEncoder.encode(&sample_instance()).unwrap();
    let s = String::from_utf8(enc).unwrap();
    assert!(s.starts_with("zone="));
    let keys = ["&env=", "&appid=", "&hostname=", "&addrs=", "&version=", "&metadata="];
    let mut last = 0;
    for key in keys.iter() {
        let at = s[last..].find(key).expect("key in order") + last;
        assert!(at >= last);
        last = at + key.len();
    }
}

#[test]
fn test_decode_malformed_escape() {
    let res = DefaultDecoder.decode(b"garbage%not-a-pair");
    assert_eq!(res, Err(DefaultCodecError::UTF8));
}

#[test]
fn test_decode_bad_utf8() {
    let res = DefaultDecoder.decode(&[0x7a, 0xff, 0x20]);
    assert_eq!(res, Err(DefaultCodecError::UTF8));
}

#[test]
fn test_decode_bad_escaped_utf8() {
    let res = DefaultDecoder.decode(b"hostname=%FF");
    assert_eq!(res, Err(DefaultCodecError::UTF8));
}

#[test]
fn test_decode_bad_metadata_json() {
    let res = DefaultDecoder.decode(b"metadata=notjson");
    assert_eq!(res, Err(DefaultCodecError::MetadataSerde));
}

#[test]
fn test_decode_first_failing_pair_decides_the_error() {
    let res = DefaultDecoder.decode(b"metadata=notjson&hostname=%FF");
    assert_eq!(res, Err(DefaultCodecError::MetadataSerde));
    let res = DefaultDecoder.decode(b"hostname=%FF&metadata=notjson");
    assert_eq!(res, Err(DefaultCodecError::UTF8));
}

#[test]
fn test_decode_empty_input() {
    let got = DefaultDecoder.decode(b"").unwrap();
    assert_eq!(got, Instance::default());
}

#[test]
fn test_decode_missing_eq_is_empty_value() {
    let got = DefaultDecoder.decode(b"zone").unwrap();
    assert_eq!(got.zone, "");
}

#[test]
fn test_decode_addrs_accumulate_in_order() {
    let got = DefaultDecoder.decode(b"addrs=a&addrs=b&addrs=a").unwrap();
    assert_eq!(got.addrs, vec!["a".to_owned(), "b".to_owned(), "a".to_owned()]);
}

#[test]
fn test_decode_last_occurrence_wins() {
    let got = DefaultDecoder.decode(b"zone=a&zone=b").unwrap();
    assert_eq!(got.zone, "b");
}

#[test]
fn test_decode_raw_unicode_value() {
    let got = DefaultDecoder.decode("zone=caf\u{e9}".as_bytes()).unwrap();
    assert_eq!(got.zone, "caf\u{e9}");
}

#[test]
fn test_round_trip_empty_collections() {
    let ins = Instance {
        zone: "z".to_owned(),
        env: "e".to_owned(),
        appid: "/a".to_owned(),
        hostname: "h".to_owned(),
        addrs: Vec::new(),
        version: "v".to_owned(),
        metadata: Vec::new(),
    };
    let enc = DefaultEncoder.encode(&ins).unwrap();
    assert_eq!(
        String::from_utf8(enc.clone()).unwrap(),
        "zone=z&env=e&appid=%2Fa&hostname=h&version=v&metadata=%7B%7D"
    );
    let back = DefaultDecoder.decode(&enc).unwrap();
    assert_eq!(back, ins);
}

#[test]
fn test_decode_metadata_duplicate_keys_last_wins() {
    let got = DefaultDecoder
        .decode(b"metadata=%7B%22a%22%3A%221%22%2C%22a%22%3A%222%22%7D")
        .unwrap();
    assert_eq!(got.metadata, vec![("a".to_owned(), "2".to_owned())]);
}

#[test]
fn test_codec_accessors() {
    let codec = new_default_codec();
    let enc = codec.get_encoder_ref().encode(&sample_instance()).unwrap();
    let back = codec.get_decoder_ref().decode(&enc).unwrap();
    assert_eq!(back, sample_instance());
}
