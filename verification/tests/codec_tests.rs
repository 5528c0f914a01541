use kvs::codec::{decode_record, encode_command};
use kvs::{Command, GetArgs, RmArgs, SetArgs};

fn set_cmd(key: &str, value: &str) -> Command {
    Command::SetCmd(SetArgs { key: key.to_owned(), value: value.to_owned() })
}

#[test]
fn encode_is_compact_json() {
    let bytes = encode_command(&set_cmd("k", "v"));
    assert_eq!(bytes, b"{\"Set\":{\"key\":\"k\",\"value\":\"v\"}}".to_vec());
    let rm = encode_command(&Command::Rm(RmArgs { key: "k".to_owned() }));
    assert_eq!(rm, b"{\"Rm\":{\"key\":\"k\"}}".to_vec());
    let get = encode_command(&Command::Get(GetArgs { key: "k".to_owned() }));
    assert_eq!(get, b"{\"Get\":{\"key\":\"k\"}}".to_vec());
}

#[test]
fn escapes_quotes_and_backslashes() {
    let bytes = encode_command(&set_cmd("a\"b", "c\\d"));
    assert_eq!(
        bytes,
        b"{\"Set\":{\"key\":\"a\\\"b\",\"value\":\"c\\\\d\"}}".to_vec()
    );
    let (cmd, used) = decode_record(&bytes, 0).unwrap();
    assert_eq!(used, bytes.len());
    assert_eq!(cmd, set_cmd("a\"b", "c\\d"));
}

#[test]
fn round_trips_unicode() {
    let cmd = set_cmd("clé", "värde 🙂");
    let bytes = encode_command(&cmd);
    let (decoded, used) = decode_record(&bytes, 0).unwrap();
    assert_eq!(used, bytes.len());
    assert_eq!(decoded, cmd);
}

#[test]
fn decoder_reports_exact_record_boundaries() {
    let mut stream = Vec::new();
    let cmds = vec![
        set_cmd("a", "1"),
        Command::Rm(RmArgs { key: "a".to_owned() }),
        set_cmd("b\"", "\\2"),
    ];
    let mut boundaries = Vec::new();
    for c in &cmds {
        stream.extend_from_slice(&encode_command(c));
        boundaries.push(stream.len());
    }
    let mut pos = 0usize;
    for (c, end) in cmds.iter().zip(boundaries.iter()) {
        let (decoded, next) = decode_record(&stream, pos).unwrap();
        assert_eq!(&decoded, c);
        assert_eq!(next, *end);
        pos = next;
    }
    assert_eq!(pos, stream.len());
}

#[test]
fn rejects_malformed_records() {
    assert!(decode_record(&b"".to_vec(), 0).is_err());
    assert!(decode_record(&b"{\"Set\":{\"key\":\"k\"}}".to_vec(), 0).is_err());
    assert!(decode_record(&b"{\"Put\":{\"key\":\"k\"}}".to_vec(), 0).is_err());
    assert!(decode_record(&b"{\"Rm\":{\"key\":\"k\"}".to_vec(), 0).is_err());
    assert!(decode_record(&b"{\"Rm\":{\"key\":\"k\\x\"}}".to_vec(), 0).is_err());
    // invalid UTF-8 inside an otherwise well-formed record
    let mut bad = b"{\"Rm\":{\"key\":\"".to_vec();
    bad.push(0xff);
    bad.extend_from_slice(b"\"}}");
    assert!(decode_record(&bad, 0).is_err());
}

#[test]
fn codec_output_is_standard_json() {
    // the on-disk format stays readable by an ordinary JSON parser
    let bytes = encode_command(&set_cmd("a\"b", "c\\d"));
    let parsed: serde_json::Value = serde_json::from_slice(&bytes).unwrap();
    assert_eq!(parsed["Set"]["key"], "a\"b");
    assert_eq!(parsed["Set"]["value"], "c\\d");
}
