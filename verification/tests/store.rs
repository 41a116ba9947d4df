use ndb::database::{Database, Password};
use ndb::encoding::{ascii85, ascii85_decode, base64, hexadecimal, hexadecimal_decode, Encoding};
use ndb::subseq::subsequence;

fn record(service: &str, username: &str) -> Password {
    Password {
        service: String::from(service),
        username: String::from(username),
        secret: String::from("00ff"),
        length: 2,
        encoding: Encoding::Hexadecimal,
    }
}

#[test]
fn hexadecimal_four_bytes() {
    assert_eq!(hexadecimal(&[0x4D, 0x4E, 0x53, 0x4A]), "4d4e534a");
}

#[test]
fn hexadecimal_length_and_empty() {
    assert_eq!(hexadecimal(&[]), "");
    let data = [0u8, 1, 2, 254, 255];
    assert_eq!(hexadecimal(&data).len(), 2 * data.len());
}

#[test]
fn hexadecimal_round_trip() {
    let data = vec![0u8, 9, 10, 15, 16, 128, 255];
    let text = hexadecimal(&data);
    assert_eq!(hexadecimal_decode(&text), Some(data));
    assert_eq!(hexadecimal_decode("zz"), None);
    assert_eq!(hexadecimal_decode("abc"), None);
}

#[test]
fn ascii85_zero_group() {
    assert_eq!(ascii85(&[0, 0, 0, 0]), "!!!!!");
    assert_eq!(ascii85(&[]), "");
}

#[test]
fn ascii85_drops_partial_group() {
    assert_eq!(ascii85(&[1, 2, 3]), "");
    assert_eq!(ascii85(&[9, 8, 7, 6, 5]), ascii85(&[9, 8, 7, 6]));
}

#[test]
fn ascii85_round_trip() {
    let data = vec![0x4Du8, 0x4E, 0x53, 0x4A, 255, 0, 17, 99];
    let text = ascii85(&data);
    assert_eq!(text.len(), 10);
    assert_eq!(ascii85_decode(&text), Some(data));
    assert_eq!(ascii85_decode("abcd"), None);
}

#[test]
fn base64_standard_vectors() {
    assert_eq!(base64(&[]), "");
    assert_eq!(base64(&[0x4D, 0x61, 0x6E]), "TWFu");
    assert_eq!(base64(&[0x4D]), "TQ==");
    assert_eq!(base64(&[0x4D, 0x61]), "TWE=");
}

#[test]
fn encode_bytes_dispatch() {
    let data = [0x4Du8, 0x4E, 0x53, 0x4A];
    assert_eq!(Encoding::Hexadecimal.encode_bytes(&data), "4d4e534a");
    assert_eq!(Encoding::Ascii85.encode_bytes(&data), ascii85(&data));
    assert_eq!(Encoding::Base64.encode_bytes(&data), base64(&data));
    assert_eq!(Encoding::Unknown(String::from("rot13")).encode_bytes(&data), "");
}

#[test]
fn subsequence_cases() {
    assert!(subsequence("", ""));
    assert!(subsequence("", "anything"));
    assert!(subsequence("gl", "gitlab"));
    assert!(!subsequence("gl", "github"));
    assert!(subsequence("GH", "github"));
    assert!(subsequence("gh", "GITHUB"));
    assert!(!subsequence("aa", "a"));
    assert!(!subsequence("a", ""));
}

#[test]
fn view_groups_three_services() {
    let mut db = Database::new();
    db.insert(record("github", "alice"));
    db.insert(record("gitlab", "bob"));
    db.insert(record("gmail", "carol"));
    let v = db.view("g");
    let keys: Vec<&str> = v.iter().map(|g| g.0.as_str()).collect();
    assert_eq!(keys, vec!["github", "gitlab", "gmail"]);
    let v2 = db.view("gl");
    let keys2: Vec<&str> = v2.iter().map(|g| g.0.as_str()).collect();
    assert_eq!(keys2, vec!["gitlab", "gmail"]);
    assert_eq!(v2[0].1.members, vec![1]);
    let v3 = db.view("hb");
    assert_eq!(v3.len(), 1);
    assert_eq!(v3[0].0, "github");
}

#[test]
fn view_duplicate_services_share_group_in_order() {
    let mut db = Database::new();
    db.insert(record("mail", "first"));
    db.insert(record("site", "other"));
    db.insert(record("mail", "second"));
    let v = db.view("");
    assert_eq!(v.len(), 2);
    assert_eq!(v[0].0, "mail");
    assert_eq!(v[0].1.members, vec![0, 2]);
    assert_eq!(v[1].0, "site");
    assert_eq!(v[1].1.members, vec![1]);
    assert!(!v[0].1.expanded);
    assert!(!v[1].1.expanded);
}

#[test]
fn view_empty_database() {
    let db = Database::new();
    assert_eq!(db.view("x").len(), 0);
    assert_eq!(db.view("").len(), 0);
}

use ndb::codec::{parse_record, serialize_record};

#[test]
fn record_line_exact_text() {
    let p = record("github", "alice");
    assert_eq!(
        serialize_record(&p),
        "{\"service\":\"github\",\"username\":\"alice\",\"secret\":\"00ff\",\"length\":2,\"encoding\":\"Hexadecimal\"}"
    );
}

#[test]
fn record_round_trip_plain() {
    let p = record("github", "alice");
    let line = serialize_record(&p);
    let q = parse_record(&line).expect("line parses");
    assert_eq!(q.service, "github");
    assert_eq!(q.username, "alice");
    assert_eq!(q.secret, "00ff");
    assert_eq!(q.length, 2);
    assert!(matches!(q.encoding, Encoding::Hexadecimal));
}

#[test]
fn record_round_trip_escapes_and_unknown() {
    let p = Password {
        service: String::from("we\"ird\\site"),
        username: String::from("line\nbreak\ttab"),
        secret: String::from("9hnVZ"),
        length: 4,
        encoding: Encoding::Unknown(String::from("rot\"13")),
    };
    let line = serialize_record(&p);
    assert!(!line.contains('\n'));
    let q = parse_record(&line).expect("line parses");
    assert_eq!(q.service, "we\"ird\\site");
    assert_eq!(q.username, "line\nbreak\ttab");
    assert_eq!(q.secret, "9hnVZ");
    assert_eq!(q.length, 4);
    match q.encoding {
        Encoding::Unknown(name) => assert_eq!(name, "rot\"13"),
        _ => panic!("wrong encoding variant"),
    }
}

#[test]
fn record_round_trip_other_tags() {
    for enc in [Encoding::Ascii85, Encoding::Base64] {
        let p = Password {
            service: String::from("s"),
            username: String::from("u"),
            secret: String::from("x"),
            length: 0,
            encoding: enc,
        };
        let line = serialize_record(&p);
        let q = parse_record(&line).expect("line parses");
        match (&p.encoding, &q.encoding) {
            (Encoding::Ascii85, Encoding::Ascii85) => {}
            (Encoding::Base64, Encoding::Base64) => {}
            _ => panic!("wrong encoding variant"),
        }
        assert_eq!(q.length, 0);
    }
}

#[test]
fn parse_rejects_malformed_lines() {
    assert!(parse_record("").is_none());
    assert!(parse_record("not a record").is_none());
    assert!(parse_record("{\"service\":\"a\"}").is_none());
    // leading zero in the length is not canonical
    assert!(parse_record(
        "{\"service\":\"a\",\"username\":\"b\",\"secret\":\"c\",\"length\":01,\"encoding\":\"Base64\"}"
    )
    .is_none());
    // trailing text after the closing brace
    assert!(parse_record(
        "{\"service\":\"a\",\"username\":\"b\",\"secret\":\"c\",\"length\":1,\"encoding\":\"Base64\"}x"
    )
    .is_none());
}

#[test]
fn database_lines_round_trip_and_drop_bad() {
    let mut db = Database::new();
    db.insert(record("github", "alice"));
    db.insert(record("gmail", "bob"));
    let mut lines = db.to_lines();
    assert_eq!(lines.len(), 2);
    lines.insert(1, String::from("garbage line"));
    lines.push(String::new());
    let db2 = Database::from_lines(&lines);
    assert_eq!(db2.passwords.len(), 2);
    assert_eq!(db2.passwords[0].service, "github");
    assert_eq!(db2.passwords[0].username, "alice");
    assert_eq!(db2.passwords[1].service, "gmail");
    assert_eq!(db2.passwords[1].username, "bob");
}

#[test]
fn parse_rejects_raw_control_characters() {
    // a raw tab inside a field has no canonical stored form; it must be
    // written as an escape
    assert!(parse_record(
        "{\"service\":\"a\tb\",\"username\":\"u\",\"secret\":\"s\",\"length\":1,\"encoding\":\"Base64\"}"
    )
    .is_none());
    assert!(parse_record(
        "{\"service\":\"a\\tb\",\"username\":\"u\",\"secret\":\"s\",\"length\":1,\"encoding\":\"Base64\"}"
    )
    .is_some());
}
