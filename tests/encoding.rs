use collab_toml::document::decode_text;
use collab_toml::encode::{serialize_collaborator_to_toml, serialize_ip_addresses};
use collab_toml::hex::{parse_salt, push_salt};
use collab_toml::ipv4::{parse_ipv4, push_ipv4, Ipv4Address};
use collab_toml::ipv6::{parse_ipv6, push_ipv6, Ipv6Address};
use collab_toml::record::CollaboratorRecord;
use collab_toml::text::push_decimal;

fn bob() -> CollaboratorRecord {
    CollaboratorRecord {
        user_name: "Bob".to_string(),
        user_salt_list: vec![0x123456789abcdef0, 0xabcdef0123456789],
        ipv4_addresses: Some(vec![Ipv4Address::new(192, 168, 1, 1), Ipv4Address::new(10, 0, 0, 1)]),
        ipv6_addresses: Some(vec![
            Ipv6Address::new(0xfe80, 0, 0, 0, 0, 0, 0, 1),
            Ipv6Address::new(0, 0, 0, 0, 0, 0, 0, 1),
        ]),
        gpg_key_public: "-----BEGIN PGP PUBLIC KEY BLOCK----- ...".to_string(),
        sync_interval: 300,
        updated_at_timestamp: 1728308000,
    }
}

fn v6_text(a: &Ipv6Address) -> String {
    let mut s = String::new();
    push_ipv6(&mut s, a);
    s
}

fn v4_text(a: &Ipv4Address) -> String {
    let mut s = String::new();
    push_ipv4(&mut s, a);
    s
}

#[test]
fn encodes_the_canonical_text() {
    let expected = "user_name = \"Bob\"\n\
user_salt_list = [\n    \"0x123456789abcdef0\",\n    \"0xabcdef0123456789\",\n]\n\
ipv4_addresses = [\n    \"192.168.1.1\",\n    \"10.0.0.1\",\n]\n\
ipv6_addresses = [\n    \"fe80::1\",\n    \"::1\",\n]\n\
gpg_key_public = \"-----BEGIN PGP PUBLIC KEY BLOCK----- ...\"\n\
sync_interval = 300\n\
updated_at_timestamp = 1728308000\n";
    assert_eq!(serialize_collaborator_to_toml(&bob()), expected);
}

#[test]
fn absent_address_list_leaves_out_its_key() {
    let mut r = bob();
    r.ipv4_addresses = None;
    r.ipv6_addresses = None;
    let text = serialize_collaborator_to_toml(&r);
    assert!(!text.contains("ipv4_addresses"));
    assert!(!text.contains("ipv6_addresses"));
}

#[test]
fn address_block_of_no_value_is_empty() {
    let mut out = String::from("x");
    let none: Option<Vec<Ipv4Address>> = None;
    serialize_ip_addresses(&mut out, "ipv4_addresses", &none);
    assert_eq!(out, "x");
    serialize_ip_addresses(&mut out, "k", &Some(vec![Ipv4Address::new(1, 2, 3, 4)]));
    assert_eq!(out, "xk = [\n    \"1.2.3.4\",\n]\n");
}

#[test]
fn round_trip_through_text() {
    let r = bob();
    let d = decode_text(&serialize_collaborator_to_toml(&r)).unwrap();
    assert_eq!(d.record, r);
    assert!(d.warnings.is_empty());
}

#[test]
fn round_trip_of_extreme_values() {
    let r = CollaboratorRecord {
        user_name: String::new(),
        user_salt_list: vec![0, u128::MAX, 1],
        ipv4_addresses: Some(vec![Ipv4Address::new(0, 0, 0, 0), Ipv4Address::new(255, 255, 255, 255)]),
        ipv6_addresses: Some(vec![
            Ipv6Address::new(0, 0, 0, 0, 0, 0, 0, 0),
            Ipv6Address::new(1, 0, 0, 2, 0, 0, 0, 3),
            Ipv6Address::new(0, 0, 0, 0, 0, 0xffff, 0x0a00, 0x00ff),
            Ipv6Address::new(0xffff, 0xffff, 0xffff, 0xffff, 0xffff, 0xffff, 0xffff, 0xffff),
        ]),
        gpg_key_public: "k".to_string(),
        sync_interval: 0,
        updated_at_timestamp: i64::MAX as u64,
    };
    let d = decode_text(&serialize_collaborator_to_toml(&r)).unwrap();
    assert_eq!(d.record, r);
}

#[test]
fn salt_text_is_lower_case_hex() {
    let mut s = String::new();
    push_salt(&mut s, 0xABCDEF);
    assert_eq!(s, "0xabcdef");
    let mut z = String::new();
    push_salt(&mut z, 0);
    assert_eq!(z, "0x0");
}

#[test]
fn salt_parsing_rules() {
    assert_eq!(parse_salt("0x1f"), Some(31));
    assert_eq!(parse_salt("0X1f"), None);
    assert_eq!(parse_salt("0x0x1f"), Some(31));
    assert_eq!(parse_salt("+1f"), Some(31));
    assert_eq!(parse_salt("0x"), None);
    assert_eq!(parse_salt(""), None);
    assert_eq!(parse_salt("-1"), None);
    assert_eq!(parse_salt("0xZZ"), None);
}

#[test]
fn decimal_text_of_integers() {
    let mut s = String::new();
    push_decimal(&mut s, 0);
    push_decimal(&mut s, 1728308000);
    assert_eq!(s, "01728308000");
}

#[test]
fn ipv4_parsing_rules() {
    assert_eq!(parse_ipv4("192.168.1.1"), Some(Ipv4Address::new(192, 168, 1, 1)));
    assert_eq!(parse_ipv4("0.0.0.0"), Some(Ipv4Address::new(0, 0, 0, 0)));
    assert_eq!(parse_ipv4("256.1.1.1"), None);
    assert_eq!(parse_ipv4("01.1.1.1"), None);
    assert_eq!(parse_ipv4("1.1.1"), None);
    assert_eq!(parse_ipv4("1.1.1.1.1"), None);
    assert_eq!(parse_ipv4("1..1.1"), None);
    assert_eq!(parse_ipv4("not-an-ip"), None);
    assert_eq!(v4_text(&Ipv4Address::new(10, 0, 255, 7)), "10.0.255.7");
}

#[test]
fn ipv6_parsing_rules() {
    assert_eq!(parse_ipv6("fe80::1"), Some(Ipv6Address::new(0xfe80, 0, 0, 0, 0, 0, 0, 1)));
    assert_eq!(parse_ipv6("::"), Some(Ipv6Address::new(0, 0, 0, 0, 0, 0, 0, 0)));
    assert_eq!(parse_ipv6("1::"), Some(Ipv6Address::new(1, 0, 0, 0, 0, 0, 0, 0)));
    assert_eq!(parse_ipv6("1:2:3:4:5:6:7:8"), Some(Ipv6Address::new(1, 2, 3, 4, 5, 6, 7, 8)));
    assert_eq!(parse_ipv6("1:2:3:4:5:6:7::"), Some(Ipv6Address::new(1, 2, 3, 4, 5, 6, 7, 0)));
    assert_eq!(parse_ipv6("ABCD::EF"), Some(Ipv6Address::new(0xabcd, 0, 0, 0, 0, 0, 0, 0xef)));
    assert_eq!(parse_ipv6("1:2:3:4:5:6:7:8::"), None);
    assert_eq!(parse_ipv6(":1::"), None);
    assert_eq!(parse_ipv6("1:::2"), None);
    assert_eq!(parse_ipv6("1::2::3"), None);
    assert_eq!(parse_ipv6("12345::"), None);
    assert_eq!(parse_ipv6("1:2:3:4:5:6:7"), None);
    assert_eq!(parse_ipv6("1:"), None);
}

#[test]
fn ipv6_with_embedded_ipv4_tail() {
    assert_eq!(
        parse_ipv6("::ffff:1.2.3.4"),
        Some(Ipv6Address::new(0, 0, 0, 0, 0, 0xffff, 0x0102, 0x0304))
    );
    assert_eq!(
        parse_ipv6("1:2:3:4:5:6:10.0.0.1"),
        Some(Ipv6Address::new(1, 2, 3, 4, 5, 6, 0x0a00, 0x0001))
    );
    assert_eq!(
        parse_ipv6("1:2:3:4:5::255.255.255.255"),
        Some(Ipv6Address::new(1, 2, 3, 4, 5, 0, 0xffff, 0xffff))
    );
    assert_eq!(parse_ipv6("1:2:3:4:5:6:7:1.2.3.4"), None);
    assert_eq!(parse_ipv6("1:2:3:4:5:6::1.2.3.4"), None);
    assert_eq!(parse_ipv6("1.2.3.4::"), None);
    assert_eq!(parse_ipv6("::1.2.3.4:1"), None);
    assert_eq!(parse_ipv6("::1.2.3.256"), None);
}

#[test]
fn ipv6_text_compresses_longest_zero_run() {
    assert_eq!(v6_text(&Ipv6Address::new(0, 0, 0, 0, 0, 0, 0, 0)), "::");
    assert_eq!(v6_text(&Ipv6Address::new(0, 0, 0, 0, 0, 0, 0, 1)), "::1");
    assert_eq!(v6_text(&Ipv6Address::new(1, 0, 0, 2, 0, 0, 0, 3)), "1:0:0:2::3");
    assert_eq!(v6_text(&Ipv6Address::new(1, 0, 0, 2, 0, 0, 3, 4)), "1::2:0:0:3:4");
    assert_eq!(v6_text(&Ipv6Address::new(1, 0, 2, 3, 4, 5, 6, 7)), "1:0:2:3:4:5:6:7");
    assert_eq!(v6_text(&Ipv6Address::new(0xfe80, 0, 0, 0, 0, 0, 0, 0)), "fe80::");
}

#[test]
fn ipv4_mapped_address_is_written_dotted() {
    let a = Ipv6Address::new(0, 0, 0, 0, 0, 0xffff, 0xc0a8, 0x0101);
    assert_eq!(v6_text(&a), "::ffff:192.168.1.1");
    assert_eq!(parse_ipv6("::ffff:192.168.1.1"), Some(a));
    assert_eq!(v6_text(&Ipv6Address::new(0, 0, 0, 0, 0, 0xfffe, 0, 1)), "::fffe:0:1");
}
