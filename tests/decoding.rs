use collab_toml::decode::{decode_one, decode_record, extract_ipv4_addresses, extract_u64};
use collab_toml::document::{decode_text, parse_document};
use collab_toml::ipv4::Ipv4Address;
use collab_toml::ipv6::Ipv6Address;
use collab_toml::record::ErrorKind;
use collab_toml::tree::{Entry, TreeValue};

fn s(t: &str) -> TreeValue {
    TreeValue::Str(t.to_string())
}

fn entry(k: &str, v: TreeValue) -> Entry {
    Entry { key: k.to_string(), value: v }
}

fn full_entries() -> Vec<Entry> {
    vec![
        entry("user_name", s("Alice")),
        entry(
            "user_salt_list",
            TreeValue::Array(vec![
                s("0x11111111111111111111111111111111"),
                s("0x11111111111111111111111111111112"),
            ]),
        ),
        entry("ipv4_addresses", TreeValue::Array(vec![s("192.168.1.1"), s("10.0.0.1")])),
        entry("ipv6_addresses", TreeValue::Array(vec![s("fe80::1"), s("::1")])),
        entry("gpg_key_public", s("-----BEGIN PGP PUBLIC KEY BLOCK----- ...")),
        entry("sync_interval", TreeValue::Int(60)),
        entry("updated_at_timestamp", TreeValue::Int(1728307160)),
    ]
}

fn without(key: &str) -> Vec<Entry> {
    full_entries().into_iter().filter(|e| e.key != key).collect()
}

fn replaced(key: &str, v: TreeValue) -> Vec<Entry> {
    full_entries()
        .into_iter()
        .map(|e| if e.key == key { entry(key, clone_tree(&v)) } else { e })
        .collect()
}

fn clone_tree(v: &TreeValue) -> TreeValue {
    match v {
        TreeValue::Str(x) => TreeValue::Str(x.clone()),
        TreeValue::Int(i) => TreeValue::Int(*i),
        TreeValue::Array(a) => TreeValue::Array(a.iter().map(clone_tree).collect()),
        TreeValue::Table(t) => TreeValue::Table(
            t.iter().map(|e| Entry { key: e.key.clone(), value: clone_tree(&e.value) }).collect(),
        ),
        TreeValue::Other => TreeValue::Other,
    }
}

#[test]
fn decodes_a_full_record() {
    let r = decode_one(&TreeValue::Table(full_entries())).unwrap();
    assert_eq!(r.user_name, "Alice");
    assert_eq!(
        r.user_salt_list,
        vec![0x11111111111111111111111111111111u128, 0x11111111111111111111111111111112u128]
    );
    assert_eq!(
        r.ipv4_addresses,
        Some(vec![Ipv4Address::new(192, 168, 1, 1), Ipv4Address::new(10, 0, 0, 1)])
    );
    assert_eq!(
        r.ipv6_addresses,
        Some(vec![
            Ipv6Address::new(0xfe80, 0, 0, 0, 0, 0, 0, 1),
            Ipv6Address::new(0, 0, 0, 0, 0, 0, 0, 1)
        ])
    );
    assert_eq!(r.gpg_key_public, "-----BEGIN PGP PUBLIC KEY BLOCK----- ...");
    assert_eq!(r.sync_interval, 60);
    assert_eq!(r.updated_at_timestamp, 1728307160);
}

#[test]
fn missing_user_name_is_missing_field() {
    let e = decode_one(&TreeValue::Table(without("user_name"))).unwrap_err();
    assert_eq!(e.kind, ErrorKind::MissingField);
    assert_eq!(e.detail, "user_name");
}

#[test]
fn missing_later_field_is_missing_field() {
    let e = decode_one(&TreeValue::Table(without("updated_at_timestamp"))).unwrap_err();
    assert_eq!(e.kind, ErrorKind::MissingField);
    assert_eq!(e.detail, "updated_at_timestamp");
}

#[test]
fn wrong_type_of_user_name() {
    let e = decode_one(&TreeValue::Table(replaced("user_name", TreeValue::Int(3)))).unwrap_err();
    assert_eq!(e.kind, ErrorKind::WrongFieldType);
    assert_eq!(e.detail, "user_name");
}

#[test]
fn malformed_salt_rejects_record() {
    let e = decode_one(&TreeValue::Table(replaced(
        "user_salt_list",
        TreeValue::Array(vec![s("0xZZ")]),
    )))
    .unwrap_err();
    assert_eq!(e.kind, ErrorKind::InvalidHexInteger);
    assert_eq!(e.detail, "user_salt_list");
}

#[test]
fn non_string_salt_is_wrong_type() {
    let e = decode_one(&TreeValue::Table(replaced(
        "user_salt_list",
        TreeValue::Array(vec![s("0x1"), TreeValue::Int(5)]),
    )))
    .unwrap_err();
    assert_eq!(e.kind, ErrorKind::WrongFieldType);
}

#[test]
fn salt_of_129_bits_is_invalid() {
    let e = decode_one(&TreeValue::Table(replaced(
        "user_salt_list",
        TreeValue::Array(vec![s("0x100000000000000000000000000000000")]),
    )))
    .unwrap_err();
    assert_eq!(e.kind, ErrorKind::InvalidHexInteger);
}

#[test]
fn largest_salt_and_upper_case_digits() {
    let r = decode_one(&TreeValue::Table(replaced(
        "user_salt_list",
        TreeValue::Array(vec![s("0xffffffffffffffffffffffffffffffff"), s("0xABCdef"), s("1f")]),
    )))
    .unwrap();
    assert_eq!(r.user_salt_list, vec![u128::MAX, 0xabcdef, 0x1f]);
}

#[test]
fn negative_interval_is_out_of_range() {
    let e = decode_one(&TreeValue::Table(replaced("sync_interval", TreeValue::Int(-1)))).unwrap_err();
    assert_eq!(e.kind, ErrorKind::IntegerOutOfRange);
    assert_eq!(e.detail, "sync_interval");
}

#[test]
fn largest_interval_is_accepted() {
    let t = replaced("sync_interval", TreeValue::Int(i64::MAX));
    assert_eq!(extract_u64(&t, "sync_interval").unwrap(), i64::MAX as u64);
}

#[test]
fn mixed_address_array_keeps_valid_ones() {
    let d = decode_record(&TreeValue::Table(replaced(
        "ipv4_addresses",
        TreeValue::Array(vec![s("192.168.1.1"), s("not-an-ip")]),
    )))
    .unwrap();
    assert_eq!(d.record.ipv4_addresses, Some(vec![Ipv4Address::new(192, 168, 1, 1)]));
    assert_eq!(d.warnings.len(), 1);
    assert_eq!(d.warnings[0].kind, ErrorKind::InvalidAddressFormat);
}

#[test]
fn all_invalid_addresses_equal_absent_key() {
    let bad = decode_one(&TreeValue::Table(replaced(
        "ipv4_addresses",
        TreeValue::Array(vec![s("not-an-ip"), s("300.1.1.1"), TreeValue::Int(7)]),
    )))
    .unwrap();
    let absent = decode_one(&TreeValue::Table(without("ipv4_addresses"))).unwrap();
    assert_eq!(bad.ipv4_addresses, None);
    assert_eq!(bad, absent);
}

#[test]
fn empty_address_array_is_no_value() {
    let t = replaced("ipv6_addresses", TreeValue::Array(vec![]));
    let r = decode_one(&TreeValue::Table(t)).unwrap();
    assert_eq!(r.ipv6_addresses, None);
}

#[test]
fn address_key_of_wrong_type_fails() {
    let t = replaced("ipv4_addresses", s("192.168.1.1"));
    let e = extract_ipv4_addresses(&t, "ipv4_addresses").unwrap_err();
    assert_eq!(e.kind, ErrorKind::WrongFieldType);
}

#[test]
fn root_that_is_no_table_is_malformed() {
    let e = decode_one(&s("x")).unwrap_err();
    assert_eq!(e.kind, ErrorKind::MalformedTable);
}

#[test]
fn decodes_from_toml_text() {
    let text = "user_name = \"Alice\"\n\
        user_salt_list = [\"0x11111111111111111111111111111111\", \"0x11111111111111111111111111111112\"]\n\
        ipv4_addresses = [\"192.168.1.1\", \"10.0.0.1\"]\n\
        ipv6_addresses = [\"fe80::1\", \"::1\"]\n\
        gpg_key_public = \"-----BEGIN PGP PUBLIC KEY BLOCK----- ...\"\n\
        sync_interval = 60\n\
        updated_at_timestamp = 1728307160\n";
    let d = decode_text(text).unwrap();
    let expected = decode_one(&TreeValue::Table(full_entries())).unwrap();
    assert_eq!(d.record, expected);
    assert!(d.warnings.is_empty());
}

#[test]
fn text_that_is_no_document_is_malformed() {
    let e = decode_text("user_name = = \"x\"").unwrap_err();
    assert_eq!(e.kind, ErrorKind::MalformedTable);
}

#[test]
fn parsed_document_holds_the_values() {
    let t = parse_document("a = \"x\"\nb = 5\nc = [\"y\", 2]\nd = 1.5\n").unwrap();
    let TreeValue::Table(entries) = t else { panic!("no table") };
    let find = |k: &str| entries.iter().find(|e| e.key == k).map(|e| &e.value);
    assert_eq!(find("a"), Some(&s("x")));
    assert_eq!(find("b"), Some(&TreeValue::Int(5)));
    assert_eq!(find("c"), Some(&TreeValue::Array(vec![s("y"), TreeValue::Int(2)])));
    assert_eq!(find("d"), Some(&TreeValue::Other));
}
