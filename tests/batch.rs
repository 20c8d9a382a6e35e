use collab_toml::batch::{decode_directory, decode_many, Source};
use collab_toml::record::ErrorKind;

fn good(name: &str) -> Source {
    Source::Text(format!(
        "user_name = \"{}\"\nuser_salt_list = [\"0x1\"]\ngpg_key_public = \"k\"\nsync_interval = 1\nupdated_at_timestamp = 2\n",
        name
    ))
}

#[test]
fn batch_continues_past_a_malformed_source() {
    let sources = vec![good("a"), Source::Text("user_name = [".to_string()), good("c")];
    let out = decode_many(&sources);
    assert_eq!(out.records.len(), 2);
    assert_eq!(out.errors.len(), 1);
    assert_eq!(out.records[0].user_name, "a");
    assert_eq!(out.records[1].user_name, "c");
    assert_eq!(out.errors[0].kind, ErrorKind::MalformedTable);
}

#[test]
fn batch_records_field_failures_and_unreadable_sources() {
    let sources = vec![
        Source::Text("user_name = \"x\"\n".to_string()),
        Source::Unreadable("permission denied".to_string()),
        good("ok"),
    ];
    let out = decode_many(&sources);
    assert_eq!(out.records.len(), 1);
    assert_eq!(out.errors.len(), 2);
    assert_eq!(out.errors[0].kind, ErrorKind::MissingField);
    assert_eq!(out.errors[0].detail, "user_salt_list");
    assert_eq!(out.errors[1].kind, ErrorKind::IoFailure);
    assert_eq!(out.errors[1].detail, "permission denied");
}

#[test]
fn batch_reports_skipped_addresses() {
    let text = "user_name = \"a\"\nuser_salt_list = []\nipv4_addresses = [\"1.2.3.4\", \"x\"]\ngpg_key_public = \"k\"\nsync_interval = 1\nupdated_at_timestamp = 2\n";
    let out = decode_many(&vec![Source::Text(text.to_string())]);
    assert_eq!(out.records.len(), 1);
    assert_eq!(out.errors.len(), 1);
    assert_eq!(out.errors[0].kind, ErrorKind::InvalidAddressFormat);
}

#[test]
fn empty_batch_is_empty() {
    let out = decode_many(&vec![]);
    assert!(out.records.is_empty());
    assert!(out.errors.is_empty());
}

#[test]
fn unopenable_directory_fails_the_batch() {
    let r = decode_directory(Err("no such directory".to_string()));
    let e = r.unwrap_err();
    assert_eq!(e.kind, ErrorKind::IoFailure);
    assert_eq!(e.detail, "no such directory");
}

#[test]
fn opened_directory_decodes_its_sources() {
    let out = decode_directory(Ok(vec![good("a"), good("b")])).unwrap();
    assert_eq!(out.records.len(), 2);
    assert!(out.errors.is_empty());
}
