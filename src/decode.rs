//! Field extractors and the fail-fast decoder of one record.

use vstd::prelude::*;
use crate::hex::{parse_salt, salt_of_text};
use crate::ipv4::{lemma_ipv4_len, parse_ipv4, ipv4_of_text, Ipv4Address};
use crate::ipv6::{lemma_ipv6_len, parse_ipv6, ipv6_of_text, Ipv6Address};
use crate::record::{
    error_views, ipv4_list_view, ipv4_views, ipv6_list_view, ipv6_views, record_valid, CollaboratorRecord, DecodeError, ErrorKind, RecordModel,
};
use crate::tree::{get, lookup, Entry, TreeValue};

verus! {

/// A failure as a kind and its detail.
pub type Failure = (ErrorKind, Seq<char>);

/// A required text field.
pub open spec fn text_field(t: Seq<Entry>, key: Seq<char>) -> Result<Seq<char>, Failure> {
    match lookup(t, key) {
        None => Err((ErrorKind::MissingField, key)),
        Some(TreeValue::Str(s)) => Ok(s@),
        Some(_) => Err((ErrorKind::WrongFieldType, key)),
    }
}

/// One element of a salt list.
pub open spec fn salt_item(v: TreeValue, key: Seq<char>) -> Result<u128, Failure> {
    match v {
        TreeValue::Str(s) => match salt_of_text(s@) {
            Some(x) => Ok(x),
            None => Err((ErrorKind::InvalidHexInteger, key)),
        },
        _ => Err((ErrorKind::WrongFieldType, key)),
    }
}

/// The salts of a list, or the failure of its first bad element.
pub open spec fn salt_items(items: Seq<TreeValue>, key: Seq<char>) -> Result<Seq<u128>, Failure>
    decreases items.len(),
{
    if items.len() == 0 {
        Ok(Seq::empty())
    } else {
        match salt_items(items.drop_last(), key) {
            Err(e) => Err(e),
            Ok(xs) => match salt_item(items.last(), key) {
                Ok(x) => Ok(xs.push(x)),
                Err(e) => Err(e),
            },
        }
    }
}

/// A required list of salts.
pub open spec fn salt_field(t: Seq<Entry>, key: Seq<char>) -> Result<Seq<u128>, Failure> {
    match lookup(t, key) {
        None => Err((ErrorKind::MissingField, key)),
        Some(TreeValue::Array(items)) => salt_items(items@, key),
        Some(_) => Err((ErrorKind::WrongFieldType, key)),
    }
}

/// The IPv4 address that an element denotes, if any.
pub open spec fn ipv4_item(v: TreeValue) -> Option<Seq<u8>> {
    match v {
        TreeValue::Str(s) => ipv4_of_text(s@),
        _ => None,
    }
}

/// The IPv6 address that an element denotes, if any.
pub open spec fn ipv6_item(v: TreeValue) -> Option<Seq<u16>> {
    match v {
        TreeValue::Str(s) => ipv6_of_text(s@),
        _ => None,
    }
}

/// The valid IPv4 addresses of a list, in order; the others are skipped.
pub open spec fn ipv4_items(items: Seq<TreeValue>) -> Seq<Seq<u8>>
    decreases items.len(),
{
    if items.len() == 0 {
        Seq::empty()
    } else {
        let rest = ipv4_items(items.drop_last());
        match ipv4_item(items.last()) {
            Some(a) => rest.push(a),
            None => rest,
        }
    }
}

/// The valid IPv6 addresses of a list, in order; the others are skipped.
pub open spec fn ipv6_items(items: Seq<TreeValue>) -> Seq<Seq<u16>>
    decreases items.len(),
{
    if items.len() == 0 {
        Seq::empty()
    } else {
        let rest = ipv6_items(items.drop_last());
        match ipv6_item(items.last()) {
            Some(a) => rest.push(a),
            None => rest,
        }
    }
}

/// One soft failure for each of `n` skipped elements.
pub open spec fn skipped(n: int, key: Seq<char>) -> Seq<Failure> {
    Seq::new(n as nat, |i: int| (ErrorKind::InvalidAddressFormat, key))
}

/// "No value" for an empty list.
pub open spec fn nonempty<A>(s: Seq<A>) -> Option<Seq<A>> {
    if s.len() == 0 {
        None
    } else {
        Some(s)
    }
}

/// An optional IPv4 list, with a soft failure for each skipped element.
pub open spec fn ipv4_field(t: Seq<Entry>, key: Seq<char>) -> Result<
    (Option<Seq<Seq<u8>>>, Seq<Failure>),
    Failure,
> {
    match lookup(t, key) {
        None => Ok((None, Seq::empty())),
        Some(TreeValue::Array(items)) => {
            let good = ipv4_items(items@);
            Ok((nonempty(good), skipped(items@.len() - good.len(), key)))
        },
        Some(_) => Err((ErrorKind::WrongFieldType, key)),
    }
}

/// An optional IPv6 list, with a soft failure for each skipped element.
pub open spec fn ipv6_field(t: Seq<Entry>, key: Seq<char>) -> Result<
    (Option<Seq<Seq<u16>>>, Seq<Failure>),
    Failure,
> {
    match lookup(t, key) {
        None => Ok((None, Seq::empty())),
        Some(TreeValue::Array(items)) => {
            let good = ipv6_items(items@);
            Ok((nonempty(good), skipped(items@.len() - good.len(), key)))
        },
        Some(_) => Err((ErrorKind::WrongFieldType, key)),
    }
}

/// A required integer that must not be negative.
pub open spec fn u64_field(t: Seq<Entry>, key: Seq<char>) -> Result<u64, Failure> {
    match lookup(t, key) {
        None => Err((ErrorKind::MissingField, key)),
        Some(TreeValue::Int(i)) => if i >= 0 {
            Ok(i as u64)
        } else {
            Err((ErrorKind::IntegerOutOfRange, key))
        },
        Some(_) => Err((ErrorKind::WrongFieldType, key)),
    }
}

/// The record that a table holds, with the soft failures of its address
/// lists; or the failure of the first field, in field order, that fails.
pub open spec fn decode_table(t: Seq<Entry>) -> Result<(RecordModel, Seq<Failure>), Failure> {
    match text_field(t, "user_name"@) {
        Err(e) => Err(e),
        Ok(name) => match salt_field(t, "user_salt_list"@) {
            Err(e) => Err(e),
            Ok(salts) => match ipv4_field(t, "ipv4_addresses"@) {
                Err(e) => Err(e),
                Ok((v4, w4)) => match ipv6_field(t, "ipv6_addresses"@) {
                    Err(e) => Err(e),
                    Ok((v6, w6)) => match text_field(t, "gpg_key_public"@) {
                        Err(e) => Err(e),
                        Ok(key) => match u64_field(t, "sync_interval"@) {
                            Err(e) => Err(e),
                            Ok(interval) => match u64_field(t, "updated_at_timestamp"@) {
                                Err(e) => Err(e),
                                Ok(updated) => Ok(
                                    (
                                        RecordModel {
                                            user_name: name,
                                            user_salt_list: salts,
                                            ipv4_addresses: v4,
                                            ipv6_addresses: v6,
                                            gpg_key_public: key,
                                            sync_interval: interval,
                                            updated_at_timestamp: updated,
                                        },
                                        w4 + w6,
                                    ),
                                ),
                            },
                        },
                    },
                },
            },
        },
    }
}

/// What decoding a tree gives: a table is decoded field by field, any other
/// node is a malformed table.
pub open spec fn decode_tree(v: TreeValue) -> Result<(RecordModel, Seq<Failure>), Failure> {
    match v {
        TreeValue::Table(entries) => decode_table(entries@),
        _ => Err((ErrorKind::MalformedTable, Seq::empty())),
    }
}

/// Extracts a required text field.
pub fn extract_text(table: &Vec<Entry>, key: &str) -> (r: Result<String, DecodeError>)
    ensures
        match r {
            Ok(s) => text_field(table@, key@) == Ok::<Seq<char>, Failure>(s@),
            Err(e) => text_field(table@, key@) == Err::<Seq<char>, Failure>(e@),
        },
{
    match get(table, key) {
        None => Err(DecodeError::new(ErrorKind::MissingField, key)),
        Some(TreeValue::Str(s)) => Ok(s.clone()),
        Some(_) => Err(DecodeError::new(ErrorKind::WrongFieldType, key)),
    }
}

/// Extracts a required list of salts; the first bad element fails it.
pub fn extract_salts(table: &Vec<Entry>, key: &str) -> (r: Result<Vec<u128>, DecodeError>)
    ensures
        match r {
            Ok(v) => salt_field(table@, key@) == Ok::<Seq<u128>, Failure>(v@),
            Err(e) => salt_field(table@, key@) == Err::<Seq<u128>, Failure>(e@),
        },
{
    let items = match get(table, key) {
        None => {
            return Err(DecodeError::new(ErrorKind::MissingField, key));
        },
        Some(TreeValue::Array(items)) => items,
        Some(_) => {
            return Err(DecodeError::new(ErrorKind::WrongFieldType, key));
        },
    };
    assert(salt_field(table@, key@) == salt_items(items@, key@));
    let mut out: Vec<u128> = Vec::new();
    let mut k: usize = 0;
    assert(items@.subrange(0, 0) =~= Seq::<TreeValue>::empty());
    while k < items.len()
        invariant
            k <= items@.len(),
            salt_field(table@, key@) == salt_items(items@, key@),
            salt_items(items@.subrange(0, k as int), key@) == Ok::<Seq<u128>, Failure>(out@),
        decreases items@.len() - k,
    {
        let ghost next = items@.subrange(0, k as int + 1);
        assert(next.drop_last() =~= items@.subrange(0, k as int));
        assert(next.last() == items@[k as int]);
        let x = match &items[k] {
            TreeValue::Str(s) => match parse_salt(s.as_str()) {
                Some(x) => x,
                None => {
                    assert(salt_item(items@[k as int], key@) is Err);
                    proof {
                        lemma_salt_items_fail(items@, k as int + 1, key@);
                    }
                    return Err(DecodeError::new(ErrorKind::InvalidHexInteger, key));
                },
            },
            _ => {
                assert(salt_item(items@[k as int], key@) is Err);
                proof {
                    lemma_salt_items_fail(items@, k as int + 1, key@);
                }
                return Err(DecodeError::new(ErrorKind::WrongFieldType, key));
            },
        };
        out.push(x);
        k = k + 1;
    }
    assert(items@.subrange(0, items@.len() as int) =~= items@);
    Ok(out)
}

proof fn lemma_salt_items_fail(items: Seq<TreeValue>, j: int, key: Seq<char>)
    requires
        0 <= j <= items.len(),
        salt_items(items.subrange(0, j), key) is Err,
    ensures
        salt_items(items, key) == salt_items(items.subrange(0, j), key),
    decreases items.len() - j,
{
    if j < items.len() {
        let next = items.subrange(0, j + 1);
        assert(next.drop_last() =~= items.subrange(0, j));
        lemma_salt_items_fail(items, j + 1, key);
    } else {
        assert(items.subrange(0, j) =~= items);
    }
}

/// Extracts an optional list of IPv4 addresses. Elements that are no
/// valid address are skipped, each with a soft failure; a list left empty
/// is no value, as an absent key is.
pub fn extract_ipv4_addresses(table: &Vec<Entry>, key: &str) -> (r: Result<
    (Option<Vec<Ipv4Address>>, Vec<DecodeError>),
    DecodeError,
>)
    ensures
        match r {
            Ok((v, w)) => ipv4_field(table@, key@) == Ok::<
                (Option<Seq<Seq<u8>>>, Seq<Failure>),
                Failure,
            >((ipv4_list_view(v), error_views(w@))),
            Err(e) => ipv4_field(table@, key@) == Err::<
                (Option<Seq<Seq<u8>>>, Seq<Failure>),
                Failure,
            >(e@),
        },
{
    let items = match get(table, key) {
        None => {
            let none: Vec<DecodeError> = Vec::new();
            assert(error_views(none@) =~= Seq::<Failure>::empty());
            return Ok((None, none));
        },
        Some(TreeValue::Array(items)) => items,
        Some(_) => {
            return Err(DecodeError::new(ErrorKind::WrongFieldType, key));
        },
    };
    let mut out: Vec<Ipv4Address> = Vec::new();
    let mut soft: Vec<DecodeError> = Vec::new();
    let mut k: usize = 0;
    assert(items@.subrange(0, 0) =~= Seq::<TreeValue>::empty());
    assert(error_views(soft@) =~= skipped(0, key@));
    while k < items.len()
        invariant
            k <= items@.len(),
            lookup(table@, key@) == Some(TreeValue::Array(*items)),
            ipv4_items(items@.subrange(0, k as int)) == ipv4_views(out@),
            out@.len() <= k,
            error_views(soft@) == skipped(k - out@.len(), key@),
        decreases items@.len() - k,
    {
        let ghost next = items@.subrange(0, k as int + 1);
        assert(next.drop_last() =~= items@.subrange(0, k as int));
        assert(next.last() == items@[k as int]);
        let parsed = match &items[k] {
            TreeValue::Str(s) => parse_ipv4(s.as_str()),
            _ => None,
        };
        match parsed {
            Some(a) => {
                out.push(a);
                assert(ipv4_views(out@) =~= ipv4_items(next));
            },
            None => {
                let ghost before = error_views(soft@);
                let e = DecodeError::new(ErrorKind::InvalidAddressFormat, key);
                soft.push(e);
                assert(error_views(soft@) =~= before.push(e@));
                assert(error_views(soft@) =~= skipped(k + 1 - out@.len(), key@));
            },
        }
        k = k + 1;
    }
    assert(items@.subrange(0, items@.len() as int) =~= items@);
    if out.len() == 0 {
        Ok((None, soft))
    } else {
        Ok((Some(out), soft))
    }
}

/// Extracts an optional list of IPv6 addresses. Elements that are no
/// valid address are skipped, each with a soft failure; a list left empty
/// is no value, as an absent key is.
pub fn extract_ipv6_addresses(table: &Vec<Entry>, key: &str) -> (r: Result<
    (Option<Vec<Ipv6Address>>, Vec<DecodeError>),
    DecodeError,
>)
    ensures
        match r {
            Ok((v, w)) => ipv6_field(table@, key@) == Ok::<
                (Option<Seq<Seq<u16>>>, Seq<Failure>),
                Failure,
            >((ipv6_list_view(v), error_views(w@))),
            Err(e) => ipv6_field(table@, key@) == Err::<
                (Option<Seq<Seq<u16>>>, Seq<Failure>),
                Failure,
            >(e@),
        },
{
    let items = match get(table, key) {
        None => {
            let none: Vec<DecodeError> = Vec::new();
            assert(error_views(none@) =~= Seq::<Failure>::empty());
            return Ok((None, none));
        },
        Some(TreeValue::Array(items)) => items,
        Some(_) => {
            return Err(DecodeError::new(ErrorKind::WrongFieldType, key));
        },
    };
    let mut out: Vec<Ipv6Address> = Vec::new();
    let mut soft: Vec<DecodeError> = Vec::new();
    let mut k: usize = 0;
    assert(items@.subrange(0, 0) =~= Seq::<TreeValue>::empty());
    assert(error_views(soft@) =~= skipped(0, key@));
    while k < items.len()
        invariant
            k <= items@.len(),
            lookup(table@, key@) == Some(TreeValue::Array(*items)),
            ipv6_items(items@.subrange(0, k as int)) == ipv6_views(out@),
            out@.len() <= k,
            error_views(soft@) == skipped(k - out@.len(), key@),
        decreases items@.len() - k,
    {
        let ghost next = items@.subrange(0, k as int + 1);
        assert(next.drop_last() =~= items@.subrange(0, k as int));
        assert(next.last() == items@[k as int]);
        let parsed = match &items[k] {
            TreeValue::Str(s) => parse_ipv6(s.as_str()),
            _ => None,
        };
        match parsed {
            Some(a) => {
                out.push(a);
                assert(ipv6_views(out@) =~= ipv6_items(next));
            },
            None => {
                let ghost before = error_views(soft@);
                let e = DecodeError::new(ErrorKind::InvalidAddressFormat, key);
                soft.push(e);
                assert(error_views(soft@) =~= before.push(e@));
                assert(error_views(soft@) =~= skipped(k + 1 - out@.len(), key@));
            },
        }
        k = k + 1;
    }
    assert(items@.subrange(0, items@.len() as int) =~= items@);
    if out.len() == 0 {
        Ok((None, soft))
    } else {
        Ok((Some(out), soft))
    }
}

/// Extracts a required integer that must not be negative.
pub fn extract_u64(table: &Vec<Entry>, key: &str) -> (r: Result<u64, DecodeError>)
    ensures
        match r {
            Ok(v) => u64_field(table@, key@) == Ok::<u64, Failure>(v),
            Err(e) => u64_field(table@, key@) == Err::<u64, Failure>(e@),
        },
{
    match get(table, key) {
        None => Err(DecodeError::new(ErrorKind::MissingField, key)),
        Some(TreeValue::Int(i)) => if *i >= 0 {
            Ok(*i as u64)
        } else {
            Err(DecodeError::new(ErrorKind::IntegerOutOfRange, key))
        },
        Some(_) => Err(DecodeError::new(ErrorKind::WrongFieldType, key)),
    }
}

/// A decoded record with the soft failures of its address lists.
#[derive(Clone, Debug, PartialEq, Eq)]
pub struct Decoded {
    pub record: CollaboratorRecord,
    pub warnings: Vec<DecodeError>,
}

/// The model of a decode result.
pub open spec fn decoded_view(r: Result<Decoded, DecodeError>) -> Result<
    (RecordModel, Seq<Failure>),
    Failure,
> {
    match r {
        Ok(d) => Ok((d.record@, error_views(d.warnings@))),
        Err(e) => Err(e@),
    }
}

proof fn lemma_ipv4_items_len(items: Seq<TreeValue>)
    ensures
        forall|i: int| 0 <= i < ipv4_items(items).len() ==> (#[trigger] ipv4_items(items)[i]).len() == 4,
    decreases items.len(),
{
    if items.len() > 0 {
        lemma_ipv4_items_len(items.drop_last());
        if let TreeValue::Str(s) = items.last() {
            lemma_ipv4_len(s@);
        }
        let rest = ipv4_items(items.drop_last());
        let all = ipv4_items(items);
        assert forall|i: int| 0 <= i < all.len() implies (#[trigger] all[i]).len() == 4 by {
            if i < rest.len() {
                assert(all[i] == rest[i]);
            }
        }
    }
}

proof fn lemma_ipv6_items_len(items: Seq<TreeValue>)
    ensures
        forall|i: int| 0 <= i < ipv6_items(items).len() ==> (#[trigger] ipv6_items(items)[i]).len() == 8,
    decreases items.len(),
{
    if items.len() > 0 {
        lemma_ipv6_items_len(items.drop_last());
        if let TreeValue::Str(s) = items.last() {
            lemma_ipv6_len(s@);
        }
        let rest = ipv6_items(items.drop_last());
        let all = ipv6_items(items);
        assert forall|i: int| 0 <= i < all.len() implies (#[trigger] all[i]).len() == 8 by {
            if i < rest.len() {
                assert(all[i] == rest[i]);
            }
        }
    }
}

proof fn lemma_decoded_valid(t: Seq<Entry>)
    ensures
        decode_table(t) matches Ok((m, w)) ==> record_valid(m),
{
    if let Some(TreeValue::Array(items)) = lookup(t, "ipv4_addresses"@) {
        lemma_ipv4_items_len(items@);
    }
    if let Some(TreeValue::Array(items)) = lookup(t, "ipv6_addresses"@) {
        lemma_ipv6_items_len(items@);
    }
}

fn decode_entries(table: &Vec<Entry>) -> (r: Result<Decoded, DecodeError>)
    ensures
        decoded_view(r) == decode_table(table@),
{
    let user_name = match extract_text(table, "user_name") {
        Ok(v) => v,
        Err(e) => {
            return Err(e);
        },
    };
    let user_salt_list = match extract_salts(table, "user_salt_list") {
        Ok(v) => v,
        Err(e) => {
            return Err(e);
        },
    };
    let (ipv4_addresses, mut warnings) = match extract_ipv4_addresses(table, "ipv4_addresses") {
        Ok(v) => v,
        Err(e) => {
            return Err(e);
        },
    };
    let (ipv6_addresses, mut more) = match extract_ipv6_addresses(table, "ipv6_addresses") {
        Ok(v) => v,
        Err(e) => {
            return Err(e);
        },
    };
    let gpg_key_public = match extract_text(table, "gpg_key_public") {
        Ok(v) => v,
        Err(e) => {
            return Err(e);
        },
    };
    let sync_interval = match extract_u64(table, "sync_interval") {
        Ok(v) => v,
        Err(e) => {
            return Err(e);
        },
    };
    let updated_at_timestamp = match extract_u64(table, "updated_at_timestamp") {
        Ok(v) => v,
        Err(e) => {
            return Err(e);
        },
    };
    let ghost w4 = error_views(warnings@);
    let ghost w6 = error_views(more@);
    warnings.append(&mut more);
    assert(error_views(warnings@) =~= w4 + w6);
    let record = CollaboratorRecord {
        user_name,
        user_salt_list,
        ipv4_addresses,
        ipv6_addresses,
        gpg_key_public,
        sync_interval,
        updated_at_timestamp,
    };
    Ok(Decoded { record, warnings })
}

/// Decodes one record, stopping at the first field, in field order, that
/// fails; address elements that are no valid address are skipped and
/// reported as warnings.
pub fn decode_record(tree: &TreeValue) -> (r: Result<Decoded, DecodeError>)
    ensures
        decoded_view(r) == decode_tree(*tree),
        r matches Ok(d) ==> record_valid(d.record@),
{
    match tree {
        TreeValue::Table(entries) => {
            let r = decode_entries(entries);
            proof {
                if r is Ok {
                    lemma_decoded_valid(entries@);
                }
            }
            r
        },
        _ => {
            proof {
                reveal_strlit("");
            }
            assert(""@ =~= Seq::<char>::empty());
            Err(DecodeError::new(ErrorKind::MalformedTable, ""))
        },
    }
}

/// Decodes one record, fail-fast; see [`decode_record`] for the warnings.
pub fn decode_one(tree: &TreeValue) -> (r: Result<CollaboratorRecord, DecodeError>)
    ensures
        match r {
            Ok(rec) => decode_tree(*tree) matches Ok((m, _)) && m == rec@ && record_valid(m),
            Err(e) => decode_tree(*tree) == Err::<(RecordModel, Seq<Failure>), Failure>(e@),
        },
{
    match decode_record(tree) {
        Ok(d) => Ok(d.record),
        Err(e) => Err(e),
    }
}

} // verus!
