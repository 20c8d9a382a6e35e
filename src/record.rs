//! The collaborator record and the errors of decoding one.

use vstd::prelude::*;
use crate::ipv4::Ipv4Address;
use crate::ipv6::Ipv6Address;

verus! {

/// A collaborator's identity and networking profile.
#[derive(Clone, Debug, PartialEq, Eq)]
pub struct CollaboratorRecord {
    pub user_name: String,
    pub user_salt_list: Vec<u128>,
    pub ipv4_addresses: Option<Vec<Ipv4Address>>,
    pub ipv6_addresses: Option<Vec<Ipv6Address>>,
    pub gpg_key_public: String,
    pub sync_interval: u64,
    pub updated_at_timestamp: u64,
}

/// The mathematical content of a [`CollaboratorRecord`].
pub struct RecordModel {
    pub user_name: Seq<char>,
    pub user_salt_list: Seq<u128>,
    pub ipv4_addresses: Option<Seq<Seq<u8>>>,
    pub ipv6_addresses: Option<Seq<Seq<u16>>>,
    pub gpg_key_public: Seq<char>,
    pub sync_interval: u64,
    pub updated_at_timestamp: u64,
}

pub open spec fn ipv4_views(v: Seq<Ipv4Address>) -> Seq<Seq<u8>> {
    v.map_values(|a: Ipv4Address| a@)
}

pub open spec fn ipv6_views(v: Seq<Ipv6Address>) -> Seq<Seq<u16>> {
    v.map_values(|a: Ipv6Address| a@)
}

pub open spec fn ipv4_list_view(o: Option<Vec<Ipv4Address>>) -> Option<Seq<Seq<u8>>> {
    match o {
        Some(v) => Some(ipv4_views(v@)),
        None => None,
    }
}

pub open spec fn ipv6_list_view(o: Option<Vec<Ipv6Address>>) -> Option<Seq<Seq<u16>>> {
    match o {
        Some(v) => Some(ipv6_views(v@)),
        None => None,
    }
}

impl View for CollaboratorRecord {
    type V = RecordModel;

    open spec fn view(&self) -> RecordModel {
        RecordModel {
            user_name: self.user_name@,
            user_salt_list: self.user_salt_list@,
            ipv4_addresses: ipv4_list_view(self.ipv4_addresses),
            ipv6_addresses: ipv6_list_view(self.ipv6_addresses),
            gpg_key_public: self.gpg_key_public@,
            sync_interval: self.sync_interval,
            updated_at_timestamp: self.updated_at_timestamp,
        }
    }
}

/// A record that the decoder can produce: both integers fit the signed
/// 64-bit range of the text format, and an address list that is present is
/// not empty and holds addresses of four octets, or of eight segments.
pub open spec fn record_valid(r: RecordModel) -> bool {
    &&& r.sync_interval <= i64::MAX
    &&& r.updated_at_timestamp <= i64::MAX
    &&& (r.ipv4_addresses matches Some(v) ==> v.len() > 0 && forall|i: int|
        0 <= i < v.len() ==> (#[trigger] v[i]).len() == 4)
    &&& (r.ipv6_addresses matches Some(v) ==> v.len() > 0 && forall|i: int|
        0 <= i < v.len() ==> (#[trigger] v[i]).len() == 8)
}

/// The kinds of failure.
#[derive(Clone, Copy, Debug, PartialEq, Eq, Structural)]
pub enum ErrorKind {
    /// A source could not be read, or the directory of sources not opened.
    IoFailure,
    /// The text is no table, or no valid document at all.
    MalformedTable,
    /// A required key is absent.
    MissingField,
    /// A key holds a value of the wrong type.
    WrongFieldType,
    /// A salt is no valid base-16 number of at most 128 bits.
    InvalidHexInteger,
    /// An address is no valid address; it is skipped.
    InvalidAddressFormat,
    /// An integer is negative.
    IntegerOutOfRange,
}

/// A failure with its detail: the key concerned, or what the reader said.
#[derive(Clone, Debug, PartialEq, Eq)]
pub struct DecodeError {
    pub kind: ErrorKind,
    pub detail: String,
}

impl View for DecodeError {
    type V = (ErrorKind, Seq<char>);

    open spec fn view(&self) -> (ErrorKind, Seq<char>) {
        (self.kind, self.detail@)
    }
}

impl DecodeError {
    pub fn new(kind: ErrorKind, detail: &str) -> (r: DecodeError)
        ensures
            r@ == (kind, detail@),
    {
        DecodeError { kind, detail: String::from_str(detail) }
    }
}

pub open spec fn record_views(v: Seq<CollaboratorRecord>) -> Seq<RecordModel> {
    v.map_values(|r: CollaboratorRecord| r@)
}

pub open spec fn error_views(v: Seq<DecodeError>) -> Seq<(ErrorKind, Seq<char>)> {
    v.map_values(|e: DecodeError| e@)
}

} // verus!
