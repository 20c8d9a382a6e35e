//! Writing a record as canonical TOML text.

use vstd::prelude::*;
use crate::hex::{push_salt, salt_text};
use crate::ipv4::{ipv4_text, push_ipv4, Ipv4Address};
use crate::ipv6::{ipv6_text, push_ipv6, Ipv6Address};
use crate::record::{CollaboratorRecord, RecordModel};
use crate::text::{decimal_text, push_decimal, push_text};

verus! {

/// An address that has a standard textual form.
pub trait AddressText: Sized {
    spec fn text_of(&self) -> Seq<char>;

    /// Appends the textual form of the address to `s`.
    fn push_text_to(&self, s: &mut String)
        ensures
            final(s)@ == old(s)@ + self.text_of(),
    ;
}

impl AddressText for Ipv4Address {
    open spec fn text_of(&self) -> Seq<char> {
        ipv4_text(self@)
    }

    fn push_text_to(&self, s: &mut String) {
        push_ipv4(s, self);
    }
}

impl AddressText for Ipv6Address {
    open spec fn text_of(&self) -> Seq<char> {
        ipv6_text(self@)
    }

    fn push_text_to(&self, s: &mut String) {
        push_ipv6(s, self);
    }
}

/// One element line of an array block: the text quoted, indented, with a
/// trailing comma.
pub open spec fn element_line(t: Seq<char>) -> Seq<char> {
    "    \""@ + t + "\",\n"@
}

/// The element lines of texts, in order.
pub open spec fn element_lines(ts: Seq<Seq<char>>) -> Seq<char>
    decreases ts.len(),
{
    if ts.len() == 0 {
        Seq::empty()
    } else {
        element_lines(ts.drop_last()) + element_line(ts.last())
    }
}

/// The array block of an optional list of texts; nothing where it is no value.
pub open spec fn array_block(key: Seq<char>, ts: Option<Seq<Seq<char>>>) -> Seq<char> {
    match ts {
        None => Seq::empty(),
        Some(t) => key + " = [\n"@ + element_lines(t) + "]\n"@,
    }
}

pub open spec fn ipv4_texts(o: Option<Seq<Seq<u8>>>) -> Option<Seq<Seq<char>>> {
    match o {
        None => None,
        Some(v) => Some(v.map_values(|a: Seq<u8>| ipv4_text(a))),
    }
}

pub open spec fn ipv6_texts(o: Option<Seq<Seq<u16>>>) -> Option<Seq<Seq<char>>> {
    match o {
        None => None,
        Some(v) => Some(v.map_values(|a: Seq<u16>| ipv6_text(a))),
    }
}

/// The canonical text of a record: strings quoted as they are, salts in
/// lower-case hexadecimal after `0x` one per line, address lists one per
/// line and left out where they are no value, integers in decimal.
pub open spec fn encoding(r: RecordModel) -> Seq<char> {
    "user_name = \""@ + r.user_name + "\"\n"@
        + "user_salt_list = [\n"@ + element_lines(r.user_salt_list.map_values(|x: u128| salt_text(x)))
        + "]\n"@
        + array_block("ipv4_addresses"@, ipv4_texts(r.ipv4_addresses))
        + array_block("ipv6_addresses"@, ipv6_texts(r.ipv6_addresses))
        + "gpg_key_public = \""@ + r.gpg_key_public + "\"\n"@
        + "sync_interval = "@ + decimal_text(r.sync_interval as nat) + "\n"@
        + "updated_at_timestamp = "@ + decimal_text(r.updated_at_timestamp as nat) + "\n"@
}

/// The texts of an optional list of addresses.
pub open spec fn address_texts<T: AddressText>(o: Option<Vec<T>>) -> Option<Seq<Seq<char>>> {
    match o {
        None => None,
        Some(v) => Some(v@.map_values(|a: T| a.text_of())),
    }
}

/// Appends the array block of an optional address list to `out`: the key,
/// then one quoted address per line; nothing where the list is no value.
pub fn serialize_ip_addresses<T: AddressText>(
    out: &mut String,
    key: &str,
    addresses: &Option<Vec<T>>,
)
    ensures
        final(out)@ == old(out)@ + array_block(key@, address_texts(*addresses)),
{
    match addresses {
        None => {
            assert(old(out)@ + Seq::<char>::empty() =~= old(out)@);
        },
        Some(v) => {
            let ghost start = out@;
            let ghost texts = v@.map_values(|a: T| a.text_of());
            push_text(out, key);
            push_text(out, " = [\n");
            let ghost head = out@;
            let mut k: usize = 0;
            assert(texts.subrange(0, 0) =~= Seq::<Seq<char>>::empty());
            assert(head + element_lines(texts.subrange(0, 0)) =~= head);
            while k < v.len()
                invariant
                    k <= v@.len(),
                    texts == v@.map_values(|a: T| a.text_of()),
                    out@ == head + element_lines(texts.subrange(0, k as int)),
                decreases v@.len() - k,
            {
                let ghost next = texts.subrange(0, k as int + 1);
                assert(next.drop_last() =~= texts.subrange(0, k as int));
                let ghost before = out@;
                push_text(out, "    \"");
                v[k].push_text_to(out);
                push_text(out, "\",\n");
                assert(out@ =~= before + element_line(texts[k as int]));
                k = k + 1;
            }
            assert(texts.subrange(0, v@.len() as int) =~= texts);
            push_text(out, "]\n");
            assert(out@ =~= start + array_block(key@, address_texts(*addresses)));
        },
    }
}

/// Writes a record as canonical TOML text.
pub fn serialize_collaborator_to_toml(collaborator: &CollaboratorRecord) -> (r: String)
    ensures
        r@ == encoding(collaborator@),
{
    let c = collaborator;
    let mut out = String::new();
    push_text(&mut out, "user_name = \"");
    push_text(&mut out, c.user_name.as_str());
    push_text(&mut out, "\"\n");
    push_text(&mut out, "user_salt_list = [\n");
    let ghost head = out@;
    let ghost salts = c.user_salt_list@.map_values(|x: u128| salt_text(x));
    let mut k: usize = 0;
    assert(salts.subrange(0, 0) =~= Seq::<Seq<char>>::empty());
    assert(head + element_lines(salts.subrange(0, 0)) =~= head);
    while k < c.user_salt_list.len()
        invariant
            k <= c.user_salt_list@.len(),
            salts == c.user_salt_list@.map_values(|x: u128| salt_text(x)),
            out@ == head + element_lines(salts.subrange(0, k as int)),
        decreases c.user_salt_list@.len() - k,
    {
        let ghost next = salts.subrange(0, k as int + 1);
        assert(next.drop_last() =~= salts.subrange(0, k as int));
        let ghost before = out@;
        push_text(&mut out, "    \"");
        push_salt(&mut out, c.user_salt_list[k]);
        push_text(&mut out, "\",\n");
        assert(out@ =~= before + element_line(salts[k as int]));
        k = k + 1;
    }
    assert(salts.subrange(0, c.user_salt_list@.len() as int) =~= salts);
    push_text(&mut out, "]\n");
    serialize_ip_addresses(&mut out, "ipv4_addresses", &c.ipv4_addresses);
    serialize_ip_addresses(&mut out, "ipv6_addresses", &c.ipv6_addresses);
    push_text(&mut out, "gpg_key_public = \"");
    push_text(&mut out, c.gpg_key_public.as_str());
    push_text(&mut out, "\"\n");
    push_text(&mut out, "sync_interval = ");
    push_decimal(&mut out, c.sync_interval);
    push_text(&mut out, "\n");
    push_text(&mut out, "updated_at_timestamp = ");
    push_decimal(&mut out, c.updated_at_timestamp);
    push_text(&mut out, "\n");
    assert(address_texts(c.ipv4_addresses) == ipv4_texts(c@.ipv4_addresses)) by {
        if let Some(v) = c.ipv4_addresses {
            assert(v@.map_values(|a: Ipv4Address| a.text_of()) =~= crate::record::ipv4_views(v@).map_values(
                |a: Seq<u8>| ipv4_text(a),
            ));
        }
    }
    assert(address_texts(c.ipv6_addresses) == ipv6_texts(c@.ipv6_addresses)) by {
        if let Some(v) = c.ipv6_addresses {
            assert(v@.map_values(|a: Ipv6Address| a.text_of()) =~= crate::record::ipv6_views(v@).map_values(
                |a: Seq<u16>| ipv6_text(a),
            ));
        }
    }
    assert(out@ =~= encoding(c@));
    out
}

} // verus!
