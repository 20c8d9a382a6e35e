//! Laws that relate the decoder and the encoder.

use vstd::prelude::*;
use crate::decode::{
    decode_tree, ipv4_field, ipv4_item, ipv4_items, ipv6_field, ipv6_item,
    ipv6_items, salt_items, skipped, Failure,
};
use crate::encode::{ipv4_texts, ipv6_texts};
use crate::hex::{lemma_salt_round_trip, salt_text};
use crate::ipv4::lemma_ipv4_round_trip;
use crate::ipv6::lemma_ipv6_round_trip;
use crate::record::{record_valid, RecordModel};
use crate::tree::{lookup, Entry, TreeValue};

verus! {

/// A node that is an array of exactly the strings `ts`.
pub open spec fn holds_texts(v: Option<TreeValue>, ts: Seq<Seq<char>>) -> bool {
    v matches Some(TreeValue::Array(items)) && items@.len() == ts.len() && forall|i: int|
        0 <= i < ts.len() ==> (#[trigger] items@[i] matches TreeValue::Str(s) && s@ == ts[i])
}

/// The optional array of strings `ts`: no key where it is no value.
pub open spec fn holds_optional_texts(v: Option<TreeValue>, ts: Option<Seq<Seq<char>>>) -> bool {
    match ts {
        None => v is None,
        Some(t) => holds_texts(v, t),
    }
}

/// The tree of a document that the encoder writes for `m`: a table whose
/// keys hold the strings, arrays of strings and integers that it writes.
pub open spec fn tree_of_encoding(t: TreeValue, m: RecordModel) -> bool {
    t matches TreeValue::Table(e) && {
        &&& lookup(e@, "user_name"@) matches Some(TreeValue::Str(s)) && s@ == m.user_name
        &&& holds_texts(
            lookup(e@, "user_salt_list"@),
            m.user_salt_list.map_values(|x: u128| salt_text(x)),
        )
        &&& holds_optional_texts(lookup(e@, "ipv4_addresses"@), ipv4_texts(m.ipv4_addresses))
        &&& holds_optional_texts(lookup(e@, "ipv6_addresses"@), ipv6_texts(m.ipv6_addresses))
        &&& lookup(e@, "gpg_key_public"@) matches Some(TreeValue::Str(s)) && s@ == m.gpg_key_public
        &&& lookup(e@, "sync_interval"@) matches Some(TreeValue::Int(i)) && i == m.sync_interval
        &&& lookup(e@, "updated_at_timestamp"@) matches Some(TreeValue::Int(i)) && i
            == m.updated_at_timestamp
    }
}

proof fn lemma_salts_read_back(items: Seq<TreeValue>, xs: Seq<u128>, key: Seq<char>)
    requires
        items.len() == xs.len(),
        forall|i: int|
            0 <= i < xs.len() ==> (#[trigger] items[i] matches TreeValue::Str(s) && s@
                == salt_text(xs[i])),
    ensures
        salt_items(items, key) == Ok::<Seq<u128>, Failure>(xs),
    decreases items.len(),
{
    if items.len() > 0 {
        let n = items.len() - 1;
        assert forall|i: int| 0 <= i < n implies (#[trigger] items.drop_last()[i] matches TreeValue::Str(s)
            && s@ == salt_text(xs.drop_last()[i])) by {
            assert(items.drop_last()[i] == items[i]);
        }
        lemma_salts_read_back(items.drop_last(), xs.drop_last(), key);
        lemma_salt_round_trip(xs[n]);
        assert(items[n] matches TreeValue::Str(s) && s@ == salt_text(xs[n]));
        assert(xs.drop_last().push(xs[n]) =~= xs);
    } else {
        assert(xs =~= Seq::<u128>::empty());
    }
}

proof fn lemma_ipv4_read_back(items: Seq<TreeValue>, v: Seq<Seq<u8>>)
    requires
        items.len() == v.len(),
        forall|i: int| 0 <= i < v.len() ==> (#[trigger] v[i]).len() == 4,
        forall|i: int|
            0 <= i < v.len() ==> (#[trigger] items[i] matches TreeValue::Str(s) && s@
                == crate::ipv4::ipv4_text(v[i])),
    ensures
        ipv4_items(items) == v,
    decreases items.len(),
{
    if items.len() > 0 {
        let n = items.len() - 1;
        assert forall|i: int| 0 <= i < n implies (#[trigger] items.drop_last()[i] matches TreeValue::Str(s)
            && s@ == crate::ipv4::ipv4_text(v.drop_last()[i])) by {
            assert(items.drop_last()[i] == items[i]);
        }
        assert forall|i: int| 0 <= i < n implies (#[trigger] v.drop_last()[i]).len() == 4 by {
            assert(v.drop_last()[i] == v[i]);
        }
        lemma_ipv4_read_back(items.drop_last(), v.drop_last());
        lemma_ipv4_round_trip(v[n]);
        assert(items[n] matches TreeValue::Str(s) && s@ == crate::ipv4::ipv4_text(v[n]));
        assert(ipv4_item(items.last()) == Some(v[n]));
        assert(v.drop_last().push(v[n]) =~= v);
    } else {
        assert(v =~= Seq::<Seq<u8>>::empty());
    }
}

proof fn lemma_ipv6_read_back(items: Seq<TreeValue>, v: Seq<Seq<u16>>)
    requires
        items.len() == v.len(),
        forall|i: int| 0 <= i < v.len() ==> (#[trigger] v[i]).len() == 8,
        forall|i: int|
            0 <= i < v.len() ==> (#[trigger] items[i] matches TreeValue::Str(s) && s@
                == crate::ipv6::ipv6_text(v[i])),
    ensures
        ipv6_items(items) == v,
    decreases items.len(),
{
    if items.len() > 0 {
        let n = items.len() - 1;
        assert forall|i: int| 0 <= i < n implies (#[trigger] items.drop_last()[i] matches TreeValue::Str(s)
            && s@ == crate::ipv6::ipv6_text(v.drop_last()[i])) by {
            assert(items.drop_last()[i] == items[i]);
        }
        assert forall|i: int| 0 <= i < n implies (#[trigger] v.drop_last()[i]).len() == 8 by {
            assert(v.drop_last()[i] == v[i]);
        }
        lemma_ipv6_read_back(items.drop_last(), v.drop_last());
        lemma_ipv6_round_trip(v[n]);
        assert(items[n] matches TreeValue::Str(s) && s@ == crate::ipv6::ipv6_text(v[n]));
        assert(ipv6_item(items.last()) == Some(v[n]));
        assert(v.drop_last().push(v[n]) =~= v);
    } else {
        assert(v =~= Seq::<Seq<u16>>::empty());
    }
}

/// Round trip: the tree of the text that the encoder writes for a valid
/// record decodes to that same record, field for field and in order, with
/// no warnings.
pub proof fn lemma_round_trip(t: TreeValue, m: RecordModel)
    requires
        record_valid(m),
        tree_of_encoding(t, m),
    ensures
        decode_tree(t) == Ok::<(RecordModel, Seq<Failure>), Failure>((m, Seq::empty())),
{
    let e = t->Table_0;
    let salts = lookup(e@, "user_salt_list"@)->Some_0->Array_0;
    lemma_salts_read_back(salts@, m.user_salt_list, "user_salt_list"@);
    assert forall|i: int| 0 <= i < m.user_salt_list.len() implies (#[trigger] salts@[i] matches TreeValue::Str(
        s,
    ) && s@ == salt_text(m.user_salt_list[i])) by {
        assert(m.user_salt_list.map_values(|x: u128| salt_text(x))[i] == salt_text(m.user_salt_list[i]));
    }
    let mut w4 = Seq::<Failure>::empty();
    if let Some(v) = m.ipv4_addresses {
        let items = lookup(e@, "ipv4_addresses"@)->Some_0->Array_0;
        let ts = v.map_values(|a: Seq<u8>| crate::ipv4::ipv4_text(a));
        assert forall|i: int| 0 <= i < v.len() implies (#[trigger] items@[i] matches TreeValue::Str(s) && s@
            == crate::ipv4::ipv4_text(v[i])) by {
            assert(ts[i] == crate::ipv4::ipv4_text(v[i]));
        }
        lemma_ipv4_read_back(items@, v);
        assert(skipped(0, "ipv4_addresses"@) =~= Seq::<Failure>::empty());
    }
    if let Some(v) = m.ipv6_addresses {
        let items = lookup(e@, "ipv6_addresses"@)->Some_0->Array_0;
        let ts = v.map_values(|a: Seq<u16>| crate::ipv6::ipv6_text(a));
        assert forall|i: int| 0 <= i < v.len() implies (#[trigger] items@[i] matches TreeValue::Str(s) && s@
            == crate::ipv6::ipv6_text(v[i])) by {
            assert(ts[i] == crate::ipv6::ipv6_text(v[i]));
        }
        lemma_ipv6_read_back(items@, v);
        assert(skipped(0, "ipv6_addresses"@) =~= Seq::<Failure>::empty());
    }
    assert(Seq::<Failure>::empty() + Seq::<Failure>::empty() =~= Seq::<Failure>::empty());
}

/// An address list none of whose elements is a valid IPv4 address is no
/// value, as an absent key is; each element gives one warning.
pub proof fn lemma_invalid_ipv4_list_is_absent(t: Seq<Entry>, key: Seq<char>, items: Vec<TreeValue>)
    requires
        lookup(t, key) == Some(TreeValue::Array(items)),
        forall|i: int| 0 <= i < items@.len() ==> ipv4_item(#[trigger] items@[i]) is None,
    ensures
        ipv4_field(t, key) == Ok::<(Option<Seq<Seq<u8>>>, Seq<Failure>), Failure>(
            (None, skipped(items@.len() as int, key)),
        ),
{
    lemma_no_ipv4_items(items@);
}

/// An address list none of whose elements is a valid IPv6 address is no
/// value, as an absent key is; each element gives one warning.
pub proof fn lemma_invalid_ipv6_list_is_absent(t: Seq<Entry>, key: Seq<char>, items: Vec<TreeValue>)
    requires
        lookup(t, key) == Some(TreeValue::Array(items)),
        forall|i: int| 0 <= i < items@.len() ==> ipv6_item(#[trigger] items@[i]) is None,
    ensures
        ipv6_field(t, key) == Ok::<(Option<Seq<Seq<u16>>>, Seq<Failure>), Failure>(
            (None, skipped(items@.len() as int, key)),
        ),
{
    lemma_no_ipv6_items(items@);
}

proof fn lemma_no_ipv4_items(items: Seq<TreeValue>)
    requires
        forall|i: int| 0 <= i < items.len() ==> ipv4_item(#[trigger] items[i]) is None,
    ensures
        ipv4_items(items).len() == 0,
    decreases items.len(),
{
    if items.len() > 0 {
        assert forall|i: int| 0 <= i < items.len() - 1 implies ipv4_item(#[trigger] items.drop_last()[i]) is None by {
            assert(items.drop_last()[i] == items[i]);
        }
        lemma_no_ipv4_items(items.drop_last());
        assert(ipv4_item(items[items.len() - 1]) is None);
    }
}

proof fn lemma_no_ipv6_items(items: Seq<TreeValue>)
    requires
        forall|i: int| 0 <= i < items.len() ==> ipv6_item(#[trigger] items[i]) is None,
    ensures
        ipv6_items(items).len() == 0,
    decreases items.len(),
{
    if items.len() > 0 {
        assert forall|i: int| 0 <= i < items.len() - 1 implies ipv6_item(#[trigger] items.drop_last()[i]) is None by {
            assert(items.drop_last()[i] == items[i]);
        }
        lemma_no_ipv6_items(items.drop_last());
        assert(ipv6_item(items[items.len() - 1]) is None);
    }
}

} // verus!
