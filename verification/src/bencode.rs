//! Bencoded values as plain data, and the calls that encode and decode
//! them.
use vstd::prelude::*;
use vstd::string::StrSliceExecFns;

use crate::bscan::bencode_well_formed;

verus! {

/// A bencoded value: an integer, a byte string, a list, or a dictionary
/// whose entries keep the order they were read or are to be written in.
#[derive(Debug)]
pub enum BValue {
    Integer(i64),
    Bytes(Vec<u8>),
    List(Vec<BValue>),
    Dict(Vec<(Vec<u8>, BValue)>),
}

/// A bencoded value as a mathematical object.
pub enum BView {
    Integer(i64),
    Bytes(Seq<u8>),
    List(Seq<BView>),
    Dict(Seq<(Seq<u8>, BView)>),
}

impl BValue {
    /// The value with its byte strings and lists as sequences.
    pub open spec fn view(&self) -> BView
        decreases self,
    {
        match self {
            BValue::Integer(i) => BView::Integer(*i),
            BValue::Bytes(b) => BView::Bytes(b@),
            BValue::List(l) => BView::List(
                Seq::new(
                    l@.len(),
                    |i: int|
                        if 0 <= i < l@.len() {
                            proof {
                                assert(decreases_to!(self => l));
                                assert(decreases_to!(l => l@));
                                assert(decreases_to!(l@ => l@[i]));
                            }
                            l@[i].view()
                        } else {
                            BView::Integer(0)
                        },
                ),
            ),
            BValue::Dict(d) => BView::Dict(
                Seq::new(
                    d@.len(),
                    |i: int|
                        if 0 <= i < d@.len() {
                            proof {
                                assert(decreases_to!(self => d));
                                assert(decreases_to!(d => d@));
                                assert(decreases_to!(d@ => d@[i]));
                                assert(decreases_to!(d@[i] => d@[i].1));
                            }
                            (d@[i].0@, d@[i].1.view())
                        } else {
                            (Seq::empty(), BView::Integer(0))
                        },
                ),
            ),
        }
    }
}

#[verifier::external_type_specification]
#[verifier::external_body]
pub struct ExRbitValue(rbit::Value);

#[verifier::external_type_specification]
#[verifier::external_body]
pub struct ExSerdeBencodeValue(serde_bencode::value::Value);

/// What `rbit::decode` makes of a byte string: `None` where it reports an
/// error.
pub uninterp spec fn spec_rbit_decode(data: Seq<u8>) -> Option<BView>;

/// The bytes `serde_bencode::to_bytes` writes for a value: `None` where it
/// reports an error.
pub uninterp spec fn spec_bencode_encode(v: BView) -> Option<Seq<u8>>;

/// Copies an `rbit::Value` into a `BValue`, variant for variant; the
/// entries of a dictionary come in the order of its keys.
#[verifier::external_body]
fn value_from_rbit(v: &rbit::Value) -> BValue {
    match v {
        rbit::Value::Integer(i) => BValue::Integer(*i),
        rbit::Value::Bytes(b) => BValue::Bytes(b.to_vec()),
        rbit::Value::List(l) => BValue::List(l.iter().map(value_from_rbit).collect()),
        rbit::Value::Dict(d) => BValue::Dict(
            d.iter().map(|(k, x)| (k.to_vec(), value_from_rbit(x))).collect(),
        ),
    }
}

/// Copies a `BValue` into a `serde_bencode` value, variant for variant; a
/// dictionary becomes a hash map, where a later entry replaces an earlier
/// one of the same key.
#[verifier::external_body]
fn value_to_serde(v: &BValue) -> serde_bencode::value::Value {
    match v {
        BValue::Integer(i) => serde_bencode::value::Value::Int(*i),
        BValue::Bytes(b) => serde_bencode::value::Value::Bytes(b.clone()),
        BValue::List(l) => serde_bencode::value::Value::List(l.iter().map(value_to_serde).collect()),
        BValue::Dict(d) => serde_bencode::value::Value::Dict(
            d.iter().map(|(k, x)| (k.clone(), value_to_serde(x))).collect(),
        ),
    }
}

/// `rbit::decode`: parses one complete bencoded value. Its result depends
/// on the bytes alone and is named `spec_rbit_decode`. It adds a string's
/// length prefix to its position unchecked and indexes past the end after a
/// non-string key that ends the input, so it is only handed well-formed
/// bencode (see `bencode_well_formed`).
#[verifier::external_body]
pub(crate) fn bdecode(data: &[u8]) -> (r: Option<BValue>)
    requires
        bencode_well_formed(data@),
    ensures
        match r {
            Some(v) => spec_rbit_decode(data@) == Some(v@),
            None => spec_rbit_decode(data@) is None,
        },
{
    match rbit::decode(data) {
        Ok(v) => Some(value_from_rbit(&v)),
        Err(_) => None,
    }
}

/// `serde_bencode::to_bytes` on the value: the bencoding, with dictionary
/// keys sorted. Its result depends on the value alone and is named
/// `spec_bencode_encode`.
#[verifier::external_body]
pub(crate) fn bencode(v: &BValue) -> (r: Option<Vec<u8>>)
    ensures
        r matches Some(b) ==> spec_bencode_encode(v@) == Some(b@),
        r is None ==> spec_bencode_encode(v@) is None,
{
    serde_bencode::to_bytes(&value_to_serde(v)).ok()
}

/// `String::from_utf8`: the string the bytes encode, where they are valid
/// UTF-8.
#[verifier::external_body]
pub(crate) fn utf8_string(bytes: &[u8]) -> (r: Option<String>)
    ensures
        r is Some <==> vstd::utf8::valid_utf8(bytes@),
        r matches Some(s) ==> s@ == vstd::utf8::decode_utf8(bytes@),
{
    String::from_utf8(bytes.to_vec()).ok()
}

/// The value of the first entry of `d` whose key is `key`.
pub open spec fn dict_get(d: Seq<(Seq<u8>, BView)>, key: Seq<u8>) -> Option<BView>
    decreases d.len(),
{
    if d.len() == 0 {
        None
    } else if d[0].0 == key {
        Some(d[0].1)
    } else {
        dict_get(d.drop_first(), key)
    }
}

/// The entries of a dictionary, as views.
pub open spec fn dict_view(d: Seq<(Vec<u8>, BValue)>) -> Seq<(Seq<u8>, BView)> {
    Seq::new(d.len(), |i: int| (d[i].0@, d[i].1@))
}

/// The elements of a list, as views.
pub open spec fn list_view(l: Seq<BValue>) -> Seq<BView> {
    Seq::new(l.len(), |i: int| l[i]@)
}

/// The view of a dictionary or a list is made of the views of its parts.
pub proof fn lemma_view_parts(v: BValue)
    ensures
        v matches BValue::Dict(d) ==> v@ == BView::Dict(dict_view(d@)),
        v matches BValue::List(l) ==> v@ == BView::List(list_view(l@)),
{
    match v {
        BValue::Dict(d) => {
            match v@ {
                BView::Dict(dv) => assert(dv =~= dict_view(d@)),
                _ => {},
            }
        },
        BValue::List(l) => {
            match v@ {
                BView::List(lv) => assert(lv =~= list_view(l@)),
                _ => {},
            }
        },
        _ => {},
    }
}

/// Whether two strings are equal.
pub fn str_eq(a: &str, b: &str) -> (r: bool)
    ensures
        r == (a@ == b@),
{
    let n = a.unicode_len();
    if n != b.unicode_len() {
        return false;
    }
    let mut i: usize = 0;
    while i < n
        invariant
            0 <= i <= n,
            n == a@.len(),
            n == b@.len(),
            forall|j: int| 0 <= j < i ==> a@[j] == b@[j],
        decreases n - i,
    {
        if a.get_char(i) != b.get_char(i) {
            return false;
        }
        i = i + 1;
    }
    assert(a@ =~= b@);
    true
}

/// Whether two byte strings are equal.
pub fn bytes_eq(a: &[u8], b: &[u8]) -> (r: bool)
    ensures
        r == (a@ == b@),
{
    if a.len() != b.len() {
        return false;
    }
    let mut i: usize = 0;
    while i < a.len()
        invariant
            0 <= i <= a@.len(),
            a@.len() == b@.len(),
            forall|j: int| 0 <= j < i ==> a@[j] == b@[j],
        decreases a@.len() - i,
    {
        if a[i] != b[i] {
            return false;
        }
        i = i + 1;
    }
    assert(a@ =~= b@);
    true
}

/// The value of the first entry of `d` whose key is `key`.
pub fn dict_lookup<'a>(d: &'a Vec<(Vec<u8>, BValue)>, key: &[u8]) -> (r: Option<&'a BValue>)
    ensures
        match r {
            Some(v) => dict_get(dict_view(d@), key@) == Some(v@),
            None => dict_get(dict_view(d@), key@) is None,
        },
{
    let mut i: usize = 0;
    let ghost dv = dict_view(d@);
    assert(dv.skip(0) =~= dv);
    while i < d.len()
        invariant
            0 <= i <= d@.len(),
            dv == dict_view(d@),
            dict_get(dv, key@) == dict_get(dv.skip(i as int), key@),
        decreases d@.len() - i,
    {
        assert(dv.skip(i as int).drop_first() =~= dv.skip(i + 1));
        assert(dv.skip(i as int)[0] == (d@[i as int].0@, d@[i as int].1@));
        if bytes_eq(d[i].0.as_slice(), key) {
            return Some(&d[i].1);
        }
        i = i + 1;
    }
    None
}

} // verus!
