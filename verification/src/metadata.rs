//! Fetching a torrent's metadata from a peer (BEP-9 `ut_metadata`): the
//! exchange as a state machine, and the parsing of the info dictionary.
use sha1::Digest;
use std::collections::BTreeMap;
use vstd::prelude::*;
use vstd::string::StringExecFns;

use crate::bencode::{
    str_eq, bdecode, dict_get, dict_lookup, dict_view, lemma_view_parts, list_view, spec_rbit_decode,
    utf8_string, BValue, BView,
};
use crate::bscan::{bencode_dict_prefix, bencode_well_formed, check_bencode, check_bencode_dict_prefix};
use crate::types::FileInfo;

verus! {

/// Settings of a metadata fetch: the time it may take.
#[derive(Clone, Debug)]
pub struct RbitFetcher {
    timeout_secs: u64,
}

impl RbitFetcher {
    /// A fetcher whose exchanges may last `timeout_secs` seconds; zero
    /// stands for 15 seconds.
    pub fn new(timeout_secs: u64) -> (f: Self)
        ensures
            f.timeout_secs() == if timeout_secs == 0 {
                15
            } else {
                timeout_secs
            },
    {
        RbitFetcher { timeout_secs: if timeout_secs == 0 { 15 } else { timeout_secs } }
    }

    pub closed spec fn spec_timeout_secs(&self) -> u64 {
        self.timeout_secs
    }

    /// Seconds an exchange may last.
    #[verifier::when_used_as_spec(spec_timeout_secs)]
    pub fn timeout_secs(&self) -> (t: u64)
        ensures
            t == self.spec_timeout_secs(),
    {
        self.timeout_secs
    }
}

// ---------------------------------------------------------------------------
// Calls into rbit and sha1
// ---------------------------------------------------------------------------

/// The fields of a peer's extension handshake that the exchange reads.
#[derive(Debug)]
pub struct HandshakeInfo {
    pub metadata_size: Option<i64>,
    pub extensions: Vec<(String, u8)>,
}

/// An extension table entry as text and id.
pub open spec fn ext_entry_views(exts: Seq<(String, u8)>) -> Seq<(Seq<char>, u8)> {
    exts.map_values(|e: (String, u8)| (e.0@, e.1))
}

impl View for HandshakeInfo {
    type V = (Option<i64>, Seq<(Seq<char>, u8)>);

    open spec fn view(&self) -> (Option<i64>, Seq<(Seq<char>, u8)>) {
        (self.metadata_size, ext_entry_views(self.extensions@))
    }
}

/// The kind of a `ut_metadata` message.
#[derive(Debug, Clone, Copy, PartialEq, Eq, Structural)]
pub enum MetadataMsgType {
    Request,
    Data,
    Reject,
}

/// A decoded `ut_metadata` message.
#[derive(Debug)]
pub struct MetadataMsg {
    pub msg_type: MetadataMsgType,
    pub piece: u32,
    pub total_size: Option<u32>,
    pub data: Option<Vec<u8>>,
}

impl View for MetadataMsg {
    /// Kind, piece, total size and data.
    type V = (MetadataMsgType, u32, Option<u32>, Option<Seq<u8>>);

    open spec fn view(&self) -> (MetadataMsgType, u32, Option<u32>, Option<Seq<u8>>) {
        (
            self.msg_type,
            self.piece,
            self.total_size,
            match self.data {
                Some(d) => Some(d@),
                None => None,
            },
        )
    }
}

/// What `rbit::ExtensionMessage::decode` makes of an extended message: its
/// handshake, or `None` for an error or another message.
pub uninterp spec fn spec_ext_handshake(id: u8, payload: Seq<u8>) -> Option<(Option<i64>, Seq<(Seq<char>, u8)>)>;

/// What `rbit::MetadataMessage::decode` makes of a payload.
pub uninterp spec fn spec_metadata_message(payload: Seq<u8>) -> Option<(MetadataMsgType, u32, Option<u32>, Option<Seq<u8>>)>;

/// The decimal digits of a number, as ASCII bytes.
pub open spec fn decimal(n: nat) -> Seq<u8>
    decreases n,
{
    if n < 10 {
        seq![(48 + n) as u8]
    } else {
        decimal(n / 10).push((48 + n % 10) as u8)
    }
}

/// ASCII bytes of a text.
pub open spec fn ascii(t: Seq<char>) -> Seq<u8> {
    t.map_values(|c: char| c as u8)
}

/// The request for a piece: the dictionary `{msg_type: 0, piece: piece}`
/// in bencode.
pub open spec fn metadata_request_bytes(piece: u32) -> Seq<u8> {
    ascii("d8:msg_typei0e5:piecei"@) + decimal(piece as nat) + ascii("ee"@)
}

/// The extension handshake announcing one extension under an id: the
/// dictionary `{m: {name: id}}` in bencode, the name in UTF-8.
pub open spec fn handshake_payload(name: Seq<char>, id: u8) -> Seq<u8> {
    let n = vstd::utf8::encode_utf8(name);
    ascii("d1:md"@) + decimal(n.len()) + ascii(":"@) + n + ascii("i"@) + decimal(id as nat) + ascii("eee"@)
}

/// The SHA-1 digest of a byte string.
pub uninterp spec fn spec_sha1(data: Seq<u8>) -> Seq<u8>;

/// The handshake an extended message of id 0 carries: decoded only when
/// its bytes are well-formed bencode.
pub open spec fn handshake_of(payload: Seq<u8>) -> Option<(Option<i64>, Seq<(Seq<char>, u8)>)> {
    if bencode_well_formed(payload) {
        spec_ext_handshake(0, payload)
    } else {
        None
    }
}

/// The `ut_metadata` message a payload carries: decoded only when it starts
/// with a well-formed bencoded dictionary.
pub open spec fn metadata_message_of(payload: Seq<u8>) -> Option<(MetadataMsgType, u32, Option<u32>, Option<Seq<u8>>)> {
    if bencode_dict_prefix(payload) {
        spec_metadata_message(payload)
    } else {
        None
    }
}

/// `rbit::metadata_piece_count`: the number of 16 KiB pieces of metadata
/// of the given size, rounded up.
#[verifier::external_body]
pub(crate) fn metadata_piece_count(metadata_size: usize) -> (n: usize)
    ensures
        n == (metadata_size + 16383) / 16384,
{
    rbit::metadata_piece_count(metadata_size)
}

/// `rbit::ExtensionHandshake::with_extensions(&[(name, id)]).encode()`:
/// the dictionary `{m: {name: id}}`, bencoded into a `Vec`, which does not
/// fail.
#[verifier::external_body]
pub(crate) fn encode_extension_handshake(name: &str, id: u8) -> (r: Option<Vec<u8>>)
    ensures
        r is Some,
        r matches Some(b) ==> b@ == handshake_payload(name@, id),
{
    rbit::ExtensionHandshake::with_extensions(&[(name, id)]).encode().ok().map(|b| b.to_vec())
}

/// `rbit::ExtensionMessage::decode(id, payload)`, when it yields a
/// handshake: its metadata size and its extension table. The decoder adds
/// a string's length prefix to its position unchecked, and indexes past the
/// end after a non-string key that ends the input, so only well-formed
/// bencode is handed to it.
#[verifier::external_body]
pub(crate) fn decode_extension_handshake(id: u8, payload: &[u8]) -> (r: Option<HandshakeInfo>)
    requires
        bencode_well_formed(payload@),
    ensures
        match r {
            Some(h) => spec_ext_handshake(id, payload@) == Some(h@),
            None => spec_ext_handshake(id, payload@) is None,
        },
{
    match rbit::peer::ExtensionMessage::decode(id, payload) {
        Ok(rbit::peer::ExtensionMessage::Handshake(hs)) => Some(HandshakeInfo {
            metadata_size: hs.metadata_size,
            extensions: hs.extensions.into_iter().collect(),
        }),
        Ok(_) => None,
        Err(_) => None,
    }
}

/// `rbit::MetadataMessage::decode(payload)`. Its scan for the end of the
/// dictionary skips string lengths unchecked before decoding that prefix,
/// so only payloads that start with a well-formed bencoded dictionary are
/// handed to it.
#[verifier::external_body]
pub(crate) fn decode_metadata_message(payload: &[u8]) -> (r: Option<MetadataMsg>)
    requires
        bencode_dict_prefix(payload@),
    ensures
        match r {
            Some(m) => spec_metadata_message(payload@) == Some(m@),
            None => spec_metadata_message(payload@) is None,
        },
{
    match rbit::MetadataMessage::decode(payload) {
        Ok(m) => Some(MetadataMsg {
            msg_type: match m.msg_type {
                rbit::MetadataMessageType::Request => MetadataMsgType::Request,
                rbit::MetadataMessageType::Data => MetadataMsgType::Data,
                rbit::MetadataMessageType::Reject => MetadataMsgType::Reject,
            },
            piece: m.piece,
            total_size: m.total_size,
            data: m.data.map(|d| d.to_vec()),
        }),
        Err(_) => None,
    }
}

/// `rbit::MetadataMessage::request(piece).encode()`: the dictionary
/// `{msg_type: 0, piece: piece}`, bencoded into a `Vec`, which does not
/// fail.
#[verifier::external_body]
pub(crate) fn encode_metadata_request(piece: u32) -> (r: Option<Vec<u8>>)
    ensures
        r is Some,
        r matches Some(b) ==> b@ == metadata_request_bytes(piece),
{
    rbit::MetadataMessage::request(piece).encode().ok().map(|b| b.to_vec())
}

/// `sha1::Sha1` over the data: its 20-byte digest.
#[verifier::external_body]
pub(crate) fn sha1_digest(data: &[u8]) -> (d: [u8; 20])
    ensures
        d@ == spec_sha1(data@),
{
    let mut hasher = sha1::Sha1::new();
    hasher.update(data);
    hasher.finalize().into()
}

// ---------------------------------------------------------------------------
// The exchange
// ---------------------------------------------------------------------------

/// The extension id this side gives `ut_metadata`.
pub const UT_METADATA_ID: u8 = 1;

/// Largest metadata accepted: 10 MiB.
pub const MAX_METADATA_SIZE: u32 = 10485760;

pub open spec fn ut_metadata_name() -> Seq<char> {
    seq!['u', 't', '_', 'm', 'e', 't', 'a', 'd', 'a', 't', 'a']
}

/// What the exchange asks of its driver next.
#[derive(Debug)]
pub enum SessionAction {
    /// Wait for the next message.
    Continue,
    /// Send this extension handshake (extended message id 0).
    SendHandshake(Vec<u8>),
    /// Send each payload as an extended message of id `ext_id`.
    SendRequests { ext_id: u8, payloads: Vec<Vec<u8>> },
    /// The metadata arrived and matches the info hash.
    Complete(Vec<u8>),
    /// The exchange failed.
    Fail,
}

/// The state of one metadata exchange.
pub struct MetadataSession {
    info_hash: [u8; 20],
    metadata_size: u32,
    remote_ut_metadata_id: u8,
    pieces: BTreeMap<u32, Vec<u8>>,
    received: u128,
    request_sent: bool,
}

/// The data of piece `k`, if received.
pub open spec fn piece_for(p: Map<u32, Seq<u8>>, k: u32) -> Option<Seq<u8>> {
    if p.contains_key(k) {
        Some(p[k])
    } else {
        None
    }
}

/// The pieces after piece `k` arrived with `data`: a piece received again
/// replaces the earlier one.
pub open spec fn insert_piece(p: Map<u32, Seq<u8>>, k: u32, data: Seq<u8>) -> Map<u32, Seq<u8>> {
    p.insert(k, data)
}

/// Bytes held by the pieces numbered below `n`.
pub open spec fn len_below(p: Map<u32, Seq<u8>>, n: nat) -> nat
    decreases n,
{
    if n == 0 {
        0
    } else {
        len_below(p, (n - 1) as nat) + match piece_for(p, (n - 1) as u32) {
            Some(d) => d.len(),
            None => 0,
        }
    }
}

/// Total bytes received.
pub open spec fn received_len(p: Map<u32, Seq<u8>>) -> nat {
    len_below(p, 0x1_0000_0000)
}

/// Pieces `0..count` joined in order, if all arrived.
pub open spec fn assemble(p: Map<u32, Seq<u8>>, count: nat) -> Option<Seq<u8>>
    decreases count,
{
    if count == 0 {
        Some(Seq::empty())
    } else {
        match assemble(p, (count - 1) as nat) {
            Some(prefix) => match piece_for(p, (count - 1) as u32) {
                Some(d) => Some(prefix + d),
                None => None,
            },
            None => None,
        }
    }
}

/// The request payloads for pieces `0..count`, in order.
pub open spec fn request_payloads(count: nat) -> Seq<Seq<u8>> {
    Seq::new(count, |i: int| metadata_request_bytes(i as u32))
}

/// The id the extension table gives an extension name (the first entry).
pub open spec fn ext_lookup(exts: Seq<(Seq<char>, u8)>, name: Seq<char>) -> Option<u8>
    decreases exts.len(),
{
    if exts.len() == 0 {
        None
    } else if exts[0].0 == name {
        Some(exts[0].1)
    } else {
        ext_lookup(exts.drop_first(), name)
    }
}

/// Number of pieces of metadata of `size` bytes.
pub open spec fn piece_count(size: u32) -> nat {
    ((size + 16383) / 16384) as nat
}

/// The metadata size after a handshake: a size it gives, cut to 32 bits,
/// replaces the one known.
pub open spec fn size_after(old_size: u32, hs: Option<(Option<i64>, Seq<(Seq<char>, u8)>)>) -> u32 {
    match hs {
        Some(h) => match h.0 {
            Some(v) => v as u32,
            None => old_size,
        },
        None => old_size,
    }
}

/// The peer's `ut_metadata` id after a handshake.
pub open spec fn ext_id_after(old_id: u8, hs: Option<(Option<i64>, Seq<(Seq<char>, u8)>)>) -> u8 {
    match hs {
        Some(h) => match ext_lookup(h.1, ut_metadata_name()) {
            Some(e) => e,
            None => old_id,
        },
        None => old_id,
    }
}

proof fn lemma_len_below_empty(n: nat)
    ensures
        len_below(Map::<u32, Seq<u8>>::empty(), n) == 0,
    decreases n,
{
    if n > 0 {
        lemma_len_below_empty((n - 1) as nat);
    }
}

proof fn lemma_len_below_insert(p: Map<u32, Seq<u8>>, k: u32, d: Seq<u8>, n: nat)
    requires
        n <= 0x1_0000_0000,
    ensures
        len_below(p.insert(k, d), n) + (if k < n && p.contains_key(k) {
            p[k].len()
        } else {
            0
        }) == len_below(p, n) + (if k < n {
            d.len()
        } else {
            0
        }),
    decreases n,
{
    if n > 0 {
        lemma_len_below_insert(p, k, d, (n - 1) as nat);
        let j = (n - 1) as u32;
        assert(j as int == n - 1);
        if j == k {
            assert(p.insert(k, d).contains_key(j) && p.insert(k, d)[j] == d);
        } else {
            assert(p.insert(k, d).contains_key(j) == p.contains_key(j));
            if p.contains_key(j) {
                assert(p.insert(k, d)[j] == p[j]);
            }
        }
    }
}

proof fn lemma_len_below_bound(p: Map<u32, Seq<u8>>, n: nat)
    requires
        n <= 0x1_0000_0000,
        forall|k: u32| p.contains_key(k) ==> #[trigger] p[k].len() <= 0xFFFF_FFFF_FFFF_FFFF,
    ensures
        len_below(p, n) <= n * 0x1_0000_0000_0000_0000,
    decreases n,
{
    if n > 0 {
        lemma_len_below_bound(p, (n - 1) as nat);
        let j = (n - 1) as u32;
        if p.contains_key(j) {
            assert(p[j].len() <= 0xFFFF_FFFF_FFFF_FFFF);
        }
        assert(len_below(p, (n - 1) as nat) + 0x1_0000_0000_0000_0000 <= n * 0x1_0000_0000_0000_0000)
            by (nonlinear_arith)
            requires
                len_below(p, (n - 1) as nat) <= (n - 1) * 0x1_0000_0000_0000_0000,
                n > 0,
        ;
    }
}

/// `u32` keys obey the order laws that `BTreeMap`'s contracts ask for.
pub open spec fn u32_keys_ordered() -> bool {
    vstd::laws_cmp::obeys_cmp::<u32>()
}

/// Keys of the piece map are ordered as integers are.
proof fn lemma_u32_keys()
    ensures
        u32_keys_ordered(),
{
    broadcast use vstd::laws_cmp::group_laws_cmp;
}

proof fn lemma_assemble_none(p: Map<u32, Seq<u8>>, k: nat, n: nat)
    requires
        assemble(p, k) is None,
        k <= n,
    ensures
        assemble(p, n) is None,
    decreases n - k,
{
    if n > k {
        lemma_assemble_none(p, k, (n - 1) as nat);
    }
}

fn lookup_extension(exts: &Vec<(String, u8)>, name: &str) -> (r: Option<u8>)
    ensures
        r == ext_lookup(ext_entry_views(exts@), name@),
{
    let ghost v = ext_entry_views(exts@);
    let mut i: usize = 0;
    assert(v.skip(0) =~= v);
    while i < exts.len()
        invariant
            0 <= i <= exts@.len(),
            v == ext_entry_views(exts@),
            ext_lookup(v, name@) == ext_lookup(v.skip(i as int), name@),
        decreases exts@.len() - i,
    {
        assert(v.skip(i as int).drop_first() =~= v.skip(i + 1));
        assert(v.skip(i as int)[0] == (exts@[i as int].0@, exts@[i as int].1));
        if str_eq(exts[i].0.as_str(), name) {
            return Some(exts[i].1);
        }
        i = i + 1;
    }
    None
}

impl MetadataSession {
    pub closed spec fn spec_info_hash(&self) -> Seq<u8> {
        self.info_hash@
    }

    /// The metadata size the peer announced (0 until it does).
    pub closed spec fn spec_metadata_size(&self) -> u32 {
        self.metadata_size
    }

    /// The peer's id for `ut_metadata` (0 until it gives one).
    pub closed spec fn spec_remote_id(&self) -> u8 {
        self.remote_ut_metadata_id
    }

    pub closed spec fn spec_pieces(&self) -> Map<u32, Seq<u8>> {
        self.pieces@.map_values(|v: Vec<u8>| v@)
    }

    pub closed spec fn spec_request_sent(&self) -> bool {
        self.request_sent
    }

    pub closed spec fn wf(&self) -> bool {
        &&& self.received == received_len(self.spec_pieces())
        &&& forall|k: u32| self.spec_pieces().contains_key(k) ==> #[trigger] self.spec_pieces()[k].len() <= usize::MAX
    }

    /// A fresh exchange for the torrent of this info hash.
    pub fn new(info_hash: [u8; 20]) -> (s: Self)
        ensures
            s.wf(),
            s.spec_info_hash() == info_hash@,
            s.spec_metadata_size() == 0,
            s.spec_remote_id() == 0,
            s.spec_pieces() == Map::<u32, Seq<u8>>::empty(),
            !s.spec_request_sent(),
    {
        let s = MetadataSession {
            info_hash,
            metadata_size: 0,
            remote_ut_metadata_id: 0,
            pieces: BTreeMap::new(),
            received: 0,
            request_sent: false,
        };
        assert(s.spec_pieces() =~= Map::<u32, Seq<u8>>::empty());
        proof {
            lemma_len_below_empty(0x1_0000_0000);
        }
        s
    }

    /// The first step, once connected: a peer without the extension
    /// protocol fails the exchange; otherwise this side sends its extension
    /// handshake, announcing `ut_metadata` under id 1.
    pub fn start(&self, supports_extension: bool) -> (a: SessionAction)
        ensures
            !supports_extension ==> a is Fail,
            supports_extension ==> (a matches SessionAction::SendHandshake(b) && b@ == handshake_payload(
                ut_metadata_name(),
                UT_METADATA_ID,
            )),
    {
        if !supports_extension {
            return SessionAction::Fail;
        }
        proof {
            reveal_strlit("ut_metadata");
            assert("ut_metadata"@ =~= ut_metadata_name());
        }
        match encode_extension_handshake("ut_metadata", UT_METADATA_ID) {
            Some(b) => SessionAction::SendHandshake(b),
            None => SessionAction::Fail,
        }
    }

    /// Handles an extended message of id `id`: 0 is the peer's handshake,
    /// 1 a `ut_metadata` message addressed to this side; others change
    /// nothing.
    ///
    /// After a handshake, once both the metadata size and the peer's
    /// `ut_metadata` id are known, the requests for all pieces go out
    /// once; metadata above 10 MiB fails the exchange. Each data message
    /// records its piece; once the pieces received add up to the size,
    /// pieces `0..count` are joined, and the result completes the exchange
    /// if its SHA-1 is the info hash, and fails it otherwise. With a piece
    /// missing, the exchange waits on.
    pub fn on_extended(&mut self, id: u8, payload: &[u8]) -> (a: SessionAction)
        requires
            old(self).wf(),
        ensures
            final(self).wf(),
            final(self).spec_info_hash() == old(self).spec_info_hash(),
            id != 0 && id != UT_METADATA_ID ==> a is Continue && *final(self) == *old(self),
            id == 0 ==> {
                let hs = handshake_of(payload@);
                let size = size_after(old(self).spec_metadata_size(), hs);
                let ext = ext_id_after(old(self).spec_remote_id(), hs);
                &&& final(self).spec_metadata_size() == size
                &&& final(self).spec_remote_id() == ext
                &&& final(self).spec_pieces() == old(self).spec_pieces()
                &&& if size > 0 && ext > 0 && !old(self).spec_request_sent() {
                    if size > MAX_METADATA_SIZE {
                        a is Fail
                    } else {
                        &&& final(self).spec_request_sent()
                        &&& a matches SessionAction::SendRequests { ext_id, payloads } && ext_id == ext
                            && payloads@.map_values(|p: Vec<u8>| p@) == request_payloads(
                            piece_count(size),
                        )
                    }
                } else {
                    &&& a is Continue
                    &&& final(self).spec_request_sent() == old(self).spec_request_sent()
                }
            },
            id == UT_METADATA_ID ==> {
                let m = metadata_message_of(payload@);
                let pieces = match m {
                    Some(msg) => if msg.0 == MetadataMsgType::Data && msg.3 is Some {
                        insert_piece(old(self).spec_pieces(), msg.1, msg.3.unwrap())
                    } else {
                        old(self).spec_pieces()
                    },
                    None => old(self).spec_pieces(),
                };
                let size = old(self).spec_metadata_size();
                &&& final(self).spec_pieces() == pieces
                &&& final(self).spec_metadata_size() == size
                &&& final(self).spec_remote_id() == old(self).spec_remote_id()
                &&& final(self).spec_request_sent() == old(self).spec_request_sent()
                &&& if size > 0 && received_len(pieces) >= size {
                    match assemble(pieces, piece_count(size)) {
                        Some(d) => if spec_sha1(d) == old(self).spec_info_hash() {
                            a matches SessionAction::Complete(b) && b@ == d
                        } else {
                            a is Fail
                        },
                        None => a is Continue,
                    }
                } else {
                    a is Continue
                }
            },
    {
        if id == 0 {
            self.on_handshake(payload)
        } else if id == UT_METADATA_ID {
            self.on_metadata(payload)
        } else {
            SessionAction::Continue
        }
    }

    fn on_handshake(&mut self, payload: &[u8]) -> (a: SessionAction)
        requires
            old(self).wf(),
        ensures
            final(self).wf(),
            final(self).info_hash == old(self).info_hash,
            final(self).pieces == old(self).pieces,
            ({
                let hs = handshake_of(payload@);
                let size = size_after(old(self).spec_metadata_size(), hs);
                let ext = ext_id_after(old(self).spec_remote_id(), hs);
                &&& final(self).spec_metadata_size() == size
                &&& final(self).spec_remote_id() == ext
                &&& if size > 0 && ext > 0 && !old(self).spec_request_sent() {
                    if size > MAX_METADATA_SIZE {
                        a is Fail
                    } else {
                        &&& final(self).spec_request_sent()
                        &&& a matches SessionAction::SendRequests { ext_id, payloads } && ext_id == ext
                            && payloads@.map_values(|p: Vec<u8>| p@) == request_payloads(
                            piece_count(size),
                        )
                    }
                } else {
                    &&& a is Continue
                    &&& final(self).spec_request_sent() == old(self).spec_request_sent()
                }
            }),
    {
        let hs = if check_bencode(payload) {
            decode_extension_handshake(0, payload)
        } else {
            None
        };
        if let Some(h) = &hs {
            if let Some(size) = h.metadata_size {
                self.metadata_size = #[verifier::truncate] (size as u32);
            }
            proof {
                reveal_strlit("ut_metadata");
                assert("ut_metadata"@ =~= ut_metadata_name());
            }
            if let Some(ext_id) = lookup_extension(&h.extensions, "ut_metadata") {
                self.remote_ut_metadata_id = ext_id;
            }
        }
        if self.metadata_size > 0 && self.remote_ut_metadata_id > 0 && !self.request_sent {
            if self.metadata_size > MAX_METADATA_SIZE {
                return SessionAction::Fail;
            }
            let count = metadata_piece_count(self.metadata_size as usize);
            let mut payloads: Vec<Vec<u8>> = Vec::new();
            let mut i: usize = 0;
            while i < count
                invariant
                    0 <= i <= count,
                    count == piece_count(self.metadata_size),
                    count <= 1024,
                    payloads@.map_values(|p: Vec<u8>| p@) == request_payloads(i as nat),
                decreases count - i,
            {
                let ghost prev = payloads@;
                match encode_metadata_request(i as u32) {
                    Some(encoded) => {
                        payloads.push(encoded);
                        assert(payloads@.map_values(|p: Vec<u8>| p@) =~= prev.map_values(
                            |p: Vec<u8>| p@,
                        ).push(metadata_request_bytes(i as u32)));
                        assert(request_payloads((i + 1) as nat) =~= request_payloads(i as nat).push(
                            metadata_request_bytes(i as u32),
                        ));
                    },
                    None => {},
                }
                i = i + 1;
            }
            self.request_sent = true;
            return SessionAction::SendRequests { ext_id: self.remote_ut_metadata_id, payloads };
        }
        SessionAction::Continue
    }

    fn on_metadata(&mut self, payload: &[u8]) -> (a: SessionAction)
        requires
            old(self).wf(),
        ensures
            final(self).wf(),
            final(self).info_hash == old(self).info_hash,
            ({
                let m = metadata_message_of(payload@);
                let pieces = match m {
                    Some(msg) => if msg.0 == MetadataMsgType::Data && msg.3 is Some {
                        insert_piece(old(self).spec_pieces(), msg.1, msg.3.unwrap())
                    } else {
                        old(self).spec_pieces()
                    },
                    None => old(self).spec_pieces(),
                };
                let size = old(self).spec_metadata_size();
                &&& final(self).spec_pieces() == pieces
                &&& final(self).spec_metadata_size() == size
                &&& final(self).spec_remote_id() == old(self).spec_remote_id()
                &&& final(self).spec_request_sent() == old(self).spec_request_sent()
                &&& if size > 0 && received_len(pieces) >= size {
                    match assemble(pieces, piece_count(size)) {
                        Some(d) => if spec_sha1(d) == old(self).spec_info_hash() {
                            a matches SessionAction::Complete(b) && b@ == d
                        } else {
                            a is Fail
                        },
                        None => a is Continue,
                    }
                } else {
                    a is Continue
                }
            }),
    {
        let msg = if check_bencode_dict_prefix(payload) {
            decode_metadata_message(payload)
        } else {
            None
        };
        match msg {
            Some(m) => {
                if m.msg_type == MetadataMsgType::Data {
                    match m.data {
                        Some(data) => {
                            self.record_piece(m.piece, data);
                        },
                        None => {},
                    }
                }
            },
            None => {},
        }
        if self.metadata_size > 0 {
            let total = self.received;
            if total >= self.metadata_size as u128 {
                let count = metadata_piece_count(self.metadata_size as usize);
                match self.assemble_pieces(count) {
                    Some(full_data) => {
                        let digest = sha1_digest(full_data.as_slice());
                        if bytes20_eq(&digest, &self.info_hash) {
                            return SessionAction::Complete(full_data);
                        }
                        return SessionAction::Fail;
                    },
                    None => {},
                }
            }
        }
        SessionAction::Continue
    }

    /// Records piece `k`, replacing an earlier copy.
    fn record_piece(&mut self, k: u32, data: Vec<u8>)
        requires
            old(self).wf(),
        ensures
            final(self).wf(),
            final(self).info_hash == old(self).info_hash,
            final(self).metadata_size == old(self).metadata_size,
            final(self).remote_ut_metadata_id == old(self).remote_ut_metadata_id,
            final(self).request_sent == old(self).request_sent,
            final(self).spec_pieces() == insert_piece(old(self).spec_pieces(), k, data@),
    {
        proof {
            lemma_u32_keys();
        }
        let ghost old_map = self.spec_pieces();
        let ghost d = data@;
        let new_len = data.len() as u128;
        let replaced = self.pieces.insert(k, data);
        let old_len: u128 = match &replaced {
            Some(v) => v.len() as u128,
            None => 0,
        };
        proof {
            assert(self.spec_pieces() =~= old_map.insert(k, d));
            lemma_len_below_insert(old_map, k, d, 0x1_0000_0000);
            lemma_len_below_bound(old_map, 0x1_0000_0000);
            if old_map.contains_key(k) {
                assert(old_len == old_map[k].len());
            }
            assert forall|j: u32| self.spec_pieces().contains_key(j) implies #[trigger] self.spec_pieces()[j].len()
                <= usize::MAX by {
                if j != k {
                    assert(old_map.contains_key(j));
                }
            }
        }
        self.received = self.received + new_len - old_len;
    }

    /// Pieces `0..count` joined in order, if all arrived.
    fn assemble_pieces(&self, count: usize) -> (r: Option<Vec<u8>>)
        requires
            self.wf(),
            count <= 0x1_0000_0000,
        ensures
            match r {
                Some(d) => assemble(self.spec_pieces(), count as nat) == Some(d@),
                None => assemble(self.spec_pieces(), count as nat) is None,
            },
    {
        proof {
            lemma_u32_keys();
        }
        broadcast use vstd::std_specs::btree::group_btree_axioms;
        let mut full_data: Vec<u8> = Vec::new();
        let mut i: usize = 0;
        while i < count
            invariant
                0 <= i <= count,
                self.wf(),
                count <= 0x1_0000_0000,
                u32_keys_ordered(),
                assemble(self.spec_pieces(), i as nat) == Some(full_data@),
            decreases count - i,
        {
            let key = i as u32;
            match self.pieces.get(&key) {
                Some(v) => {
                    let ghost before = full_data@;
                    assert(self.spec_pieces().contains_key(key) && self.spec_pieces()[key] == v@);
                    full_data.extend_from_slice(v.as_slice());
                    assert(full_data@ =~= before + v@);
                },
                None => {
                    assert(!self.spec_pieces().contains_key(key));
                    proof {
                        lemma_assemble_none(self.spec_pieces(), (i + 1) as nat, count as nat);
                    }
                    return None;
                },
            }
            i = i + 1;
        }
        Some(full_data)
    }
}


// ---------------------------------------------------------------------------
// The info dictionary
// ---------------------------------------------------------------------------

pub open spec fn name_key() -> Seq<u8> {
    seq![110u8, 97u8, 109u8, 101u8]
}

pub open spec fn files_key() -> Seq<u8> {
    seq![102u8, 105u8, 108u8, 101u8, 115u8]
}

pub open spec fn length_key() -> Seq<u8> {
    seq![108u8, 101u8, 110u8, 103u8, 116u8, 104u8]
}

pub open spec fn path_key() -> Seq<u8> {
    seq![112u8, 97u8, 116u8, 104u8]
}

pub open spec fn unknown_name() -> Seq<char> {
    seq!['U', 'n', 'k', 'n', 'o', 'w', 'n']
}

/// The text of a byte-string value that is valid UTF-8.
pub open spec fn value_str(v: Option<BView>) -> Option<Seq<char>> {
    match v {
        Some(BView::Bytes(b)) => if vstd::utf8::valid_utf8(b) {
            Some(vstd::utf8::decode_utf8(b))
        } else {
            None
        },
        _ => None,
    }
}

pub open spec fn value_int(v: Option<BView>) -> Option<i64> {
    match v {
        Some(BView::Integer(i)) => Some(i),
        _ => None,
    }
}

pub open spec fn value_list(v: Option<BView>) -> Option<Seq<BView>> {
    match v {
        Some(BView::List(l)) => Some(l),
        _ => None,
    }
}

/// The elements of a path list that are text; the others are skipped.
pub open spec fn path_strings(l: Seq<BView>) -> Seq<Seq<char>>
    decreases l.len(),
{
    if l.len() == 0 {
        Seq::empty()
    } else {
        let prev = path_strings(l.drop_last());
        match value_str(Some(l.last())) {
            Some(t) => prev.push(t),
            None => prev,
        }
    }
}

/// The parts joined with `/`.
pub open spec fn join_slash(parts: Seq<Seq<char>>) -> Seq<char>
    decreases parts.len(),
{
    if parts.len() == 0 {
        Seq::empty()
    } else if parts.len() == 1 {
        parts[0]
    } else {
        join_slash(parts.drop_last()) + seq!['/'] + parts.last()
    }
}

/// Where part `i` starts when parts are written one after another with a
/// separator after each: the lengths of the parts before it, plus one each.
pub open spec fn part_offset(parts: Seq<Seq<char>>, i: int) -> nat
    decreases i,
{
    if i <= 0 {
        0
    } else {
        part_offset(parts, i - 1) + parts[i - 1].len() + 1
    }
}

/// A file's path is its components with one `/` between each two in a
/// row: `n` components give the sum of their lengths plus `n - 1`
/// characters; component `i` starts at `part_offset(parts, i)`, and right
/// after each component but the last stands a `/`.
pub proof fn lemma_join_slash_layout(parts: Seq<Seq<char>>)
    requires
        parts.len() > 0,
    ensures
        join_slash(parts).len() + 1 == part_offset(parts, parts.len() as int),
        forall|i: int, j: int|
            0 <= i < parts.len() && 0 <= j < parts[i].len() ==> join_slash(parts)[part_offset(parts, i) + j]
                == #[trigger] parts[i][j],
        forall|i: int|
            0 <= i < parts.len() - 1 ==> join_slash(parts)[part_offset(parts, i) + (#[trigger] parts[i]).len() as int]
                == '/',
{
    lemma_join_len(parts);
    assert forall|i: int, j: int| 0 <= i < parts.len() && 0 <= j < parts[i].len() implies join_slash(
        parts,
    )[part_offset(parts, i) + j] == #[trigger] parts[i][j] by {
        lemma_join_char(parts, i, j);
    }
    assert forall|i: int| 0 <= i < parts.len() - 1 implies join_slash(parts)[part_offset(parts, i) + (
    #[trigger] parts[i]).len() as int] == '/' by {
        lemma_join_sep(parts, i);
    }
}

proof fn lemma_join_len(parts: Seq<Seq<char>>)
    requires
        parts.len() > 0,
    ensures
        join_slash(parts).len() + 1 == part_offset(parts, parts.len() as int),
    decreases parts.len(),
{
    let n = parts.len() as int;
    if n == 1 {
        assert(part_offset(parts, 0) == 0);
    } else {
        let p = parts.drop_last();
        lemma_join_len(p);
        lemma_part_offset_prefix(parts, p, n - 1);
    }
}

proof fn lemma_join_char(parts: Seq<Seq<char>>, i: int, j: int)
    requires
        0 <= i < parts.len(),
        0 <= j < parts[i].len(),
    ensures
        part_offset(parts, i) + j < join_slash(parts).len(),
        join_slash(parts)[part_offset(parts, i) + j] == parts[i][j],
    decreases parts.len(),
{
    let n = parts.len() as int;
    lemma_join_len(parts);
    if n == 1 {
        assert(part_offset(parts, 0) == 0);
    } else {
        let p = parts.drop_last();
        let jp = join_slash(p);
        lemma_join_len(p);
        assert(join_slash(parts) == jp + seq!['/'] + parts.last());
        lemma_part_offset_prefix(parts, p, i);
        lemma_part_offset_prefix(parts, p, n - 1);
        if i < n - 1 {
            assert(p[i] == parts[i]);
            lemma_join_char(p, i, j);
        } else {
            assert(part_offset(parts, i) == jp.len() + 1);
        }
    }
}

proof fn lemma_join_sep(parts: Seq<Seq<char>>, i: int)
    requires
        0 <= i < parts.len() - 1,
    ensures
        join_slash(parts)[part_offset(parts, i) + parts[i].len() as int] == '/',
    decreases parts.len(),
{
    let n = parts.len() as int;
    let p = parts.drop_last();
    let jp = join_slash(p);
    lemma_join_len(p);
    assert(join_slash(parts) == jp + seq!['/'] + parts.last());
    lemma_part_offset_prefix(parts, p, i);
    lemma_part_offset_prefix(parts, p, i + 1);
    lemma_part_offset_prefix(parts, p, n - 1);
    assert(p[i] == parts[i]);
    if i < n - 2 {
        lemma_part_offset_mono(p, i + 2, n - 1);
        assert(part_offset(p, i + 1) == part_offset(p, i) + p[i].len() + 1);
        assert(part_offset(p, i + 2) == part_offset(p, i + 1) + p[i + 1].len() + 1);
        lemma_join_sep(p, i);
    } else {
        assert(part_offset(p, i + 1) == part_offset(p, i) + p[i].len() + 1);
    }
}

proof fn lemma_part_offset_prefix(parts: Seq<Seq<char>>, p: Seq<Seq<char>>, k: int)
    requires
        0 <= k <= p.len(),
        p.len() <= parts.len(),
        forall|i: int| 0 <= i < p.len() ==> p[i] == parts[i],
    ensures
        part_offset(parts, k) == part_offset(p, k),
    decreases k,
{
    if k > 0 {
        lemma_part_offset_prefix(parts, p, k - 1);
        assert(p[k - 1] == parts[k - 1]);
    }
}

proof fn lemma_part_offset_mono(parts: Seq<Seq<char>>, i: int, k: int)
    requires
        0 <= i <= k,
    ensures
        part_offset(parts, i) <= part_offset(parts, k),
    decreases k - i,
{
    if i < k {
        lemma_part_offset_mono(parts, i, k - 1);
    }
}

/// A file of a multi-file torrent: a dictionary with an integer `length`
/// (read as a `u64`) and a `path` list.
pub open spec fn file_entry(f: BView) -> Option<(Seq<char>, u64)> {
    match f {
        BView::Dict(fd) => match value_int(dict_get(fd, length_key())) {
            Some(len) => Some(
                (
                    join_slash(
                        match value_list(dict_get(fd, path_key())) {
                            Some(pl) => path_strings(pl),
                            None => Seq::empty(),
                        },
                    ),
                    len as u64,
                ),
            ),
            None => None,
        },
        _ => None,
    }
}

/// The files of a `files` list; entries that are no file are skipped.
pub open spec fn file_entries(files: Seq<BView>) -> Seq<(Seq<char>, u64)>
    decreases files.len(),
{
    if files.len() == 0 {
        Seq::empty()
    } else {
        let prev = file_entries(files.drop_last());
        match file_entry(files.last()) {
            Some(e) => prev.push(e),
            None => prev,
        }
    }
}

/// The sum of the sizes, wrapping at 2^64.
pub open spec fn size_total(fs: Seq<(Seq<char>, u64)>) -> u64
    decreases fs.len(),
{
    if fs.len() == 0 {
        0
    } else {
        vstd::wrapping::u64_specs::wrapping_add(size_total(fs.drop_last()), fs.last().1)
    }
}

/// Name, total size and files of an info dictionary. The name is `name`
/// or `Unknown`; the files come from the `files` list, or else a single
/// file of the name and the `length`; a total size of zero gives nothing.
pub open spec fn torrent_fields(v: BView) -> Option<(Seq<char>, u64, Seq<(Seq<char>, u64)>)> {
    match v {
        BView::Dict(d) => {
            let name = match value_str(dict_get(d, name_key())) {
                Some(t) => t,
                None => unknown_name(),
            };
            let (total, files) = match value_list(dict_get(d, files_key())) {
                Some(fl) => (size_total(file_entries(fl)), file_entries(fl)),
                None => match value_int(dict_get(d, length_key())) {
                    Some(len) => (len as u64, seq![(name, len as u64)]),
                    None => (0u64, Seq::empty()),
                },
            };
            if total > 0 {
                Some((name, total, files))
            } else {
                None
            }
        },
        _ => None,
    }
}

/// The torrent described by metadata bytes: nothing unless they are
/// well-formed bencode (see `bencode_well_formed`); else as `rbit` reads them.
pub open spec fn parse_torrent_info_spec(data: Seq<u8>) -> Option<(Seq<char>, u64, Seq<(Seq<char>, u64)>)> {
    if !bencode_well_formed(data) {
        None
    } else {
        match spec_rbit_decode(data) {
            Some(v) => torrent_fields(v),
            None => None,
        }
    }
}

pub open spec fn file_views(fs: Seq<FileInfo>) -> Seq<(Seq<char>, u64)> {
    fs.map_values(|f: FileInfo| f@)
}

fn value_text(v: Option<&BValue>) -> (r: Option<String>)
    ensures
        match r {
            Some(t) => value_str(match v { Some(x) => Some(x@), None => None }) == Some(t@),
            None => value_str(match v { Some(x) => Some(x@), None => None }) is None,
        },
{
    match v {
        Some(BValue::Bytes(b)) => utf8_string(b.as_slice()),
        _ => None,
    }
}

fn join_parts(parts: &Vec<String>) -> (r: String)
    ensures
        r@ == join_slash(parts@.map_values(|p: String| p@)),
{
    let ghost views = parts@.map_values(|p: String| p@);
    let mut out = String::new();
    proof {
        reveal_strlit("/");
    }
    let mut i: usize = 0;
    while i < parts.len()
        invariant
            0 <= i <= parts@.len(),
            views == parts@.map_values(|p: String| p@),
            out@ == join_slash(views.take(i as int)),
            "/"@ == seq!['/'],
        decreases parts@.len() - i,
    {
        assert(views.take(i + 1).drop_last() =~= views.take(i as int));
        if i > 0 {
            out.append("/");
        }
        out.append(parts[i].as_str());
        proof {
            if i == 0 {
                assert(out@ =~= views.take(1)[0]);
            } else {
                assert(out@ =~= join_slash(views.take(i as int)) + seq!['/'] + views.take(i + 1).last());
            }
        }
        i = i + 1;
    }
    assert(views.take(parts@.len() as int) =~= views);
    out
}

fn file_of(f: &BValue) -> (r: Option<FileInfo>)
    ensures
        match r {
            Some(fi) => file_entry(f@) == Some(fi@),
            None => file_entry(f@) is None,
        },
{
    proof {
        lemma_view_parts(*f);
    }
    let length_key_bytes: [u8; 6] = [108, 101, 110, 103, 116, 104];
    let path_key_bytes: [u8; 4] = [112, 97, 116, 104];
    assert(length_key_bytes@ =~= length_key());
    assert(path_key_bytes@ =~= path_key());
    match f {
        BValue::Dict(fd) => {
            match dict_lookup(fd, &length_key_bytes) {
                Some(BValue::Integer(len)) => {
                    let size = #[verifier::truncate] (*len as u64);
                    let mut parts: Vec<String> = Vec::new();
                    match dict_lookup(fd, &path_key_bytes) {
                        Some(path_value) => {
                            proof {
                                lemma_view_parts(*path_value);
                            }
                            match path_value {
                                BValue::List(pl) => {
                            let ghost lv = list_view(pl@);
                            let mut i: usize = 0;
                            while i < pl.len()
                                invariant
                                    0 <= i <= pl@.len(),
                                    lv == list_view(pl@),
                                    parts@.map_values(|p: String| p@) == path_strings(lv.take(i as int)),
                                decreases pl@.len() - i,
                            {
                                assert(lv.take(i + 1).drop_last() =~= lv.take(i as int));
                                assert(lv.take(i + 1).last() == pl@[i as int]@);
                                let ghost prev = parts@;
                                match value_text(Some(&pl[i])) {
                                    Some(t) => {
                                        parts.push(t);
                                        assert(parts@.map_values(|p: String| p@) =~= prev.map_values(
                                            |p: String| p@,
                                        ).push(t@));
                                    },
                                    None => {},
                                }
                                i = i + 1;
                            }
                            assert(lv.take(pl@.len() as int) =~= lv);
                                },
                                _ => {
                                    assert(parts@.map_values(|p: String| p@) =~= Seq::<Seq<char>>::empty());
                                },
                            }
                        },
                        None => {
                            assert(parts@.map_values(|p: String| p@) =~= Seq::<Seq<char>>::empty());
                        },
                    }
                    let path = join_parts(&parts);
                    Some(FileInfo { path, size })
                },
                _ => None,
            }
        },
        _ => None,
    }
}

/// Name, total size and files of an info dictionary (see
/// `torrent_fields`).
pub fn torrent_fields_of(v: &BValue) -> (r: Option<(String, u64, Vec<FileInfo>)>)
    ensures
        match r {
            Some((n, t, fs)) => torrent_fields(v@) == Some((n@, t, file_views(fs@))),
            None => torrent_fields(v@) is None,
        },
{
    proof {
        lemma_view_parts(*v);
    }
    let name_key_bytes: [u8; 4] = [110, 97, 109, 101];
    let files_key_bytes: [u8; 5] = [102, 105, 108, 101, 115];
    let length_key_bytes: [u8; 6] = [108, 101, 110, 103, 116, 104];
    assert(name_key_bytes@ =~= name_key());
    assert(files_key_bytes@ =~= files_key());
    assert(length_key_bytes@ =~= length_key());
    match v {
        BValue::Dict(d) => {
            let name = match value_text(dict_lookup(d, &name_key_bytes)) {
                Some(t) => t,
                None => {
                    proof {
                        reveal_strlit("Unknown");
                    }
                    let u = String::from_str("Unknown");
                    assert(u@ =~= unknown_name());
                    u
                },
            };
            let mut total_size: u64 = 0;
            let mut file_list: Vec<FileInfo> = Vec::new();
            let files_value = dict_lookup(d, &files_key_bytes);
            proof {
                match files_value {
                    Some(fv) => lemma_view_parts(*fv),
                    None => {},
                }
            }
            match files_value {
                Some(BValue::List(files)) => {
                    let ghost fl = list_view(files@);
                    let mut i: usize = 0;
                    while i < files.len()
                        invariant
                            0 <= i <= files@.len(),
                            fl == list_view(files@),
                            file_views(file_list@) == file_entries(fl.take(i as int)),
                            total_size == size_total(file_entries(fl.take(i as int))),
                        decreases files@.len() - i,
                    {
                        assert(fl.take(i + 1).drop_last() =~= fl.take(i as int));
                        assert(fl.take(i + 1).last() == files@[i as int]@);
                        let ghost prev = file_list@;
                        match file_of(&files[i]) {
                            Some(fi) => {
                                let ghost es = file_entries(fl.take(i as int));
                                assert(file_entries(fl.take(i + 1)) == es.push(fi@));
                                assert(es.push(fi@).drop_last() =~= es);
                                total_size = total_size.wrapping_add(fi.size);
                                file_list.push(fi);
                                assert(file_views(file_list@) =~= file_views(prev).push(fi@));
                            },
                            None => {},
                        }
                        i = i + 1;
                    }
                    assert(fl.take(files@.len() as int) =~= fl);
                },
                _ => {
                    match dict_lookup(d, &length_key_bytes) {
                        Some(BValue::Integer(len)) => {
                            total_size = #[verifier::truncate] (*len as u64);
                            file_list.push(FileInfo { path: name.clone(), size: total_size });
                            assert(file_views(file_list@) =~= seq![(name@, total_size)]);
                        },
                        _ => {
                            assert(file_views(file_list@) =~= Seq::<(Seq<char>, u64)>::empty());
                        },
                    }
                },
            }
            if total_size > 0 {
                Some((name, total_size, file_list))
            } else {
                None
            }
        },
        _ => None,
    }
}

/// The torrent that metadata bytes describe: well-formed bytes are decoded
/// with `rbit::decode` and read as an info dictionary (see
/// `torrent_fields`); others describe nothing.
pub fn parse_torrent_info(data: &[u8]) -> (r: Option<(String, u64, Vec<FileInfo>)>)
    ensures
        match r {
            Some((n, t, fs)) => parse_torrent_info_spec(data@) == Some((n@, t, file_views(fs@))),
            None => parse_torrent_info_spec(data@) is None,
        },
{
    if !check_bencode(data) {
        return None;
    }
    match bdecode(data) {
        Some(v) => torrent_fields_of(&v),
        None => None,
    }
}

fn bytes20_eq(a: &[u8; 20], b: &[u8; 20]) -> (r: bool)
    ensures
        r == (a@ == b@),
{
    let mut i: usize = 0;
    while i < 20
        invariant
            0 <= i <= 20,
            forall|j: int| 0 <= j < i ==> a@[j] == b@[j],
        decreases 20 - i,
    {
        if a[i] != b[i] {
            return false;
        }
        i = i + 1;
    }
    assert(a@ =~= b@);
    true
}

} // verus!
