//! The crawler's options and the torrent descriptions it produces.
use vstd::prelude::*;
use vstd::string::StringExecFns;

verus! {

/// Which address families the crawler uses.
#[derive(Debug, Clone, Copy, PartialEq, Eq, Structural)]
pub enum NetMode {
    Ipv4Only,
    Ipv6Only,
    DualStack,
}

impl Default for NetMode {
    fn default() -> (m: Self)
        ensures
            m == NetMode::DualStack,
    {
        NetMode::DualStack
    }
}

/// The metadata of a torrent found on the network.
#[derive(Debug, Clone)]
pub struct TorrentInfo {
    pub info_hash: String,
    pub magnet_link: String,
    pub name: String,
    pub total_size: u64,
    pub files: Vec<FileInfo>,
    pub piece_length: u64,
    pub peers: Vec<String>,
    pub timestamp: u64,
}

/// One file of a torrent: its path and its size in bytes.
#[derive(Debug, Clone)]
pub struct FileInfo {
    pub path: String,
    pub size: u64,
}

impl View for FileInfo {
    type V = (Seq<char>, u64);

    open spec fn view(&self) -> (Seq<char>, u64) {
        (self.path@, self.size)
    }
}

impl TorrentInfo {
    /// The total size, as `format_bytes` writes it.
    pub fn format_size(&self) -> (s: String)
        ensures
            s@ == format_bytes_spec(self.total_size as nat),
    {
        format_bytes(self.total_size)
    }
}

impl FileInfo {
    /// The file size, as `format_bytes` writes it.
    pub fn format_size(&self) -> (s: String)
        ensures
            s@ == format_bytes_spec(self.size as nat),
    {
        format_bytes(self.size)
    }
}

/// The crawler's settings.
#[derive(Debug, Clone)]
pub struct DHTOptions {
    pub port: u16,
    pub auto_metadata: bool,
    pub metadata_timeout: u64,
    pub max_metadata_queue_size: usize,
    pub max_metadata_worker_count: usize,
    pub netmode: NetMode,
    pub node_queue_capacity: usize,
    pub hash_queue_capacity: usize,
}

impl Default for DHTOptions {
    fn default() -> (o: Self)
        ensures
            o.port == 6881,
            o.auto_metadata,
            o.metadata_timeout == 3,
            o.max_metadata_queue_size == 100000,
            o.max_metadata_worker_count == 1000,
            o.netmode == NetMode::DualStack,
            o.node_queue_capacity == 100000,
            o.hash_queue_capacity == 10000,
    {
        DHTOptions {
            port: 6881,
            auto_metadata: true,
            metadata_timeout: 3,
            max_metadata_queue_size: 100000,
            max_metadata_worker_count: 1000,
            netmode: NetMode::DualStack,
            node_queue_capacity: 100000,
            hash_queue_capacity: 10000,
        }
    }
}

/// The mode a Java enum ordinal names: 0 is IPv4 only, 1 IPv6 only, any
/// other dual-stack.
pub open spec fn netmode_of_ordinal(ordinal: i32) -> NetMode {
    if ordinal == 0 {
        NetMode::Ipv4Only
    } else if ordinal == 1 {
        NetMode::Ipv6Only
    } else {
        NetMode::DualStack
    }
}

impl NetMode {
    /// The mode of a Java enum ordinal (see `netmode_of_ordinal`).
    pub fn from_ordinal(ordinal: i32) -> (m: NetMode)
        ensures
            m == netmode_of_ordinal(ordinal),
    {
        match ordinal {
            0 => NetMode::Ipv4Only,
            1 => NetMode::Ipv6Only,
            _ => NetMode::DualStack,
        }
    }
}

/// The options the fields of a Java `DHTOptions` object give, each Java
/// integer cast as Rust casts it (the port cut to 16 bits, a negative size
/// wrapping around); metadata fetching stays on, as by default.
pub fn dht_options_from_java(
    port: i32,
    metadata_timeout: i64,
    max_metadata_queue_size: i32,
    max_metadata_worker_count: i32,
    node_queue_capacity: i32,
    hash_queue_capacity: i32,
    netmode_ordinal: i32,
) -> (o: DHTOptions)
    ensures
        o.port == port as u16,
        o.auto_metadata,
        o.metadata_timeout == metadata_timeout as u64,
        o.max_metadata_queue_size == max_metadata_queue_size as usize,
        o.max_metadata_worker_count == max_metadata_worker_count as usize,
        o.netmode == netmode_of_ordinal(netmode_ordinal),
        o.node_queue_capacity == node_queue_capacity as usize,
        o.hash_queue_capacity == hash_queue_capacity as usize,
{
    DHTOptions {
        port: #[verifier::truncate] (port as u16),
        auto_metadata: true,
        metadata_timeout: #[verifier::truncate] (metadata_timeout as u64),
        max_metadata_queue_size: #[verifier::truncate] (max_metadata_queue_size as usize),
        max_metadata_worker_count: #[verifier::truncate] (max_metadata_worker_count as usize),
        netmode: NetMode::from_ordinal(netmode_ordinal),
        node_queue_capacity: #[verifier::truncate] (node_queue_capacity as usize),
        hash_queue_capacity: #[verifier::truncate] (hash_queue_capacity as usize),
    }
}

// ---------------------------------------------------------------------------
// Human-readable sizes
// ---------------------------------------------------------------------------

pub open spec fn pow2(n: nat) -> nat
    decreases n,
{
    if n == 0 {
        1
    } else {
        2 * pow2((n - 1) as nat)
    }
}

/// 2^53: the integers below it are exactly those a `f64` holds without
/// rounding.
pub open spec fn f64_exact_limit() -> nat {
    9007199254740992
}

/// How many low bits `b` loses when it is rounded to 53 significant bits.
pub open spec fn excess_bits(b: nat) -> nat
    decreases b,
{
    if b < f64_exact_limit() {
        0
    } else {
        1 + excess_bits(b / 2)
    }
}

/// The value of `b as f64`: `b` rounded to 53 significant bits, to the
/// nearest and ties to even.
pub open spec fn f64_round(b: nat) -> nat {
    let s = excess_bits(b);
    if s == 0 {
        b
    } else {
        let p = pow2(s);
        let q = b / p;
        let r = b % p;
        let half = pow2((s - 1) as nat);
        if r > half || (r == half && q % 2 == 1) {
            (q + 1) * p
        } else {
            q * p
        }
    }
}

/// The unit a size is shown in: the largest of B, KB, MB, GB, TB (0 to 4)
/// whose size in bytes it reaches.
pub open spec fn unit_index(f: nat) -> nat {
    if f >= 1099511627776 {
        4
    } else if f >= 1073741824 {
        3
    } else if f >= 1048576 {
        2
    } else if f >= 1024 {
        1
    } else {
        0
    }
}

/// Bytes in unit `k`: 1024^k.
pub open spec fn unit_bytes(k: nat) -> nat {
    if k == 0 {
        1
    } else if k == 1 {
        1024
    } else if k == 2 {
        1048576
    } else if k == 3 {
        1073741824
    } else {
        1099511627776
    }
}

pub open spec fn unit_name(k: nat) -> Seq<char> {
    if k == 0 {
        seq!['B']
    } else if k == 1 {
        seq!['K', 'B']
    } else if k == 2 {
        seq!['M', 'B']
    } else if k == 3 {
        seq!['G', 'B']
    } else {
        seq!['T', 'B']
    }
}

/// `f / 1024^k` in hundredths, rounded to the nearest and ties to even.
pub open spec fn hundredths(f: nat, k: nat) -> nat {
    let d = unit_bytes(k);
    let q = (f * 100) / d;
    let r = (f * 100) % d;
    if 2 * r > d || (2 * r == d && q % 2 == 1) {
        q + 1
    } else {
        q
    }
}

pub open spec fn digit_char(d: nat) -> char {
    ((48 + d) as u8) as char
}

/// The decimal digits of `n`, without leading zeros.
pub open spec fn decimal(n: nat) -> Seq<char>
    decreases n,
{
    if n < 10 {
        seq![digit_char(n)]
    } else {
        decimal(n / 10).push(digit_char(n % 10))
    }
}

/// A size in bytes as the crawler shows it: the value in its unit with two
/// decimals, a space and the unit, such as `1.50 KB`.
pub open spec fn format_bytes_spec(bytes: nat) -> Seq<char> {
    let f = f64_round(bytes);
    let k = unit_index(f);
    let h = hundredths(f, k);
    decimal(h / 100) + seq!['.', digit_char((h % 100) / 10), digit_char(h % 10), ' '] + unit_name(k)
}

fn digit_str(d: u8) -> (s: &'static str)
    requires
        d < 10,
    ensures
        s@ == seq![digit_char(d as nat)],
{
    proof {
        reveal_strlit("0");
        reveal_strlit("1");
        reveal_strlit("2");
        reveal_strlit("3");
        reveal_strlit("4");
        reveal_strlit("5");
        reveal_strlit("6");
        reveal_strlit("7");
        reveal_strlit("8");
        reveal_strlit("9");
    }
    if d == 0 {
        "0"
    } else if d == 1 {
        "1"
    } else if d == 2 {
        "2"
    } else if d == 3 {
        "3"
    } else if d == 4 {
        "4"
    } else if d == 5 {
        "5"
    } else if d == 6 {
        "6"
    } else if d == 7 {
        "7"
    } else if d == 8 {
        "8"
    } else {
        "9"
    }
}

/// Appends the decimal digits of `n`.
fn push_decimal(out: &mut String, n: u128)
    ensures
        final(out)@ == old(out)@ + decimal(n as nat),
    decreases n,
{
    if n >= 10 {
        push_decimal(out, n / 10);
    }
    out.append(digit_str((n % 10) as u8));
    proof {
        if n >= 10 {
            assert(decimal(n as nat) == decimal((n / 10) as nat).push(digit_char((n % 10) as nat)));
        }
    }
    assert(final(out)@ =~= old(out)@ + decimal(n as nat));
}

fn unit_str(k: u32) -> (s: &'static str)
    requires
        k <= 4,
    ensures
        s@ == unit_name(k as nat),
{
    proof {
        reveal_strlit("B");
        reveal_strlit("KB");
        reveal_strlit("MB");
        reveal_strlit("GB");
        reveal_strlit("TB");
    }
    if k == 0 {
        "B"
    } else if k == 1 {
        "KB"
    } else if k == 2 {
        "MB"
    } else if k == 3 {
        "GB"
    } else {
        "TB"
    }
}

proof fn lemma_pow2_pos(n: nat)
    ensures
        pow2(n) >= 1,
    decreases n,
{
    if n > 0 {
        lemma_pow2_pos((n - 1) as nat);
    }
}

proof fn lemma_div_parts(b: int, p: int)
    requires
        b >= 0,
        p >= 1,
    ensures
        p * (b / p) <= b,
        b < p * (b / p) + p,
        b % p == b - p * (b / p),
{
    vstd::arithmetic::div_mod::lemma_fundamental_div_mod(b, p);
}

/// The value of `b as f64`, computed on integers.
fn f64_value(b: u64) -> (f: u128)
    ensures
        f == f64_round(b as nat),
        f <= 0x2_0000_0000_0000_0000,
{
    let ghost bn = b as nat;
    let mut t: u128 = b as u128;
    let mut p: u128 = 1;
    let mut s: u64 = 0;
    while t >= 9007199254740992
        invariant
            p == pow2(s as nat),
            1 <= p <= b + 1,
            s < p,
            t == bn / (p as nat),
            excess_bits(bn) == s + excess_bits(t as nat),
            bn == b as nat,
        decreases t,
    {
        proof {
            vstd::arithmetic::div_mod::lemma_div_denominator(bn as int, p as int, 2);
            lemma_div_parts(bn as int, p as int);
            let pi = p as int;
            let ti = t as int;
            assert(pi * ti >= pi * 2) by (nonlinear_arith)
                requires
                    ti >= 2,
                    pi >= 1,
            ;
            assert(ti == (bn as int) / pi);
            assert(pi * ti <= bn as int);
            assert(pi * 2 <= bn as int);
            assert((p as int) * 2 <= (b as int));
        }
        t = t / 2;
        p = p * 2;
        s = s + 1;
    }
    if s == 0 {
        assert(excess_bits(bn) == 0);
        return b as u128;
    }
    let r = (b as u128) % p;
    let half = p / 2;
    proof {
        lemma_pow2_pos((s - 1) as nat);
        assert(half == pow2((s - 1) as nat));
        assert(excess_bits(t as nat) == 0);
        assert(excess_bits(bn) == s);
        lemma_div_parts(bn as int, p as int);
        let pi = p as int;
        let ti = t as int;
        assert((ti + 1) * pi == ti * pi + pi) by (nonlinear_arith);
        assert(ti * pi == pi * ti) by (nonlinear_arith);
    }
    if r > half || (r == half && t % 2 == 1) {
        (t + 1) * p
    } else {
        t * p
    }
}

/// A size in bytes with two decimals in the largest unit it reaches, from
/// bytes up to terabytes, such as `1.50 KB`. The value is that of the
/// size as a `f64`, divided by powers of 1024 and rounded to the nearest
/// hundredth, ties to even.
pub fn format_bytes(bytes: u64) -> (s: String)
    ensures
        s@ == format_bytes_spec(bytes as nat),
{
    let f = f64_value(bytes);
    let (k, d): (u32, u128) = if f >= 1099511627776 {
        (4, 1099511627776)
    } else if f >= 1073741824 {
        (3, 1073741824)
    } else if f >= 1048576 {
        (2, 1048576)
    } else if f >= 1024 {
        (1, 1024)
    } else {
        (0, 1)
    };
    assert(k == unit_index(f as nat));
    assert(d == unit_bytes(k as nat));
    let x = f * 100;
    let q = x / d;
    let r = x % d;
    let h = if 2 * r > d || (2 * r == d && q % 2 == 1) {
        q + 1
    } else {
        q
    };
    assert(h == hundredths(f as nat, k as nat));
    let mut out = String::new();
    push_decimal(&mut out, h / 100);
    let ghost int_part = out@;
    proof {
        reveal_strlit(".");
        reveal_strlit(" ");
    }
    out.append(".");
    out.append(digit_str(((h % 100) / 10) as u8));
    out.append(digit_str((h % 10) as u8));
    out.append(" ");
    out.append(unit_str(k));
    assert(out@ =~= format_bytes_spec(bytes as nat));
    out
}

} // verus!
