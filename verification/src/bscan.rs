//! The shape of bencoded bytes: where each value ends, with string lengths
//! that fit in what follows and nesting at most 64 deep. Bytes of this shape
//! are the only ones handed to the outside decoders.
use vstd::prelude::*;

verus! {

/// Whether a byte is an ASCII decimal digit.
pub open spec fn is_digit(b: u8) -> bool {
    48 <= b && b <= 57
}

/// The first index at or after `pos` that holds no decimal digit.
pub open spec fn digits_end(d: Seq<u8>, pos: int) -> int
    decreases d.len() - pos,
{
    if 0 <= pos < d.len() && is_digit(d[pos]) {
        digits_end(d, pos + 1)
    } else {
        pos
    }
}

/// The number the decimal digits `d[from..to]` write.
pub open spec fn digits_value(d: Seq<u8>, from: int, to: int) -> nat
    decreases to - from,
{
    if to <= from {
        0
    } else {
        digits_value(d, from, to - 1) * 10 + (d[to - 1] - 48) as nat
    }
}

/// The first index at or after `pos` that holds byte `b`, or the length.
pub open spec fn byte_index(d: Seq<u8>, pos: int, b: u8) -> int
    decreases d.len() - pos,
{
    if pos < 0 || pos >= d.len() {
        d.len() as int
    } else if d[pos] == b {
        pos
    } else {
        byte_index(d, pos + 1, b)
    }
}

/// Where the value starting at `pos`, at nesting depth `depth`, ends: an
/// integer runs to its `e`; a string is a run of digits, a colon and that
/// many bytes; a list holds values and a dictionary string keys with
/// values, each up to an `e`. `None` where the bytes have no such shape or
/// nest deeper than 64.
pub open spec fn scan_value(d: Seq<u8>, pos: int, depth: nat) -> Option<int>
    decreases d.len() - pos, 0int,
{
    if depth > 64 || pos < 0 || pos >= d.len() {
        None
    } else if d[pos] == 105u8 {
        let e = byte_index(d, pos + 1, 101u8);
        if e < d.len() {
            Some(e + 1)
        } else {
            None
        }
    } else if is_digit(d[pos]) {
        let q = digits_end(d, pos);
        let n = digits_value(d, pos, q);
        if q < d.len() && d[q] == 58u8 && q + 1 + n <= d.len() {
            Some(q + 1 + n)
        } else {
            None
        }
    } else if d[pos] == 108u8 {
        scan_items(d, pos + 1, depth, false)
    } else if d[pos] == 100u8 {
        scan_items(d, pos + 1, depth, true)
    } else {
        None
    }
}

/// Where the items of a list (or the entries of a dictionary) starting at
/// `pos` end, after their closing `e`.
pub open spec fn scan_items(d: Seq<u8>, pos: int, depth: nat, dict: bool) -> Option<int>
    decreases d.len() - pos, 1int,
{
    if pos < 0 || pos >= d.len() {
        None
    } else if d[pos] == 101u8 {
        Some(pos + 1)
    } else if dict && !is_digit(d[pos]) {
        None
    } else {
        match scan_value(d, pos, depth + 1) {
            Some(k) => if !dict {
                if pos < k && k <= d.len() {
                    scan_items(d, k, depth, dict)
                } else {
                    None
                }
            } else if pos < k && k < d.len() {
                match scan_value(d, k, depth + 1) {
                    Some(v) => if k < v && v <= d.len() {
                        scan_items(d, v, depth, dict)
                    } else {
                        None
                    },
                    None => None,
                }
            } else {
                None
            },
            None => None,
        }
    }
}

/// The bytes are one bencoded value of that shape, with nothing after it.
pub open spec fn bencode_well_formed(d: Seq<u8>) -> bool {
    scan_value(d, 0, 0) == Some(d.len() as int)
}

/// The bytes start with a bencoded dictionary of that shape; anything may
/// follow it.
pub open spec fn bencode_dict_prefix(d: Seq<u8>) -> bool {
    d.len() > 0 && d[0] == 100u8 && scan_value(d, 0, 0) is Some
}

/// A byte string is accepted wherever it stands, whatever the number of
/// digits of its length: at position `pre.len()`, a run of decimal digits
/// writing `n`, a colon and `n` bytes make one value ending right after
/// those bytes, at any depth the nesting allows.
pub proof fn lemma_string_accepted(pre: Seq<u8>, digits: Seq<u8>, body: Seq<u8>, rest: Seq<u8>, depth: nat)
    requires
        depth <= 64,
        digits.len() > 0,
        forall|i: int| 0 <= i < digits.len() ==> is_digit(#[trigger] digits[i]),
        body.len() == digits_value(digits, 0, digits.len() as int),
    ensures
        scan_value(pre + digits + seq![58u8] + body + rest, pre.len() as int, depth) == Some(
            (pre.len() + digits.len() + 1 + body.len()) as int,
        ),
{
    let d = pre + digits + seq![58u8] + body + rest;
    let pos = pre.len() as int;
    let l = digits.len() as int;
    assert forall|i: int| 0 <= i < l implies d[pos + i] == #[trigger] digits[i] by {}
    assert(d[pos + l] == 58u8);
    lemma_digits_end_run(d, pos, l, 0);
    lemma_digits_value_shift(d, digits, pos, l);
    assert(is_digit(d[pos]));
}

/// In particular a lone byte string, whatever the number of digits of its
/// length, is well formed.
pub proof fn lemma_string_well_formed(digits: Seq<u8>, body: Seq<u8>)
    requires
        digits.len() > 0,
        forall|i: int| 0 <= i < digits.len() ==> is_digit(#[trigger] digits[i]),
        body.len() == digits_value(digits, 0, digits.len() as int),
    ensures
        bencode_well_formed(digits + seq![58u8] + body),
{
    let e = Seq::<u8>::empty();
    lemma_string_accepted(e, digits, body, e, 0);
    assert(e + digits + seq![58u8] + body + e =~= digits + seq![58u8] + body);
}

/// An integer is accepted wherever it stands: an `i`, any bytes but `e`,
/// and an `e` make one value ending right after the `e`.
pub proof fn lemma_integer_accepted(pre: Seq<u8>, body: Seq<u8>, rest: Seq<u8>, depth: nat)
    requires
        depth <= 64,
        forall|i: int| 0 <= i < body.len() ==> #[trigger] body[i] != 101u8,
    ensures
        scan_value(pre + seq![105u8] + body + seq![101u8] + rest, pre.len() as int, depth) == Some(
            (pre.len() + body.len() + 2) as int,
        ),
{
    let d = pre + seq![105u8] + body + seq![101u8] + rest;
    let pos = pre.len() as int;
    assert(d[pos] == 105u8);
    assert forall|i: int| 0 <= i < body.len() implies #[trigger] d[(pos + 1) + i] != 101u8 by {
        assert(d[pos + 1 + i] == body[i]);
    }
    assert(d[pos + 1 + body.len()] == 101u8);
    lemma_byte_index_run(d, pos + 1, body.len() as int, 0);
}

proof fn lemma_byte_index_run(d: Seq<u8>, start: int, l: int, t: int)
    requires
        0 <= start,
        0 <= t <= l,
        start + l < d.len(),
        forall|i: int| 0 <= i < l ==> #[trigger] d[start + i] != 101u8,
        d[start + l] == 101u8,
    ensures
        byte_index(d, start + t, 101u8) == start + l,
    decreases l - t,
{
    if t < l {
        assert(d[start + t] != 101u8);
        lemma_byte_index_run(d, start, l, t + 1);
    }
}

/// A list is accepted when its items are: after an `l` at `pos`, values
/// one after the other (each accepted one level deeper, from `ends[i]` to
/// `ends[i + 1]`) and an `e` make one value ending right after the `e`. A
/// dictionary is accepted the same way when its items alternate keys,
/// which are byte strings, and values.
pub proof fn lemma_container_accepted(d: Seq<u8>, pos: int, ends: Seq<int>, depth: nat, dict: bool)
    requires
        depth < 64,
        0 <= pos < d.len(),
        d[pos] == if dict {
            100u8
        } else {
            108u8
        },
        ends.len() > 0,
        ends[0] == pos + 1,
        dict ==> ends.len() % 2 == 1,
        forall|i: int|
            0 <= i < ends.len() - 1 ==> ends[i] < ends[i + 1] && scan_value(d, #[trigger] ends[i], depth + 1)
                == Some(ends[i + 1]),
        forall|i: int| 0 <= i < ends.len() - 1 && dict && i % 2 == 0 ==> is_digit(d[#[trigger] ends[i]]),
        ends.last() < d.len(),
        d[ends.last()] == 101u8,
    ensures
        scan_value(d, pos, depth) == Some(ends.last() + 1),
{
    lemma_items_accepted(d, ends, depth, dict, 0);
}

proof fn lemma_items_accepted(d: Seq<u8>, ends: Seq<int>, depth: nat, dict: bool, k: int)
    requires
        depth < 64,
        ends.len() > 0,
        0 <= k < ends.len(),
        dict ==> k % 2 == 0 && ends.len() % 2 == 1,
        0 <= ends[0],
        forall|i: int|
            0 <= i < ends.len() - 1 ==> ends[i] < ends[i + 1] && scan_value(d, #[trigger] ends[i], depth + 1)
                == Some(ends[i + 1]),
        forall|i: int| 0 <= i < ends.len() - 1 && dict && i % 2 == 0 ==> is_digit(d[#[trigger] ends[i]]),
        ends.last() < d.len(),
        d[ends.last()] == 101u8,
    ensures
        scan_items(d, ends[k], depth, dict) == Some(ends.last() + 1),
    decreases ends.len() - k,
{
    lemma_ends_positive(ends, k);
    if k == ends.len() - 1 {
    } else {
        let p = ends[k];
        assert(scan_value(d, p, depth + 1) == Some(ends[k + 1]));
        assert(p < ends[k + 1]);
        lemma_ends_increasing(ends, k + 1, ends.len() - 1);
        assert(scan_value(d, p, depth + 1) is Some);
        assert(d[p] != 101u8) by {
            lemma_value_start(d, p, depth + 1);
        }
        if !dict {
            lemma_items_accepted(d, ends, depth, dict, k + 1);
        } else {
            assert(is_digit(d[p]));
            assert(k + 2 < ends.len());
            assert(scan_value(d, ends[k + 1], depth + 1) == Some(ends[k + 2]));
            assert(ends[k + 1] < ends[k + 2]);
            lemma_ends_increasing(ends, k + 2, ends.len() - 1);
            lemma_items_accepted(d, ends, depth, dict, k + 2);
        }
    }
}

proof fn lemma_ends_positive(ends: Seq<int>, k: int)
    requires
        0 <= k < ends.len(),
        0 <= ends[0],
        forall|i: int| 0 <= i < ends.len() - 1 ==> #[trigger] ends[i] < ends[i + 1],
    ensures
        0 <= ends[k],
    decreases k,
{
    if k > 0 {
        lemma_ends_positive(ends, k - 1);
        assert(ends[k - 1] < ends[k]);
    }
}

proof fn lemma_ends_increasing(ends: Seq<int>, i: int, j: int)
    requires
        0 <= i <= j < ends.len(),
        forall|t: int| 0 <= t < ends.len() - 1 ==> #[trigger] ends[t] < ends[t + 1],
    ensures
        ends[i] <= ends[j],
    decreases j - i,
{
    if i < j {
        lemma_ends_increasing(ends, i, j - 1);
        assert(ends[j - 1] < ends[j]);
    }
}

proof fn lemma_value_start(d: Seq<u8>, p: int, depth: nat)
    requires
        scan_value(d, p, depth) is Some,
    ensures
        0 <= p < d.len(),
        d[p] != 101u8,
{
}

proof fn lemma_digits_end_run(d: Seq<u8>, pos: int, l: int, t: int)
    requires
        0 <= pos,
        0 <= t <= l,
        pos + l < d.len(),
        forall|i: int| 0 <= i < l ==> is_digit(#[trigger] d[pos + i]),
        !is_digit(d[pos + l]),
    ensures
        digits_end(d, pos + t) == pos + l,
    decreases l - t,
{
    if t < l {
        assert(is_digit(d[pos + t]));
        lemma_digits_end_run(d, pos, l, t + 1);
    }
}

proof fn lemma_digits_value_shift(d: Seq<u8>, digits: Seq<u8>, pos: int, l: int)
    requires
        0 <= pos,
        0 <= l <= digits.len(),
        pos + l <= d.len(),
        forall|i: int| 0 <= i < l ==> d[pos + i] == #[trigger] digits[i],
    ensures
        digits_value(d, pos, pos + l) == digits_value(digits, 0, l),
    decreases l,
{
    if l > 0 {
        lemma_digits_value_shift(d, digits, pos, l - 1);
        assert(d[pos + l - 1] == digits[l - 1]);
    }
}

fn scan_value_at(d: &[u8], pos: usize, depth: usize) -> (r: Option<usize>)
    requires
        pos <= d@.len(),
    ensures
        match r {
            Some(e) => scan_value(d@, pos as int, depth as nat) == Some(e as int),
            None => scan_value(d@, pos as int, depth as nat) is None,
        },
    decreases d@.len() - pos, 0int,
{
    let len = d.len();
    if depth > 64 || pos >= len {
        return None;
    }
    let c = d[pos];
    if c == 105u8 {
        let mut i = pos + 1;
        while i < len && d[i] != 101u8
            invariant
                pos + 1 <= i <= len,
                len == d@.len(),
                byte_index(d@, pos + 1, 101u8) == byte_index(d@, i as int, 101u8),
            decreases len - i,
        {
            i = i + 1;
        }
        if i < len {
            Some(i + 1)
        } else {
            None
        }
    } else if 48u8 <= c && c <= 57u8 {
        let mut q = pos;
        let mut n: u128 = 0;
        let mut big = false;
        while q < len && 48u8 <= d[q] && d[q] <= 57u8
            invariant
                pos <= q <= len,
                len == d@.len(),
                len <= usize::MAX,
                digits_end(d@, pos as int) == digits_end(d@, q as int),
                !big ==> n == digits_value(d@, pos as int, q as int) && n <= len,
                big ==> digits_value(d@, pos as int, q as int) > len,
            decreases len - q,
        {
            let digit = (d[q] - 48u8) as u128;
            if !big {
                let m = n * 10 + digit;
                if m > len as u128 {
                    big = true;
                } else {
                    n = m;
                }
            }
            q = q + 1;
        }
        if !big && q < len && d[q] == 58u8 && (q as u128) + 1 + n <= len as u128 {
            Some(q + 1 + (n as usize))
        } else {
            None
        }
    } else if c == 108u8 {
        scan_items_at(d, pos + 1, depth, false)
    } else if c == 100u8 {
        scan_items_at(d, pos + 1, depth, true)
    } else {
        None
    }
}

fn scan_items_at(d: &[u8], pos: usize, depth: usize, dict: bool) -> (r: Option<usize>)
    requires
        pos <= d@.len(),
        depth <= 64,
    ensures
        match r {
            Some(e) => scan_items(d@, pos as int, depth as nat, dict) == Some(e as int),
            None => scan_items(d@, pos as int, depth as nat, dict) is None,
        },
    decreases d@.len() - pos, 1int,
{
    let len = d.len();
    let mut cur = pos;
    loop
        invariant
            pos <= cur <= len,
            len == d@.len(),
            depth <= 64,
            scan_items(d@, pos as int, depth as nat, dict) == scan_items(d@, cur as int, depth as nat, dict),
        decreases len - cur,
    {
        if cur >= len {
            return None;
        }
        let c = d[cur];
        if c == 101u8 {
            return Some(cur + 1);
        }
        if dict && !(48u8 <= c && c <= 57u8) {
            return None;
        }
        match scan_value_at(d, cur, depth + 1) {
            None => {
                return None;
            },
            Some(k) => {
                if !dict {
                    if cur < k && k <= len {
                        cur = k;
                    } else {
                        return None;
                    }
                } else {
                    if !(cur < k && k < len) {
                        return None;
                    }
                    match scan_value_at(d, k, depth + 1) {
                        None => {
                            return None;
                        },
                        Some(v) => {
                            if k < v && v <= len {
                                cur = v;
                            } else {
                                return None;
                            }
                        },
                    }
                }
            },
        }
    }
}

/// Whether the bytes are one well-formed bencoded value (see
/// `bencode_well_formed`).
pub fn check_bencode(data: &[u8]) -> (r: bool)
    ensures
        r == bencode_well_formed(data@),
{
    match scan_value_at(data, 0, 0) {
        Some(e) => e == data.len(),
        None => false,
    }
}

/// Whether the bytes start with a well-formed bencoded dictionary (see
/// `bencode_dict_prefix`).
pub fn check_bencode_dict_prefix(data: &[u8]) -> (r: bool)
    ensures
        r == bencode_dict_prefix(data@),
{
    if data.len() == 0 || data[0] != 100u8 {
        return false;
    }
    scan_value_at(data, 0, 0).is_some()
}

} // verus!
