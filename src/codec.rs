//! Binary framing shared by the record log and the write-ahead log.
//!
//! A frame is a 32-bit little-endian payload size followed by the payload.
//! A record payload is its key then its value, each a bincode string; a
//! write-ahead payload is a tag byte (0 for a put, 1 for a delete) followed by
//! the fields of that operation in the same string encoding.
use vstd::prelude::*;
use vstd::arithmetic::div_mod::lemma_fundamental_div_mod;
use vstd::slice::slice_subrange;

verus! {

/// The bytes that bincode's standard configuration writes for a string.
pub uninterp spec fn string_bytes(s: Seq<char>) -> Seq<u8>;

/// What bincode's standard configuration reads from the front of a byte
/// sequence when asked for a string: the string and the number of bytes used.
pub uninterp spec fn string_decoded(b: Seq<u8>) -> Option<(Seq<char>, nat)>;

/// Relies on bincode::encode_to_vec with the standard configuration: a string
/// becomes a varint length (at most nine bytes) followed by its UTF-8 bytes (at
/// most four per char); writing into a Vec without a size limit cannot fail.
#[verifier::external_body]
fn encode_str(s: &str) -> (r: Vec<u8>)
    ensures
        r@ == string_bytes(s@),
        r@.len() <= 4 * s@.len() + 9,
{
    bincode::encode_to_vec(s, bincode::config::standard()).expect("writing into a Vec cannot fail")
}

/// Relies on bincode::borrow_decode_from_slice::<&str, _> with the standard
/// configuration: it reads one string from the front of the slice, reports how
/// many bytes it used, and gives back a string from the front of its own
/// encoding whatever bytes follow it. A declared length longer than the slice
/// is an error, checked before any bytes are taken.
#[verifier::external_body]
fn decode_str(b: &[u8]) -> (r: Option<(String, usize)>)
    ensures
        match r {
            Some((s, n)) => string_decoded(b@) == Some((s@, n as nat)) && n <= b@.len(),
            None => string_decoded(b@) is None,
        },
        forall|s: Seq<char>, t: Seq<u8>|
            b@ == #[trigger] (string_bytes(s) + t) ==> r.is_some() && r.unwrap().0@ == s
                && r.unwrap().1 == string_bytes(s).len(),
{
    match bincode::borrow_decode_from_slice::<&str, _>(b, bincode::config::standard()) {
        Ok((s, n)) => Some((s.to_owned(), n)),
        Err(_) => None,
    }
}

/// The four little-endian bytes of `n`.
pub open spec fn le32(n: nat) -> Seq<u8> {
    seq![
        (n % 256) as u8,
        ((n / 256) % 256) as u8,
        ((n / 256 / 256) % 256) as u8,
        ((n / 256 / 256 / 256) % 256) as u8,
    ]
}

/// The number that four little-endian bytes stand for.
pub open spec fn le32_value(b: Seq<u8>) -> nat {
    (b[0] + 256 * (b[1] + 256 * (b[2] + 256 * b[3]))) as nat
}

pub proof fn lemma_le32_round_trip(n: nat)
    requires
        n <= u32::MAX,
    ensures
        le32(n).len() == 4,
        le32_value(le32(n)) == n,
{
    lemma_fundamental_div_mod(n as int, 256);
    lemma_fundamental_div_mod((n / 256) as int, 256);
    lemma_fundamental_div_mod((n / 256 / 256) as int, 256);
    lemma_fundamental_div_mod((n / 256 / 256 / 256) as int, 256);
    assert(n / 256 / 256 / 256 < 256);
}

/// A payload together with its size prefix.
pub open spec fn frame(p: Seq<u8>) -> Seq<u8> {
    le32(p.len()) + p
}

/// The payload of a stored record.
pub open spec fn record_payload(key: Seq<char>, value: Seq<char>) -> Seq<u8> {
    string_bytes(key) + string_bytes(value)
}

/// An operation held in the write-ahead log, as a mathematical value.
pub enum WalOp {
    Put { key: Seq<char>, value: Seq<char> },
    Delete { key: Seq<char> },
}

/// The payload of a write-ahead log entry.
pub open spec fn op_payload(op: WalOp) -> Seq<u8> {
    match op {
        WalOp::Put { key, value } => seq![0u8] + string_bytes(key) + string_bytes(value),
        WalOp::Delete { key } => seq![1u8] + string_bytes(key),
    }
}

/// The size of the payload of the frame that starts at `pos`, where both its
/// prefix and its payload lie inside `d`.
pub open spec fn frame_size_at(d: Seq<u8>, pos: int) -> Option<nat> {
    if pos < 0 || pos + 4 > d.len() {
        None
    } else {
        let n = le32_value(d.subrange(pos, pos + 4));
        if pos + 4 + n > d.len() {
            None
        } else {
            Some(n)
        }
    }
}

/// A whole string read from `p`: what bincode reads must use every byte.
pub open spec fn decode_single(p: Seq<u8>) -> Option<Seq<char>> {
    match string_decoded(p) {
        Some((s, n)) => if n == p.len() {
            Some(s)
        } else {
            None
        },
        None => None,
    }
}

/// Two strings read from `p`, one after the other, using every byte.
pub open spec fn decode_pair(p: Seq<u8>) -> Option<(Seq<char>, Seq<char>)> {
    match string_decoded(p) {
        Some((k, n)) => if n <= p.len() {
            match decode_single(p.subrange(n as int, p.len() as int)) {
                Some(v) => Some((k, v)),
                None => None,
            }
        } else {
            None
        },
        None => None,
    }
}

/// A write-ahead log entry read from its payload.
pub open spec fn decode_op(p: Seq<u8>) -> Option<WalOp> {
    if p.len() == 0 {
        None
    } else {
        let rest = p.subrange(1, p.len() as int);
        if p[0] == 0 {
            match decode_pair(rest) {
                Some((k, v)) => Some(WalOp::Put { key: k, value: v }),
                None => None,
            }
        } else if p[0] == 1 {
            match decode_single(rest) {
                Some(k) => Some(WalOp::Delete { key: k }),
                None => None,
            }
        } else {
            None
        }
    }
}

/// Appends the little-endian bytes of `n`.
fn push_le32(out: &mut Vec<u8>, n: u32)
    ensures
        final(out)@ == old(out)@ + le32(n as nat),
{
    out.push((n % 256) as u8);
    out.push(((n / 256) % 256) as u8);
    out.push(((n / 256 / 256) % 256) as u8);
    out.push(((n / 256 / 256 / 256) % 256) as u8);
    assert(final(out)@ =~= old(out)@ + le32(n as nat));
}

/// Reads the little-endian number at `pos`.
fn read_le32(d: &[u8], pos: usize) -> (r: u32)
    requires
        pos + 4 <= d@.len(),
    ensures
        r == le32_value(d@.subrange(pos as int, pos + 4)),
{
    let b0 = d[pos] as u32;
    let b1 = d[pos + 1] as u32;
    let b2 = d[pos + 2] as u32;
    let b3 = d[pos + 3] as u32;
    b0 + 256 * (b1 + 256 * (b2 + 256 * b3))
}

/// Appends `payload` as one frame, or returns false, appending nothing, when
/// its size does not fit the 32-bit prefix.
pub fn append_frame(out: &mut Vec<u8>, payload: Vec<u8>) -> (ok: bool)
    ensures
        ok == (payload@.len() <= u32::MAX),
        ok ==> final(out)@ == old(out)@ + frame(payload@),
        !ok ==> final(out)@ == old(out)@,
{
    if payload.len() > u32::MAX as usize {
        return false;
    }
    let mut p = payload;
    push_le32(out, p.len() as u32);
    out.append(&mut p);
    assert(final(out)@ =~= old(out)@ + frame(payload@));
    true
}

/// The payload of the record `(key, value)`.
pub fn encode_record(key: &str, value: &str) -> (r: Vec<u8>)
    ensures
        r@ == record_payload(key@, value@),
        r@.len() <= 4 * (key@.len() + value@.len()) + 18,
{
    let mut p = encode_str(key);
    let mut v = encode_str(value);
    p.append(&mut v);
    p
}

/// The payload of a write-ahead entry that puts `key` to `value`.
pub fn encode_set_op(key: &str, value: &str) -> (r: Vec<u8>)
    ensures
        r@ == op_payload(WalOp::Put { key: key@, value: value@ }),
        r@.len() <= 4 * (key@.len() + value@.len()) + 19,
{
    let mut p: Vec<u8> = Vec::new();
    p.push(0u8);
    let mut k = encode_str(key);
    let mut v = encode_str(value);
    p.append(&mut k);
    p.append(&mut v);
    assert(p@ =~= op_payload(WalOp::Put { key: key@, value: value@ }));
    p
}

/// The payload of a write-ahead entry that deletes `key`.
pub fn encode_delete_op(key: &str) -> (r: Vec<u8>)
    ensures
        r@ == op_payload(WalOp::Delete { key: key@ }),
        r@.len() <= 4 * key@.len() + 10,
{
    let mut p: Vec<u8> = Vec::new();
    p.push(1u8);
    let mut k = encode_str(key);
    p.append(&mut k);
    assert(p@ =~= op_payload(WalOp::Delete { key: key@ }));
    p
}

/// Finds the frame that starts at `pos` and returns the end of its payload.
pub fn frame_end(d: &[u8], pos: usize) -> (r: Option<usize>)
    ensures
        match frame_size_at(d@, pos as int) {
            Some(n) => r matches Some(e) && e == pos + 4 + n,
            None => r is None,
        },
        r matches Some(e) ==> pos + 4 <= e <= d@.len(),
{
    if d.len() < 4 || pos > d.len() - 4 {
        return None;
    }
    let n = read_le32(d, pos) as usize;
    if n > d.len() - 4 - pos {
        return None;
    }
    Some(pos + 4 + n)
}

/// Reads a string that fills `p` exactly.
fn decode_single_exec(p: &[u8]) -> (r: Option<String>)
    ensures
        match r {
            Some(s) => decode_single(p@) == Some(s@),
            None => decode_single(p@) is None,
        },
        forall|s: Seq<char>| p@ == #[trigger] string_bytes(s) ==> (r matches Some(x) && x@ == s),
{
    assert forall|s: Seq<char>| p@ == #[trigger] string_bytes(s) implies p@ == string_bytes(s)
        + Seq::<u8>::empty() by {
        assert(string_bytes(s) + Seq::<u8>::empty() =~= string_bytes(s));
    }
    match decode_str(p) {
        Some((s, n)) => if n == p.len() {
            Some(s)
        } else {
            None
        },
        None => None,
    }
}

/// Reads two strings that together fill `p` exactly.
pub fn decode_pair_exec(p: &[u8]) -> (r: Option<(String, String)>)
    ensures
        match r {
            Some((k, v)) => decode_pair(p@) == Some((k@, v@)),
            None => decode_pair(p@) is None,
        },
        forall|k: Seq<char>, v: Seq<char>|
            p@ == #[trigger] (string_bytes(k) + string_bytes(v)) ==> (r matches Some((x, y))
                && x@ == k && y@ == v),
{
    match decode_str(p) {
        Some((k, n)) => {
            let rest = slice_subrange(p, n, p.len());
            assert forall|k1: Seq<char>, v1: Seq<char>|
                p@ == #[trigger] (string_bytes(k1) + string_bytes(v1)) implies rest@
                == string_bytes(v1) by {
                assert(rest@ =~= string_bytes(v1));
            }
            match decode_single_exec(rest) {
                Some(v) => Some((k, v)),
                None => None,
            }
        },
        None => None,
    }
}

/// Reads a write-ahead log entry from its payload.
pub fn decode_op_exec(p: &[u8]) -> (r: Option<(bool, String, String)>)
    ensures
        match r {
            Some((true, k, v)) => decode_op(p@) == Some(WalOp::Put { key: k@, value: v@ }),
            Some((false, k, _)) => decode_op(p@) == Some(WalOp::Delete { key: k@ }),
            None => decode_op(p@) is None,
        },
        forall|op: WalOp|
            p@ == #[trigger] op_payload(op) ==> (r matches Some((set, k, v)) && match op {
                WalOp::Put { key, value } => set && k@ == key && v@ == value,
                WalOp::Delete { key } => !set && k@ == key,
            }),
{
    if p.len() == 0 {
        return None;
    }
    let rest = slice_subrange(p, 1, p.len());
    assert forall|op: WalOp| p@ == #[trigger] op_payload(op) implies match op {
        WalOp::Put { key, value } => p@[0] == 0 && rest@ == string_bytes(key) + string_bytes(
            value,
        ),
        WalOp::Delete { key } => p@[0] == 1 && rest@ == string_bytes(key),
    } by {
        match op {
            WalOp::Put { key, value } => {
                assert(rest@ =~= string_bytes(key) + string_bytes(value));
            },
            WalOp::Delete { key } => {
                assert(rest@ =~= string_bytes(key));
            },
        }
    }
    if p[0] == 0 {
        match decode_pair_exec(rest) {
            Some((k, v)) => Some((true, k, v)),
            None => None,
        }
    } else if p[0] == 1 {
        match decode_single_exec(rest) {
            Some(k) => Some((false, k, String::new())),
            None => None,
        }
    } else {
        None
    }
}

} // verus!
