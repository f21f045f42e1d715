//! The record format of the log: a command is its variant index followed by its
//! string fields, each in bincode's standard encoding.  bincode itself encodes
//! and decodes the integers and strings; this module puts the fields together
//! as the derived bincode implementation of `KvCommand` does.
use vstd::prelude::*;
use vstd::slice::slice_subrange;
use vstd::utf8::{
    decode_utf8, decode_utf8_encode_utf8, encode_utf8, encode_utf8_decode_utf8,
    encode_utf8_valid_utf8, valid_utf8,
};

use crate::command::{KvCommand, Op};

verus! {

/// Little-endian bytes of `n`, `k` of them.
pub open spec fn le_bytes(n: nat, k: nat) -> Seq<u8>
    decreases k,
{
    if k == 0 {
        seq![]
    } else {
        seq![(n % 256) as u8] + le_bytes(n / 256, (k - 1) as nat)
    }
}

/// bincode's standard (varint) encoding of an unsigned integer below 2^64.
pub open spec fn varint_bytes(n: nat) -> Seq<u8> {
    if n < 251 {
        seq![n as u8]
    } else if n < 0x1_0000 {
        seq![251u8] + le_bytes(n, 2)
    } else if n < 0x1_0000_0000 {
        seq![252u8] + le_bytes(n, 4)
    } else {
        seq![253u8] + le_bytes(n, 8)
    }
}

/// bincode's standard encoding of a string: its UTF-8 length, then its UTF-8 bytes.
pub open spec fn string_bytes(s: Seq<char>) -> Seq<u8> {
    varint_bytes(encode_utf8(s).len()) + encode_utf8(s)
}

/// The bytes of a command in the log.
pub open spec fn op_bytes(op: Op) -> Seq<u8> {
    match op {
        Op::Put(k, v) => seq![0u8] + string_bytes(k) + string_bytes(v),
        Op::Get(k) => seq![1u8] + string_bytes(k),
        Op::Rm(k) => seq![2u8] + string_bytes(k),
    }
}

/// `256` to the power `k`.
pub open spec fn pow256(k: nat) -> nat
    decreases k,
{
    if k == 0 {
        1
    } else {
        256 * pow256((k - 1) as nat)
    }
}

/// The number that little-endian bytes stand for.
pub open spec fn le_value(b: Seq<u8>) -> nat
    decreases b.len(),
{
    if b.len() == 0 {
        0
    } else {
        b[0] as nat + 256 * le_value(b.skip(1))
    }
}

/// What `bincode::decode_from_slice::<u32, _>` with the standard configuration
/// returns on these bytes, as bincode's varint format reads it: the value and
/// the number of bytes read, or `None` for an error.  A first byte below 251
/// is the value; 251 and 252 announce a `u16` and a `u32` in little-endian
/// order; any other first byte, or too few bytes, is an error.
#[verifier::opaque]
pub open spec fn bincode_u32_decoded(b: Seq<u8>) -> Option<(u32, usize)> {
    if b.len() == 0 {
        None
    } else if b[0] < 251 {
        Some((b[0] as u32, 1usize))
    } else if b[0] == 251 {
        if b.len() >= 3 { Some((le_value(b.subrange(1, 3)) as u32, 3usize)) } else { None }
    } else if b[0] == 252 {
        if b.len() >= 5 { Some((le_value(b.subrange(1, 5)) as u32, 5usize)) } else { None }
    } else {
        None
    }
}

/// What `bincode::decode_from_slice::<u64, _>` with the standard configuration
/// returns on these bytes: as for a `u32`, and 253 announces a `u64`.
#[verifier::opaque]
pub open spec fn bincode_u64_decoded(b: Seq<u8>) -> Option<(u64, usize)> {
    if b.len() == 0 {
        None
    } else if b[0] < 251 {
        Some((b[0] as u64, 1usize))
    } else if b[0] == 251 {
        if b.len() >= 3 { Some((le_value(b.subrange(1, 3)) as u64, 3usize)) } else { None }
    } else if b[0] == 252 {
        if b.len() >= 5 { Some((le_value(b.subrange(1, 5)) as u64, 5usize)) } else { None }
    } else if b[0] == 253 {
        if b.len() >= 9 { Some((le_value(b.subrange(1, 9)) as u64, 9usize)) } else { None }
    } else {
        None
    }
}

/// What `bincode::decode_from_slice::<String, _>` with the standard
/// configuration returns on these bytes: the length as a `u64`, then that many
/// bytes, which must be valid UTF-8; the characters they encode, and the
/// number of bytes read.
#[verifier::opaque]
pub open spec fn bincode_string_decoded(b: Seq<u8>) -> Option<(Seq<char>, usize)> {
    match bincode_u64_decoded(b) {
        None => None,
        Some((len, m)) => {
            if m + len > usize::MAX || m + len > b.len() || !valid_utf8(
                b.subrange(m as int, (m + len) as int),
            ) {
                None
            } else {
                Some((decode_utf8(b.subrange(m as int, (m + len) as int)), (m + len) as usize))
            }
        },
    }
}

/// A string field as this crate reads it: a field whose announced length is
/// larger than the bytes at hand is refused before bincode would allocate it.
pub open spec fn string_field(b: Seq<u8>) -> Option<(Seq<char>, usize)> {
    if (bincode_u64_decoded(b) matches Some((len, _)) && len > b.len()) {
        None
    } else {
        bincode_string_decoded(b)
    }
}

/// The command at the start of `b`, with the number of bytes that it takes.
#[verifier::opaque]
pub open spec fn op_decoded(b: Seq<u8>) -> Option<(Op, nat)> {
    match bincode_u32_decoded(b) {
        None => None,
        Some((tag, n1)) => {
            let r1 = b.skip(n1 as int);
            if tag == 0 {
                match string_field(r1) {
                    None => None,
                    Some((k, n2)) => match string_field(r1.skip(n2 as int)) {
                        None => None,
                        Some((v, n3)) => Some((Op::Put(k, v), (n1 + n2 + n3) as nat)),
                    },
                }
            } else if tag == 1 {
                match string_field(r1) {
                    None => None,
                    Some((k, n2)) => Some((Op::Get(k), (n1 + n2) as nat)),
                }
            } else if tag == 2 {
                match string_field(r1) {
                    None => None,
                    Some((k, n2)) => Some((Op::Rm(k), (n1 + n2) as nat)),
                }
            } else {
                None
            }
        },
    }
}

/// `span` holds exactly one record of `op`: whatever follows it, reading at
/// its start gives `op` and consumes all of `span`.
pub open spec fn delimits(span: Seq<u8>, op: Op) -> bool {
    &&& span.len() >= 1
    &&& forall|t: Seq<u8>| #[trigger] op_decoded(span + t) == Some((op, span.len()))
}

/// Calls `bincode::encode_to_vec` on a `u32` with the standard configuration.
/// Claims the encoding that bincode documents for its format (one byte below
/// 251, else a marker and the little-endian bytes), written into a vector,
/// which cannot fail.
#[verifier::external_body]
fn bincode_encode_u32(v: u32) -> (out: Option<Vec<u8>>)
    ensures
        out is Some,
        out.unwrap()@ == varint_bytes(v as nat),
{
    bincode::encode_to_vec(v, bincode::config::standard()).ok()
}

/// Calls `bincode::encode_to_vec` on a string with the standard configuration.
/// Claims the documented encoding: the UTF-8 length as a varint, then the
/// UTF-8 bytes; writing into a vector cannot fail.
#[verifier::external_body]
fn bincode_encode_str(s: &str) -> (out: Option<Vec<u8>>)
    ensures
        out is Some,
        out.unwrap()@ == string_bytes(s@),
{
    bincode::encode_to_vec(s, bincode::config::standard()).ok()
}

/// Calls `bincode::decode_from_slice::<u32, _>` with the standard
/// configuration: the result is as `bincode_u32_decoded` describes the format.
#[verifier::external_body]
fn bincode_decode_u32(bytes: &[u8]) -> (out: Option<(u32, usize)>)
    ensures
        out == bincode_u32_decoded(bytes@),
{
    match bincode::decode_from_slice::<u32, _>(bytes, bincode::config::standard()) {
        Ok(r) => Some(r),
        Err(_) => None,
    }
}

/// Calls `bincode::decode_from_slice::<u64, _>` with the standard
/// configuration: the result is as `bincode_u64_decoded` describes the format.
#[verifier::external_body]
fn bincode_decode_u64(bytes: &[u8]) -> (out: Option<(u64, usize)>)
    ensures
        out == bincode_u64_decoded(bytes@),
{
    match bincode::decode_from_slice::<u64, _>(bytes, bincode::config::standard()) {
        Ok(r) => Some(r),
        Err(_) => None,
    }
}

/// Calls `bincode::decode_from_slice::<String, _>` with the standard
/// configuration: the result is as `bincode_string_decoded` describes the
/// format.  bincode allocates the announced length before it reads the
/// bytes, so an announced length beyond the input is left out.
#[verifier::external_body]
fn bincode_decode_string(bytes: &[u8]) -> (out: Option<(String, usize)>)
    requires
        bincode_u64_decoded(bytes@) matches Some((len, _)) ==> len <= bytes@.len(),
    ensures
        match (out, bincode_string_decoded(bytes@)) {
            (Some((s, n)), Some((c, m))) => s@ == c && n == m,
            (None, None) => true,
            _ => false,
        },
{
    match bincode::decode_from_slice::<String, _>(bytes, bincode::config::standard()) {
        Ok(r) => Some(r),
        Err(_) => None,
    }
}

} // verus!

verus! {

proof fn lemma_le_bytes(n: nat, k: nat)
    requires
        n < pow256(k),
    ensures
        le_bytes(n, k).len() == k,
        le_value(le_bytes(n, k)) == n,
    decreases k,
{
    if k > 0 {
        let p = pow256((k - 1) as nat);
        assert(n / 256 < p) by (nonlinear_arith)
            requires
                n < 256 * p,
        ;
        lemma_le_bytes(n / 256, (k - 1) as nat);
        let b = le_bytes(n, k);
        assert(b.skip(1) =~= le_bytes(n / 256, (k - 1) as nat));
        assert(n == n % 256 + 256 * (n / 256)) by (nonlinear_arith);
    }
}

proof fn lemma_le_bytes_len(n: nat, k: nat)
    ensures
        le_bytes(n, k).len() == k,
    decreases k,
{
    if k > 0 {
        lemma_le_bytes_len(n / 256, (k - 1) as nat);
    }
}

proof fn lemma_varint_len(n: nat)
    ensures
        varint_bytes(n).len() == (if n < 251 { 1nat } else if n < 0x1_0000 { 3nat } else if n
            < 0x1_0000_0000 { 5nat } else { 9nat }),
{
    lemma_le_bytes_len(n, 2);
    lemma_le_bytes_len(n, 4);
    lemma_le_bytes_len(n, 8);
}

proof fn lemma_le_value_bound(b: Seq<u8>)
    ensures
        le_value(b) < pow256(b.len()),
    decreases b.len(),
{
    if b.len() > 0 {
        lemma_le_value_bound(b.skip(1));
        let v = le_value(b.skip(1));
        let p = pow256((b.len() - 1) as nat);
        let b0 = b[0] as nat;
        assert(b0 + 256 * v < 256 * p) by (nonlinear_arith)
            requires
                b0 < 256,
                v < p,
        ;
    }
}

proof fn lemma_pow256_values()
    ensures
        pow256(2) == 0x1_0000,
        pow256(4) == 0x1_0000_0000,
        pow256(8) == 0x1_0000_0000_0000_0000,
{
    reveal_with_fuel(pow256, 9);
}

/// bincode reads a `u64` back from its varint encoding, whatever follows it.
proof fn lemma_u64_roundtrip(v: u64, t: Seq<u8>)
    ensures
        varint_bytes(v as nat).len() <= 9,
        bincode_u64_decoded(varint_bytes(v as nat) + t) == Some(
            (v, varint_bytes(v as nat).len() as usize),
        ),
{
    reveal(bincode_u64_decoded);
    lemma_pow256_values();
    let e = varint_bytes(v as nat);
    let b = e + t;
    if v < 251 {
    } else if v < 0x1_0000 {
        lemma_le_bytes(v as nat, 2);
        assert(b.subrange(1, 3) =~= le_bytes(v as nat, 2));
    } else if v < 0x1_0000_0000 {
        lemma_le_bytes(v as nat, 4);
        assert(b.subrange(1, 5) =~= le_bytes(v as nat, 4));
    } else {
        lemma_le_bytes(v as nat, 8);
        assert(b.subrange(1, 9) =~= le_bytes(v as nat, 8));
    }
}

/// bincode reads a variant index below 251 back from its one byte.
proof fn lemma_tag_roundtrips(v: u32)
    requires
        v < 251,
    ensures
        varint_bytes(v as nat) == seq![v as u8],
        tag_roundtrips(seq![v as u8], v),
{
    reveal(bincode_u32_decoded);
}

/// bincode reads a string back from its encoding, whatever follows it.
proof fn lemma_string_roundtrips(s: Seq<char>)
    requires
        string_bytes(s).len() <= usize::MAX,
    ensures
        string_roundtrips(string_bytes(s), s),
{
    reveal(bincode_string_decoded);
    broadcast use encode_utf8_valid_utf8, encode_utf8_decode_utf8;

    let u = encode_utf8(s);
    let l = u.len();
    let vb = varint_bytes(l);
    let b = string_bytes(s);
    assert forall|t: Seq<u8>| #[trigger] bincode_u64_decoded(b + t) == Some(
        (l as u64, vb.len() as usize),
    ) && bincode_string_decoded(b + t) == Some((s, b.len() as usize)) by {
        assert(b + t =~= vb + (u + t));
        lemma_u64_roundtrip(l as u64, u + t);
        assert((b + t).subrange(vb.len() as int, (vb.len() + l) as int) =~= u);
    }
}

/// A `u32` that bincode reads takes at least one byte, no more than there
/// are, and depends only on the bytes read.
proof fn lemma_u32_prefix(b: Seq<u8>)
    ensures
        bincode_u32_decoded(b) matches Some((v, n)) ==> 1 <= n <= b.len() && forall|t: Seq<u8>|
            #[trigger] bincode_u32_decoded(b.take(n as int) + t) == Some((v, n)),
{
    reveal(bincode_u32_decoded);
    if let Some((v, n)) = bincode_u32_decoded(b) {
        assert forall|t: Seq<u8>| #[trigger] bincode_u32_decoded(b.take(n as int) + t) == Some((v, n)) by {
            let w = b.take(n as int) + t;
            assert(w[0] == b[0]);
            assert(w.subrange(1, n as int) =~= b.subrange(1, n as int));
        }
    }
}

/// A `u64` that bincode reads takes at least one byte, no more than there
/// are but at least as many as its own varint encoding, and depends only on
/// the bytes read.
proof fn lemma_u64_prefix(b: Seq<u8>)
    ensures
        bincode_u64_decoded(b) matches Some((v, n)) ==> 1 <= n <= b.len()
            && varint_bytes(v as nat).len() <= n && forall|t: Seq<u8>|
            #[trigger] bincode_u64_decoded(b.take(n as int) + t) == Some((v, n)),
{
    reveal(bincode_u64_decoded);
    lemma_pow256_values();
    if let Some((v, n)) = bincode_u64_decoded(b) {
        lemma_varint_len(v as nat);
        if b[0] >= 251 {
            lemma_le_value_bound(b.subrange(1, n as int));
        }
        assert forall|t: Seq<u8>| #[trigger] bincode_u64_decoded(b.take(n as int) + t) == Some((v, n)) by {
            let w = b.take(n as int) + t;
            assert(w[0] == b[0]);
            assert(w.subrange(1, n as int) =~= b.subrange(1, n as int));
        }
    }
}

/// A string that bincode reads is its length followed by that many bytes, the
/// UTF-8 encoding of the string, and depends only on the bytes read.
proof fn lemma_string_prefix(b: Seq<u8>)
    ensures
        bincode_string_decoded(b) matches Some((s, n)) ==> {
            &&& n <= b.len()
            &&& bincode_u64_decoded(b) matches Some((len, m)) && n == m + len
                && b.subrange(m as int, n as int) == encode_utf8(s)
            &&& forall|t: Seq<u8>| #[trigger] bincode_string_decoded(b.take(n as int) + t) == Some((s, n))
        },
{
    reveal(bincode_string_decoded);
    broadcast use decode_utf8_encode_utf8;

    lemma_u64_prefix(b);
    if let Some((s, n)) = bincode_string_decoded(b) {
        let (len, m) = bincode_u64_decoded(b).unwrap();
        assert forall|t: Seq<u8>| #[trigger] bincode_string_decoded(b.take(n as int) + t) == Some((s, n)) by {
            let w = b.take(n as int) + t;
            assert(w =~= b.take(m as int) + (b.subrange(m as int, n as int) + t));
            assert(bincode_u64_decoded(b.take(m as int) + (b.subrange(m as int, n as int) + t)) == Some((len, m)));
            assert(w.subrange(m as int, n as int) =~= b.subrange(m as int, n as int));
        }
    }
}

/// `b` is the encoding of `s`, and bincode reads `s` back from it whatever follows.
pub open spec fn string_roundtrips(b: Seq<u8>, s: Seq<char>) -> bool {
    &&& b == string_bytes(s)
    &&& forall|t: Seq<u8>|
        #[trigger] bincode_u64_decoded(b + t) == Some(
            (encode_utf8(s).len() as u64, varint_bytes(encode_utf8(s).len()).len() as usize),
        )
    &&& forall|t: Seq<u8>| #[trigger] bincode_string_decoded(b + t) == Some((s, b.len() as usize))
}

/// `b` is the encoding of the variant index `v`, read back whatever follows.
pub open spec fn tag_roundtrips(b: Seq<u8>, v: u32) -> bool {
    &&& b == seq![v as u8]
    &&& forall|t: Seq<u8>| #[trigger] bincode_u32_decoded(b + t) == Some((v, b.len() as usize))
}

proof fn lemma_string_field_encoded(b: Seq<u8>, s: Seq<char>, t: Seq<u8>)
    requires
        string_roundtrips(b, s),
        b.len() <= usize::MAX,
    ensures
        string_field(b + t) == Some((s, b.len() as usize)),
{
    let l = encode_utf8(s).len();
    assert(bincode_u64_decoded(b + t) == Some(
        (l as u64, varint_bytes(l).len() as usize),
    ));
    assert(bincode_string_decoded(b + t) == Some((s, b.len() as usize)));
    assert(b.len() == varint_bytes(l).len() + l);
}

proof fn lemma_delimits_one_field(tb: Seq<u8>, tag: u32, kb: Seq<u8>, k: Seq<char>, op: Op)
    requires
        tag_roundtrips(tb, tag),
        string_roundtrips(kb, k),
        tb.len() + kb.len() <= usize::MAX,
        tag == 1 || tag == 2,
        op == (if tag == 1 { Op::Get(k) } else { Op::Rm(k) }),
    ensures
        delimits(tb + kb, op),
{
    assert forall|t: Seq<u8>| #[trigger] op_decoded((tb + kb) + t) == Some((op, (tb + kb).len())) by {
        reveal(op_decoded);
        let whole = (tb + kb) + t;
        assert(whole =~= tb + (kb + t));
        assert(bincode_u32_decoded(tb + (kb + t)) == Some((tag, 1usize)));
        assert(whole.skip(1) =~= kb + t);
        lemma_string_field_encoded(kb, k, t);
    }
}

proof fn lemma_delimits_put(
    tb: Seq<u8>,
    kb: Seq<u8>,
    k: Seq<char>,
    vb: Seq<u8>,
    v: Seq<char>,
)
    requires
        tag_roundtrips(tb, 0),
        string_roundtrips(kb, k),
        string_roundtrips(vb, v),
        tb.len() + kb.len() + vb.len() <= usize::MAX,
    ensures
        delimits(tb + kb + vb, Op::Put(k, v)),
{
    assert forall|t: Seq<u8>| #[trigger] op_decoded((tb + kb + vb) + t) == Some(
        (Op::Put(k, v), (tb + kb + vb).len()),
    ) by {
        reveal(op_decoded);
        let whole = (tb + kb + vb) + t;
        assert(whole =~= tb + (kb + vb + t));
        assert(bincode_u32_decoded(tb + (kb + vb + t)) == Some((0u32, 1usize)));
        let r1 = whole.skip(1);
        assert(r1 =~= kb + (vb + t));
        lemma_string_field_encoded(kb, k, vb + t);
        assert(r1.skip(kb.len() as int) =~= vb + t);
        lemma_string_field_encoded(vb, v, t);
    }
}

/// Encodes a command as one record of the log.
pub fn encode_command(cmd: &KvCommand) -> (out: Vec<u8>)
    ensures
        out@ == op_bytes(cmd@),
        delimits(out@, cmd@),
{
    match cmd {
        KvCommand::Put { key, value } => {
            let mut out = bincode_encode_u32(0).unwrap();
            let mut kb = bincode_encode_str(key.as_str()).unwrap();
            let mut vb = bincode_encode_str(value.as_str()).unwrap();
            let ghost (tb0, kb0, vb0) = (out@, kb@, vb@);
            let (_kl, _vl) = (kb.len(), vb.len());
            proof {
                lemma_tag_roundtrips(0);
                lemma_string_roundtrips(key@);
                lemma_string_roundtrips(value@);
                assert(tb0 =~= seq![0u8]);
                assert(string_roundtrips(kb0, key@));
                assert(string_roundtrips(vb0, value@));
            }
            out.append(&mut kb);
            out.append(&mut vb);
            let total = out.len();
            proof {
                assert(total == out@.len());
                assert(out@ =~= tb0 + kb0 + vb0);
                lemma_delimits_put(tb0, kb0, key@, vb0, value@);
                assert(out@ =~= op_bytes(cmd@));
            }
            out
        },
        KvCommand::Get { key } => {
            let mut out = bincode_encode_u32(1).unwrap();
            let mut kb = bincode_encode_str(key.as_str()).unwrap();
            let ghost (tb0, kb0) = (out@, kb@);
            let _kl = kb.len();
            proof {
                lemma_tag_roundtrips(1);
                lemma_string_roundtrips(key@);
                assert(tb0 =~= seq![1u8]);
                assert(string_roundtrips(kb0, key@));
            }
            out.append(&mut kb);
            let total = out.len();
            proof {
                assert(total == out@.len());
                assert(out@ =~= tb0 + kb0);
                lemma_delimits_one_field(tb0, 1, kb0, key@, cmd@);
                assert(out@ =~= op_bytes(cmd@));
            }
            out
        },
        KvCommand::Rm { key } => {
            let mut out = bincode_encode_u32(2).unwrap();
            let mut kb = bincode_encode_str(key.as_str()).unwrap();
            let ghost (tb0, kb0) = (out@, kb@);
            let _kl = kb.len();
            proof {
                lemma_tag_roundtrips(2);
                lemma_string_roundtrips(key@);
                assert(tb0 =~= seq![2u8]);
                assert(string_roundtrips(kb0, key@));
            }
            out.append(&mut kb);
            let total = out.len();
            proof {
                assert(total == out@.len());
                assert(out@ =~= tb0 + kb0);
                lemma_delimits_one_field(tb0, 2, kb0, key@, cmd@);
                assert(out@ =~= op_bytes(cmd@));
            }
            out
        },
    }
}

} // verus!

verus! {

/// Reads one string field at the start of `bytes`.
fn decode_string_field(bytes: &[u8]) -> (out: Option<(String, usize)>)
    ensures
        match (out, string_field(bytes@)) {
            (Some((s, n)), Some((c, m))) => s@ == c && n == m,
            (None, None) => true,
            _ => false,
        },
        out matches Some((s, n)) ==> {
            &&& 1 <= n <= bytes@.len()
            &&& string_bytes(s@).len() <= n
            &&& forall|t: Seq<u8>|
                #[trigger] string_field(bytes@.take(n as int) + t) == Some((s@, n))
        },
{
    proof {
        lemma_u64_prefix(bytes@);
        lemma_string_prefix(bytes@);
    }
    let announced = bincode_decode_u64(bytes);
    match announced {
        Some((len, _)) => {
            if len > bytes.len() as u64 {
                return None;
            }
        },
        None => {},
    }
    let out = bincode_decode_string(bytes);
    match out {
        Some((s, n)) => {
            proof {
                let b = bytes@;
                let (len, m) = announced.unwrap();
                assert forall|t: Seq<u8>| #[trigger]
                    string_field(b.take(n as int) + t) == Some((s@, n)) by {
                    assert(b.take(n as int) + t =~= b.take(m as int) + (b.subrange(
                        m as int,
                        n as int,
                    ) + t));
                    assert(bincode_u64_decoded(b.take(m as int) + (b.subrange(m as int, n as int) + t))
                        == Some((len, m)));
                    assert(bincode_string_decoded(b.take(n as int) + t) == Some((s@, n)));
                }
            }
            Some((s, n))
        },
        None => None,
    }
}

/// Reads the record at the start of `bytes`: the command and the number of
/// bytes that it takes, or `None` where no record can be read.
pub fn decode_command(bytes: &[u8]) -> (out: Option<(KvCommand, usize)>)
    ensures
        match (out, op_decoded(bytes@)) {
            (Some((c, n)), Some((o, m))) => c@ == o && n == m,
            (None, None) => true,
            _ => false,
        },
        out matches Some((c, n)) ==> n <= bytes@.len() && delimits(bytes@.take(n as int), c@),
        out matches Some((c, n)) ==> op_bytes(c@).len() <= n,
{
    proof {
        reveal(op_decoded);
        lemma_u32_prefix(bytes@);
    }
    let (tag, n1) = match bincode_decode_u32(bytes) {
        Some(r) => r,
        None => return None,
    };
    let rest = slice_subrange(bytes, n1, bytes.len());
    assert(rest@ =~= bytes@.skip(n1 as int));
    if tag > 2 {
        return None;
    }
    let (key, n2) = match decode_string_field(rest) {
        Some(r) => r,
        None => return None,
    };
    if tag == 0 {
        let rest2 = slice_subrange(rest, n2, rest.len());
        assert(rest2@ =~= rest@.skip(n2 as int));
        let (value, n3) = match decode_string_field(rest2) {
            Some(r) => r,
            None => return None,
        };
        let n = n1 + n2 + n3;
        let cmd = KvCommand::Put { key, value };
        proof {
            let b = bytes@;
            assert forall|t: Seq<u8>| #[trigger]
                op_decoded(b.take(n as int) + t) == Some((cmd@, n as nat)) by {
                let w = b.take(n as int) + t;
                assert(w =~= b.take(n1 as int) + (b.subrange(n1 as int, n as int) + t));
                let r1 = w.skip(n1 as int);
                assert(r1 =~= rest@.take(n2 as int) + (rest@.subrange(
                    n2 as int,
                    (n2 + n3) as int,
                ) + t));
                assert(r1.skip(n2 as int) =~= rest2@.take(n3 as int) + t);
            }
            assert(b.take(n as int).len() == n);
        }
        Some((cmd, n))
    } else {
        let n = n1 + n2;
        let cmd = if tag == 1 {
            KvCommand::Get { key }
        } else {
            KvCommand::Rm { key }
        };
        proof {
            let b = bytes@;
            assert forall|t: Seq<u8>| #[trigger]
                op_decoded(b.take(n as int) + t) == Some((cmd@, n as nat)) by {
                let w = b.take(n as int) + t;
                assert(w =~= b.take(n1 as int) + (b.subrange(n1 as int, n as int) + t));
                let r1 = w.skip(n1 as int);
                assert(r1 =~= rest@.take(n2 as int) + t);
            }
            assert(b.take(n as int).len() == n);
        }
        Some((cmd, n))
    }
}

} // verus!
