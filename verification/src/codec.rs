//! The byte format of payloads and snapshots: little-endian integers, and
//! every string, byte block and list behind its length.

use vstd::bytes::{
    lemma_auto_spec_u64_to_from_le_bytes, spec_u64_from_le_bytes, spec_u64_to_le_bytes,
    u64_from_le_bytes, u64_to_le_bytes,
};
use vstd::prelude::*;
use vstd::slice::{slice_subrange, slice_to_vec};
use vstd::utf8::{decode_utf8, encode_utf8, valid_utf8};

verus! {

/// A 64-bit integer: eight bytes, the lowest first.
pub open spec fn enc_u64(v: u64) -> Seq<u8> {
    spec_u64_to_le_bytes(v)
}

/// A truth value: one byte, 1 or 0.
pub open spec fn enc_bool(b: bool) -> Seq<u8> {
    seq![if b { 1u8 } else { 0u8 }]
}

/// A block of bytes: its length, then the bytes.
pub open spec fn enc_bytes(b: Seq<u8>) -> Seq<u8> {
    enc_u64(b.len() as u64) + b
}

/// A string: its UTF-8 bytes as a block.
pub open spec fn enc_str(s: Seq<char>) -> Seq<u8> {
    enc_bytes(encode_utf8(s))
}

/// Integers one after the other.
pub open spec fn enc_each(ids: Seq<u64>) -> Seq<u8>
    decreases ids.len(),
{
    if ids.len() == 0 {
        Seq::empty()
    } else {
        enc_each(ids.drop_last()) + enc_u64(ids.last())
    }
}

/// A list of integers: how many, then each.
pub open spec fn enc_ids(ids: Seq<u64>) -> Seq<u8> {
    enc_u64(ids.len() as u64) + enc_each(ids)
}

/// Reads an integer at `pos`: the value and the position behind it.
pub open spec fn dec_u64(data: Seq<u8>, pos: int) -> Option<(u64, int)> {
    if 0 <= pos && pos + 8 <= data.len() {
        Some((spec_u64_from_le_bytes(data.subrange(pos, pos + 8)), pos + 8))
    } else {
        None
    }
}

/// Reads a truth value at `pos`. A byte other than 0 and 1 is refused.
pub open spec fn dec_bool(data: Seq<u8>, pos: int) -> Option<(bool, int)> {
    if 0 <= pos < data.len() && data[pos] <= 1 {
        Some((data[pos] == 1, pos + 1))
    } else {
        None
    }
}

/// Reads a block of bytes at `pos`.
pub open spec fn dec_bytes(data: Seq<u8>, pos: int) -> Option<(Seq<u8>, int)> {
    match dec_u64(data, pos) {
        Some((n, p)) => if p + n <= data.len() {
            Some((data.subrange(p, p + n), p + n))
        } else {
            None
        },
        None => None,
    }
}

/// Reads a string at `pos`. Bytes that are not UTF-8 are refused.
pub open spec fn dec_str(data: Seq<u8>, pos: int) -> Option<(Seq<char>, int)> {
    match dec_bytes(data, pos) {
        Some((b, p)) => if valid_utf8(b) {
            Some((decode_utf8(b), p))
        } else {
            None
        },
        None => None,
    }
}

/// Reads `n` integers from `pos` on.
pub open spec fn dec_each(data: Seq<u8>, pos: int, n: nat) -> Option<(Seq<u64>, int)>
    decreases n,
{
    if n == 0 {
        Some((Seq::empty(), pos))
    } else {
        match dec_each(data, pos, (n - 1) as nat) {
            Some((ids, p)) => match dec_u64(data, p) {
                Some((v, q)) => Some((ids.push(v), q)),
                None => None,
            },
            None => None,
        }
    }
}

/// Reads a list of integers at `pos`.
pub open spec fn dec_ids(data: Seq<u8>, pos: int) -> Option<(Seq<u64>, int)> {
    match dec_u64(data, pos) {
        Some((n, p)) => dec_each(data, p, n as nat),
        None => None,
    }
}

/// The bytes `part` stand in `data` from `pos` on.
pub open spec fn holds(data: Seq<u8>, pos: int, part: Seq<u8>) -> bool {
    &&& 0 <= pos
    &&& pos + part.len() <= data.len()
    &&& data.subrange(pos, pos + part.len()) == part
}

/// Where two parts stand one behind the other, each stands at its place.
pub proof fn lemma_holds_split(data: Seq<u8>, pos: int, a: Seq<u8>, b: Seq<u8>)
    requires
        holds(data, pos, a + b),
    ensures
        holds(data, pos, a),
        holds(data, pos + a.len(), b),
{
    let whole = data.subrange(pos, pos + (a + b).len());
    assert(data.subrange(pos, pos + a.len()) =~= whole.subrange(0, a.len() as int));
    assert(whole.subrange(0, a.len() as int) =~= a);
    assert(data.subrange(pos + a.len(), pos + a.len() + b.len()) =~= whole.subrange(
        a.len() as int,
        (a + b).len() as int,
    ));
    assert(whole.subrange(a.len() as int, (a + b).len() as int) =~= b);
}

/// A message stands at the start of itself, whatever follows.
pub proof fn lemma_holds_whole(part: Seq<u8>)
    ensures
        holds(part, 0, part),
{
    assert(part.subrange(0, part.len() as int) =~= part);
}

/// An integer takes eight bytes.
pub proof fn lemma_u64_len(v: u64)
    ensures
        enc_u64(v).len() == 8,
{
    lemma_auto_spec_u64_to_from_le_bytes();
}

/// An integer that was written is read back.
pub proof fn lemma_u64_round(data: Seq<u8>, pos: int, v: u64)
    requires
        holds(data, pos, enc_u64(v)),
    ensures
        dec_u64(data, pos) == Some((v, pos + 8)),
{
    lemma_auto_spec_u64_to_from_le_bytes();
}

/// A truth value that was written is read back.
pub proof fn lemma_bool_round(data: Seq<u8>, pos: int, b: bool)
    requires
        holds(data, pos, enc_bool(b)),
    ensures
        dec_bool(data, pos) == Some((b, pos + 1)),
{
    assert(data.subrange(pos, pos + 1)[0] == enc_bool(b)[0]);
}

/// A block of bytes that was written is read back.
pub proof fn lemma_bytes_round(data: Seq<u8>, pos: int, b: Seq<u8>)
    requires
        b.len() <= u64::MAX,
        holds(data, pos, enc_bytes(b)),
    ensures
        dec_bytes(data, pos) == Some((b, pos + 8 + b.len())),
        enc_bytes(b).len() == 8 + b.len(),
{
    lemma_u64_len(b.len() as u64);
    lemma_holds_split(data, pos, enc_u64(b.len() as u64), b);
    lemma_u64_round(data, pos, b.len() as u64);
}

/// A string that was written is read back.
pub proof fn lemma_str_round(data: Seq<u8>, pos: int, s: Seq<char>)
    requires
        encode_utf8(s).len() <= u64::MAX,
        holds(data, pos, enc_str(s)),
    ensures
        dec_str(data, pos) == Some((s, pos + enc_str(s).len())),
{
    lemma_bytes_round(data, pos, encode_utf8(s));
    vstd::utf8::encode_utf8_valid_utf8(s);
    vstd::utf8::encode_utf8_decode_utf8(s);
}

/// Integers one after the other take eight bytes each.
pub proof fn lemma_each_len(ids: Seq<u64>)
    ensures
        enc_each(ids).len() == 8 * ids.len(),
    decreases ids.len(),
{
    if ids.len() > 0 {
        lemma_each_len(ids.drop_last());
        lemma_u64_len(ids.last());
    }
}

/// Integers that were written one after the other are read back.
pub proof fn lemma_each_round(data: Seq<u8>, pos: int, ids: Seq<u64>)
    requires
        holds(data, pos, enc_each(ids)),
    ensures
        dec_each(data, pos, ids.len()) == Some((ids, pos + 8 * ids.len())),
    decreases ids.len(),
{
    if ids.len() == 0 {
        assert(ids =~= Seq::<u64>::empty());
    } else {
        let front = ids.drop_last();
        lemma_holds_split(data, pos, enc_each(front), enc_u64(ids.last()));
        lemma_each_round(data, pos, front);
        lemma_each_len(front);
        lemma_u64_round(data, pos + 8 * front.len(), ids.last());
        assert(front.push(ids.last()) =~= ids);
    }
}

/// A list of integers that was written is read back.
pub proof fn lemma_ids_round(data: Seq<u8>, pos: int, ids: Seq<u64>)
    requires
        ids.len() <= u64::MAX,
        holds(data, pos, enc_ids(ids)),
    ensures
        dec_ids(data, pos) == Some((ids, pos + enc_ids(ids).len())),
        enc_ids(ids).len() == 8 + 8 * ids.len(),
{
    lemma_u64_len(ids.len() as u64);
    lemma_each_len(ids);
    lemma_holds_split(data, pos, enc_u64(ids.len() as u64), enc_each(ids));
    lemma_u64_round(data, pos, ids.len() as u64);
    lemma_each_round(data, pos + 8, ids);
}

/// Appends the bytes of `part`.
pub fn put_raw(out: &mut Vec<u8>, part: &[u8])
    ensures
        final(out)@ == old(out)@ + part@,
{
    let mut i: usize = 0;
    while i < part.len()
        invariant
            i <= part.len(),
            out@ == old(out)@ + part@.take(i as int),
        decreases part.len() - i,
    {
        out.push(part[i]);
        proof {
            assert(part@.take(i + 1) =~= part@.take(i as int).push(part@[i as int]));
            assert(out@ =~= old(out)@ + part@.take(i + 1));
        }
        i += 1;
    }
    proof {
        assert(part@.take(i as int) =~= part@);
    }
}

/// Writes an integer.
pub fn put_u64(out: &mut Vec<u8>, v: u64)
    ensures
        final(out)@ == old(out)@ + enc_u64(v),
{
    let bytes = u64_to_le_bytes(v);
    put_raw(out, bytes.as_slice());
}

/// Writes a length.
pub fn put_len(out: &mut Vec<u8>, n: usize)
    ensures
        final(out)@ == old(out)@ + enc_u64(n as u64),
{
    put_u64(out, n as u64);
}

/// Writes a truth value.
pub fn put_bool(out: &mut Vec<u8>, b: bool)
    ensures
        final(out)@ == old(out)@ + enc_bool(b),
{
    out.push(if b { 1u8 } else { 0u8 });
    proof {
        assert(out@ =~= old(out)@ + enc_bool(b));
    }
}

/// Writes a block of bytes.
pub fn put_bytes(out: &mut Vec<u8>, b: &[u8])
    ensures
        final(out)@ == old(out)@ + enc_bytes(b@),
{
    put_len(out, b.len());
    put_raw(out, b);
    proof {
        assert(out@ =~= old(out)@ + enc_bytes(b@));
    }
}

/// Writes a string.
pub fn put_str(out: &mut Vec<u8>, s: &str)
    ensures
        final(out)@ == old(out)@ + enc_str(s@),
{
    put_bytes(out, s.as_bytes());
}

/// Writes a list of integers.
pub fn put_ids(out: &mut Vec<u8>, ids: &Vec<u64>)
    ensures
        final(out)@ == old(out)@ + enc_ids(ids@),
{
    put_len(out, ids.len());
    let ghost start = out@;
    let mut i: usize = 0;
    proof {
        assert(start + enc_each(ids@.take(0)) =~= start);
    }
    while i < ids.len()
        invariant
            i <= ids.len(),
            out@ == start + enc_each(ids@.take(i as int)),
        decreases ids.len() - i,
    {
        proof {
            assert(ids@.take(i + 1).drop_last() =~= ids@.take(i as int));
            assert((start + enc_each(ids@.take(i as int))) + enc_u64(ids@[i as int]) =~= start + (
            enc_each(ids@.take(i as int)) + enc_u64(ids@[i as int])));
        }
        put_u64(out, ids[i]);
        i += 1;
    }
    proof {
        assert(ids@.take(i as int) =~= ids@);
        assert(out@ =~= old(out)@ + enc_ids(ids@));
    }
}

/// What a read returned, set against the model: the same value, by its view,
/// and the same position.
pub open spec fn read_u64_is(r: Option<(u64, usize)>, m: Option<(u64, int)>) -> bool {
    match r {
        Some((v, p)) => m == Some((v, p as int)),
        None => m is None,
    }
}

/// Reads an integer at `pos`.
pub fn get_u64(data: &[u8], pos: usize) -> (r: Option<(u64, usize)>)
    ensures
        read_u64_is(r, dec_u64(data@, pos as int)),
        r is Some ==> r.unwrap().1 <= data@.len(),
{
    if pos > data.len() || data.len() - pos < 8 {
        return None;
    }
    let v = u64_from_le_bytes(slice_subrange(data, pos, pos + 8));
    Some((v, pos + 8))
}

/// Reads a truth value at `pos`.
pub fn get_bool(data: &[u8], pos: usize) -> (r: Option<(bool, usize)>)
    ensures
        match r {
            Some((v, p)) => dec_bool(data@, pos as int) == Some((v, p as int)),
            None => dec_bool(data@, pos as int) is None,
        },
        r is Some ==> r.unwrap().1 <= data@.len(),
{
    if pos >= data.len() || data[pos] > 1 {
        return None;
    }
    Some((data[pos] == 1, pos + 1))
}

/// Reads a block of bytes at `pos`: the bytes as they stand in `data`.
pub fn get_bytes<'a>(data: &'a [u8], pos: usize) -> (r: Option<(&'a [u8], usize)>)
    ensures
        match r {
            Some((v, p)) => dec_bytes(data@, pos as int) == Some((v@, p as int)),
            None => dec_bytes(data@, pos as int) is None,
        },
        r is Some ==> r.unwrap().1 <= data@.len(),
{
    match get_u64(data, pos) {
        Some((n, p)) => {
            if n > (data.len() - p) as u64 {
                return None;
            }
            let end = p + n as usize;
            Some((slice_subrange(data, p, end), end))
        },
        None => None,
    }
}

/// Reads a list of integers at `pos`.
pub fn get_ids(data: &[u8], pos: usize) -> (r: Option<(Vec<u64>, usize)>)
    ensures
        match r {
            Some((v, p)) => dec_ids(data@, pos as int) == Some((v@, p as int)),
            None => dec_ids(data@, pos as int) is None,
        },
        r is Some ==> r.unwrap().1 <= data@.len(),
        r is Some ==> r.unwrap().1 == pos + 8 + 8 * r.unwrap().0@.len(),
{
    let (n, start) = match get_u64(data, pos) {
        Some(r) => r,
        None => {
            return None;
        },
    };
    let mut ids: Vec<u64> = Vec::new();
    let mut p: usize = start;
    let mut i: u64 = 0;
    while i < n
        invariant
            i <= n,
            p <= data@.len(),
            p == start + 8 * i,
            ids@.len() == i,
            dec_u64(data@, pos as int) == Some((n, start as int)),
            dec_each(data@, start as int, i as nat) == Some((ids@, p as int)),
        decreases n - i,
    {
        match get_u64(data, p) {
            Some((v, q)) => {
                ids.push(v);
                p = q;
            },
            None => {
                proof {
                    assert(dec_each(data@, start as int, ((i + 1) - 1) as nat) == Some(
                        (ids@, p as int),
                    ));
                    assert(dec_each(data@, start as int, (i + 1) as nat) is None);
                    lemma_each_stuck(data@, start as int, (i + 1) as nat, n as nat);
                }
                return None;
            },
        }
        i += 1;
    }
    Some((ids, p))
}

/// Where the first integers cannot be read, more cannot either.
pub proof fn lemma_each_stuck(data: Seq<u8>, pos: int, k: nat, n: nat)
    requires
        dec_each(data, pos, k) is None,
        k <= n,
    ensures
        dec_each(data, pos, n) is None,
    decreases n,
{
    if k < n {
        lemma_each_stuck(data, pos, k, (n - 1) as nat);
    }
}

/// `String::from_utf8`: the string that these bytes spell where they are
/// UTF-8, and no string where they are not.
#[verifier::external_body]
fn string_from_utf8(bytes: Vec<u8>) -> (r: Option<String>)
    ensures
        r is Some <==> valid_utf8(bytes@),
        r is Some ==> encode_utf8(r.unwrap()@) == bytes@,
{
    match String::from_utf8(bytes) {
        Ok(s) => Some(s),
        Err(_) => None,
    }
}

/// Reads a string at `pos`.
pub fn get_str(data: &[u8], pos: usize) -> (r: Option<(String, usize)>)
    ensures
        match r {
            Some((v, p)) => dec_str(data@, pos as int) == Some((v@, p as int)),
            None => dec_str(data@, pos as int) is None,
        },
        r is Some ==> r.unwrap().1 <= data@.len(),
{
    match get_bytes(data, pos) {
        Some((b, p)) => match string_from_utf8(slice_to_vec(b)) {
            Some(s) => {
                proof {
                    vstd::utf8::encode_utf8_decode_utf8(s@);
                }
                Some((s, p))
            },
            None => None,
        },
        None => None,
    }
}

} // verus!
