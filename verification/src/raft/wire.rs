//! How the outcome of a call travels: errors under their wire values, and
//! results as one block of bytes.

use crate::codec::{
    dec_bool, dec_bytes, enc_bool, enc_bytes, get_bool, get_bytes, lemma_bool_round,
    lemma_bytes_round, lemma_holds_split, lemma_holds_whole, put_bool, put_bytes,
};
use crate::raft::master::{result_view, ExecError, ExecResult};
use vstd::prelude::*;
use vstd::slice::slice_to_vec;

verus! {

/// The wire value of an error. The values are fixed: they are what peers of
/// other builds read.
pub open spec fn error_code(e: ExecError) -> u8 {
    match e {
        ExecError::SmNotFound => 0,
        ExecError::FnNotFound => 1,
        ExecError::ServersUnreachable => 2,
        ExecError::CannotConstructClient => 3,
        ExecError::NotCommitted => 4,
        ExecError::Unknown => 5,
        ExecError::TooManyRetry => 6,
    }
}

/// The error of a wire value: none for a value that is not an error's.
pub open spec fn error_of_code(code: u8) -> Option<ExecError> {
    if code == 0 {
        Some(ExecError::SmNotFound)
    } else if code == 1 {
        Some(ExecError::FnNotFound)
    } else if code == 2 {
        Some(ExecError::ServersUnreachable)
    } else if code == 3 {
        Some(ExecError::CannotConstructClient)
    } else if code == 4 {
        Some(ExecError::NotCommitted)
    } else if code == 5 {
        Some(ExecError::Unknown)
    } else if code == 6 {
        Some(ExecError::TooManyRetry)
    } else {
        None
    }
}

/// The wire value of an error.
pub fn code_of(e: ExecError) -> (r: u8)
    ensures
        r == error_code(e),
        error_of_code(r) == Some(e),
{
    match e {
        ExecError::SmNotFound => 0,
        ExecError::FnNotFound => 1,
        ExecError::ServersUnreachable => 2,
        ExecError::CannotConstructClient => 3,
        ExecError::NotCommitted => 4,
        ExecError::Unknown => 5,
        ExecError::TooManyRetry => 6,
    }
}

/// The error of a wire value.
pub fn error_from_code(code: u8) -> (r: Option<ExecError>)
    ensures
        r == error_of_code(code),
        r is Some ==> error_code(r.unwrap()) == code,
{
    if code == 0 {
        Some(ExecError::SmNotFound)
    } else if code == 1 {
        Some(ExecError::FnNotFound)
    } else if code == 2 {
        Some(ExecError::ServersUnreachable)
    } else if code == 3 {
        Some(ExecError::CannotConstructClient)
    } else if code == 4 {
        Some(ExecError::NotCommitted)
    } else if code == 5 {
        Some(ExecError::Unknown)
    } else if code == 6 {
        Some(ExecError::TooManyRetry)
    } else {
        None
    }
}

/// The outcome of a call as bytes: a 1 and the output behind its length, or a
/// 0 and the wire value of the error.
pub open spec fn enc_result(r: Result<Seq<u8>, ExecError>) -> Seq<u8> {
    match r {
        Ok(d) => enc_bool(true) + enc_bytes(d),
        Err(e) => enc_bool(false) + seq![error_code(e)],
    }
}

/// The outcome that the bytes spell.
pub open spec fn dec_result(data: Seq<u8>) -> Option<Result<Seq<u8>, ExecError>> {
    match dec_bool(data, 0) {
        Some((true, p)) => match dec_bytes(data, p) {
            Some((d, q)) => if q == data.len() {
                Some(Ok(d))
            } else {
                None
            },
            None => None,
        },
        Some((false, p)) => if data.len() == p + 1 {
            match error_of_code(data[p]) {
                Some(e) => Some(Err(e)),
                None => None,
            }
        } else {
            None
        },
        None => None,
    }
}

/// Writes the outcome of a call.
pub fn encode_result(r: &ExecResult) -> (out: Vec<u8>)
    ensures
        out@ == enc_result(result_view(*r)),
{
    let mut out: Vec<u8> = Vec::new();
    match r {
        Ok(d) => {
            put_bool(&mut out, true);
            put_bytes(&mut out, d.as_slice());
        },
        Err(e) => {
            put_bool(&mut out, false);
            out.push(code_of(*e));
        },
    }
    proof {
        assert(out@ =~= enc_result(result_view(*r)));
    }
    out
}

/// Reads the outcome of a call.
pub fn decode_result(data: &[u8]) -> (r: Option<ExecResult>)
    ensures
        match r {
            Some(x) => dec_result(data@) == Some(result_view(x)),
            None => dec_result(data@) is None,
        },
{
    let (ok, p) = match get_bool(data, 0) {
        Some(r) => r,
        None => {
            return None;
        },
    };
    if ok {
        let (d, q) = match get_bytes(data, p) {
            Some(r) => r,
            None => {
                return None;
            },
        };
        if q != data.len() {
            return None;
        }
        Some(Ok(slice_to_vec(d)))
    } else {
        if data.len() != p + 1 {
            return None;
        }
        match error_from_code(data[p]) {
            Some(e) => Some(Err(e)),
            None => None,
        }
    }
}

/// The outcome that was written is the outcome that is read.
pub proof fn law_result_round(r: Result<Seq<u8>, ExecError>)
    requires
        r is Ok ==> r.unwrap().len() <= u64::MAX,
    ensures
        dec_result(enc_result(r)) == Some(r),
{
    let data = enc_result(r);
    lemma_holds_whole(data);
    match r {
        Ok(d) => {
            lemma_holds_split(data, 0, enc_bool(true), enc_bytes(d));
            lemma_bool_round(data, 0, true);
            lemma_bytes_round(data, 1, d);
        },
        Err(e) => {
            lemma_holds_split(data, 0, enc_bool(false), seq![error_code(e)]);
            lemma_bool_round(data, 0, false);
            assert(data[1] == error_code(e));
        },
    }
}

} // verus!
