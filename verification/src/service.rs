//! The compute steps of one request/response exchange, free of any I/O.
//!
//! A serving worker reads request bytes, runs `process_request`, and writes
//! the resulting response bytes (or terminates without a response on an
//! error). A client builds its request with `codec::encode_request`, reads
//! the raw response, and recovers the plaintext with `client_decrypt`. The
//! response carries no envelope and always has exactly the message's length.

use vstd::prelude::*;
use crate::cipher;
use crate::codec;
use crate::errors::ExchangeError;
use crate::shift;

verus! {

/// A serving worker's whole transform: parse the record, parse its shift,
/// encrypt the message. Succeeds exactly when the bytes encode a record
/// whose shift text is a decimal `i32` literal; the response is then the
/// encrypted message, as long as the message itself. `MalformedMessage` is
/// returned exactly when the bytes are not a well-formed record, and
/// `ShiftParseError` exactly when they are one but the shift text is not a
/// valid shift.
pub fn process_request(bytes: &[u8]) -> (r: Result<Vec<u8>, ExchangeError>)
    ensures
        match r {
            Ok(resp) => ({
                &&& exists|m: Seq<u8>, sv: Seq<u8>|
                    #![auto]
                    bytes@ == codec::encoding_of(m, sv) && shift::is_valid_shift(sv)
                &&& forall|m: Seq<u8>, sv: Seq<u8>|
                    bytes@ == codec::encoding_of(m, sv) ==> shift::is_valid_shift(sv) && resp@
                        == cipher::encrypt_spec(m, shift::literal_value(sv))
            }),
            Err(e) => ({
                &&& (e == ExchangeError::MalformedMessage <==> (forall|m: Seq<u8>, sv: Seq<u8>|
                    bytes@ != codec::encoding_of(m, sv)))
                &&& (e == ExchangeError::ShiftParseError <==> (exists|m: Seq<u8>, sv: Seq<u8>|
                    #![auto]
                    bytes@ == codec::encoding_of(m, sv) && !shift::is_valid_shift(sv)))
            }),
        },
{
    let req = match codec::decode_request(bytes) {
        Ok(req) => req,
        Err(e) => {
            return Err(e);
        },
    };
    let shift_value = match shift::parse_shift(req.shift_val.as_slice()) {
        Ok(v) => v,
        Err(e) => {
            proof {
                assert(bytes@ == codec::encoding_of(req.message@, req.shift_val@));
            }
            return Err(e);
        },
    };
    let resp = cipher::encrypt_message(req.message.as_slice(), shift_value);
    proof {
        assert(bytes@ == codec::encoding_of(req.message@, req.shift_val@));
        assert(resp@ == cipher::encrypt_spec(req.message@, shift::literal_value(req.shift_val@)));
        assert forall|m: Seq<u8>, sv: Seq<u8>| bytes@ == codec::encoding_of(m, sv)
            implies shift::is_valid_shift(sv) && resp@ == cipher::encrypt_spec(
            m,
            shift::literal_value(sv),
        ) by {
            codec::lemma_encoding_injective(m, sv, req.message@, req.shift_val@);
        }
    }
    Ok(resp)
}

/// The client's local recovery step: parse the same shift text it sent and
/// undo the cipher on the received response. Succeeds exactly when the shift
/// text is a valid shift; the result is then the decryption of the response
/// at that shift.
pub fn client_decrypt(response: &[u8], shift_val: &[u8]) -> (r: Result<Vec<u8>, ExchangeError>)
    ensures
        match r {
            Ok(plain) => shift::is_valid_shift(shift_val@) && plain@ == cipher::decrypt_spec(
                response@,
                shift::literal_value(shift_val@),
            ),
            Err(e) => e == ExchangeError::ShiftParseError && !shift::is_valid_shift(shift_val@),
        },
{
    let shift_value = match shift::parse_shift(shift_val) {
        Ok(v) => v,
        Err(e) => {
            return Err(e);
        },
    };
    Ok(cipher::decrypt_message(response, shift_value))
}

} // verus!
