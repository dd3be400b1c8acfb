//! SMTP envelope derivation.
//!
//! The envelope of a message is derived from its headers: the sender is the
//! first `From` address, the recipients are the union of `To`, `Cc` and
//! `Bcc`, in that order, each a syntactically valid mail address. Address
//! syntax is a provided primitive: the `lettre` crate decides it, a verdict
//! on the bytes alone, which carries a name here. Missing `From` or `To`, a
//! mailbox without an address, a malformed address, or an empty recipient
//! list abort the message.

use vstd::prelude::*;
use crate::errors::EngineError;
use crate::headers::headers_parse;
use crate::headers::from_addr_of;
use crate::headers::to_addrs_of;
use crate::headers::cc_addrs_of;
use crate::headers::bcc_addrs_of;
use crate::headers::extract_envelope_fields;

verus! {

/// Whether these bytes are a syntactically valid mail address (utf-8 text
/// that the address parser accepts).
pub uninterp spec fn addr_ok(s: Seq<u8>) -> bool;

/// Relies on `lettre::Address::from_str` (reached through `str::parse`):
/// it accepts exactly the syntactically valid mail addresses, a verdict on
/// the given bytes alone.
#[verifier::external_body]
fn address_valid(s: &Vec<u8>) -> (r: bool)
    ensures
        r == addr_ok(s@),
{
    match core::str::from_utf8(&s[..]) {
        Ok(t) => t.parse::<lettre::Address>().is_ok(),
        Err(_) => false,
    }
}

/// An SMTP envelope as plain values: the sender address and the recipient
/// addresses, in `To`, `Cc`, `Bcc` order.
#[derive(Debug)]
pub struct Envelope {
    pub sender: Vec<u8>,
    pub recipients: Vec<Vec<u8>>,
}

/// The header fields an envelope needs are all present and usable: the
/// headers parse, the `From` header carries a valid first address, the
/// `To` header is present with every mailbox addressed, and `Cc`/`Bcc`,
/// when present, have every mailbox addressed.
pub open spec fn envelope_fields_ok(data: Seq<u8>) -> bool {
    &&& headers_parse(data)
    &&& from_addr_of(data) matches Some(Some(f)) && addr_ok(f)
    &&& to_addrs_of(data) matches Some(Some(_))
    &&& !(cc_addrs_of(data) matches Some(None))
    &&& !(bcc_addrs_of(data) matches Some(None))
}

/// The envelope recipients of a message: `To`, then `Cc`, then `Bcc`.
pub open spec fn recipients_of(data: Seq<u8>) -> Seq<Seq<u8>> {
    let to = match to_addrs_of(data) {
        Some(Some(t)) => t,
        _ => Seq::empty(),
    };
    let cc = match cc_addrs_of(data) {
        Some(Some(c)) => c,
        _ => Seq::empty(),
    };
    let bcc = match bcc_addrs_of(data) {
        Some(Some(b)) => b,
        _ => Seq::empty(),
    };
    to + cc + bcc
}

/// A message can be transmitted: its envelope fields are usable, every
/// recipient address is valid, and there is at least one recipient.
pub open spec fn message_sendable(data: Seq<u8>) -> bool {
    &&& envelope_fields_ok(data)
    &&& forall|i: int|
        0 <= i < recipients_of(data).len() ==> addr_ok(#[trigger] recipients_of(data)[i])
    &&& recipients_of(data).len() > 0
}

/// Derives the SMTP envelope of a message from its header block alone:
/// the sender is the first `From` address, the recipients are exactly the
/// `To`, `Cc` and `Bcc` addresses in that order. Succeeds exactly on
/// sendable messages; everything else is a parse failure, and the message
/// is not transmitted.
pub fn prepare_message(data: &Vec<u8>) -> (r: Result<Envelope, EngineError>)
    ensures
        r is Ok <==> message_sendable(data@),
        r matches Ok(env) ==> from_addr_of(data@) matches Some(Some(f)) && env.sender@ == f
            && env.recipients.deep_view() == recipients_of(data@),
        r is Err ==> r == Err::<Envelope, EngineError>(EngineError::ParseError),
{
    let h = match extract_envelope_fields(data) {
        Some(h) => h,
        None => {
            return Err(EngineError::ParseError);
        },
    };
    let f = match h.from_first {
        Some(Some(f)) => f,
        _ => {
            return Err(EngineError::ParseError);
        },
    };
    proof {
        assert(from_addr_of(data@) matches Some(Some(fv)) && fv == f.deep_view());
        assert(f.deep_view() =~= f@);
    }
    let mut rcpt_bytes = match h.to {
        Some(Some(t)) => t,
        _ => {
            return Err(EngineError::ParseError);
        },
    };
    let ghost to_v = rcpt_bytes.deep_view();
    let mut cc = match h.cc {
        Some(Some(c)) => c,
        Some(None) => {
            return Err(EngineError::ParseError);
        },
        None => Vec::new(),
    };
    let ghost cc_v = cc.deep_view();
    let mut bcc = match h.bcc {
        Some(Some(b)) => b,
        Some(None) => {
            return Err(EngineError::ParseError);
        },
        None => Vec::new(),
    };
    let ghost bcc_v = bcc.deep_view();
    proof {
        assert(cc_v =~= match cc_addrs_of(data@) {
            Some(Some(c)) => c,
            _ => Seq::empty(),
        });
        assert(bcc_v =~= match bcc_addrs_of(data@) {
            Some(Some(b)) => b,
            _ => Seq::empty(),
        });
    }
    if !address_valid(&f) {
        return Err(EngineError::ParseError);
    }
    rcpt_bytes.append(&mut cc);
    rcpt_bytes.append(&mut bcc);
    proof {
        assert(rcpt_bytes.deep_view() =~= to_v + cc_v + bcc_v);
        assert(rcpt_bytes.deep_view() =~= recipients_of(data@));
    }
    let mut i: usize = 0;
    while i < rcpt_bytes.len()
        invariant
            0 <= i <= rcpt_bytes@.len(),
            rcpt_bytes.deep_view() =~= recipients_of(data@),
            forall|k: int| 0 <= k < i ==> addr_ok(#[trigger] recipients_of(data@)[k]),
        decreases rcpt_bytes@.len() - i,
    {
        if !address_valid(&rcpt_bytes[i]) {
            proof {
                assert(recipients_of(data@)[i as int] == rcpt_bytes@[i as int].deep_view());
                assert(rcpt_bytes@[i as int].deep_view() =~= rcpt_bytes@[i as int]@);
                assert(!addr_ok(recipients_of(data@)[i as int]));
            }
            return Err(EngineError::ParseError);
        }
        proof {
            assert(recipients_of(data@)[i as int] == rcpt_bytes@[i as int].deep_view());
            assert(rcpt_bytes@[i as int].deep_view() =~= rcpt_bytes@[i as int]@);
        }
        i = i + 1;
    }
    if rcpt_bytes.len() == 0 {
        return Err(EngineError::ParseError);
    }
    Ok(Envelope { sender: f, recipients: rcpt_bytes })
}

} // verus!
