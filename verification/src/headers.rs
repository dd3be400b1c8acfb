//! Header extraction and the one-line message summary.
//!
//! Header parsing itself is a provided primitive: the `mail_parser` crate
//! reads the header block of the raw bytes. What each accessor yields is a
//! function of those bytes alone, so the results carry names that the
//! engine's contracts speak of. The summary and envelope logic on top of
//! the extracted plain values is verified.

use vstd::prelude::*;
use crate::errors::EngineError;

verus! {

/// Whether the raw bytes parse as a message header block at all.
pub uninterp spec fn headers_parse(data: Seq<u8>) -> bool;

/// The first address of the `From` header: `None` when the header is
/// absent, `Some(None)` when it carries no usable address.
pub uninterp spec fn from_addr_of(data: Seq<u8>) -> Option<Option<Seq<u8>>>;

/// The addresses of the `To` header: `None` when the header is absent,
/// `Some(None)` when some mailbox in it carries no address.
pub uninterp spec fn to_addrs_of(data: Seq<u8>) -> Option<Option<Seq<Seq<u8>>>>;

/// The addresses of the `Cc` header, shaped as `to_addrs_of`.
pub uninterp spec fn cc_addrs_of(data: Seq<u8>) -> Option<Option<Seq<Seq<u8>>>>;

/// The addresses of the `Bcc` header, shaped as `to_addrs_of`.
pub uninterp spec fn bcc_addrs_of(data: Seq<u8>) -> Option<Option<Seq<Seq<u8>>>>;

/// The decoded `From` header value (encoded words decoded), when the
/// header is present and its value is valid text.
pub uninterp spec fn from_text_of(data: Seq<u8>) -> Option<Seq<u8>>;

/// The decoded `Subject` header text, when present.
pub uninterp spec fn subject_of(data: Seq<u8>) -> Option<Seq<u8>>;

/// The envelope header fields of one message, as plain values.
pub struct EnvelopeFields {
    pub from_first: Option<Option<Vec<u8>>>,
    pub to: Option<Option<Vec<Vec<u8>>>>,
    pub cc: Option<Option<Vec<Vec<u8>>>>,
    pub bcc: Option<Option<Vec<Vec<u8>>>>,
}

/// The summary header fields of one message, as plain values.
pub struct DisplayFields {
    pub from_text: Option<Vec<u8>>,
    pub subject: Option<Vec<u8>>,
}

/// Relies on `mail_parser::MessageParser::parse_headers` and the accessors
/// `Message::{from,to,cc,bcc}`, `Address::{first,iter}` and
/// `Addr::address`: the envelope fields read from the raw bytes, on which
/// alone they depend.
#[verifier::external_body]
pub fn extract_envelope_fields(data: &Vec<u8>) -> (r: Option<EnvelopeFields>)
    ensures
        r is Some <==> headers_parse(data@),
        r matches Some(h) ==> h.from_first.deep_view() == from_addr_of(data@),
        r matches Some(h) ==> h.to.deep_view() == to_addrs_of(data@),
        r matches Some(h) ==> h.cc.deep_view() == cc_addrs_of(data@),
        r matches Some(h) ==> h.bcc.deep_view() == bcc_addrs_of(data@),
{
    let m = mail_parser::MessageParser::default().parse_headers(&data[..])?;
    let all = |a: &mail_parser::Address| -> Option<Vec<Vec<u8>>> {
        a.iter().map(|x| x.address().map(|s| s.as_bytes().to_vec())).collect()
    };
    Some(EnvelopeFields {
        from_first: m.from().map(|a| a.first().and_then(|x| x.address()).map(|s| s.as_bytes().to_vec())),
        to: m.to().map(&all),
        cc: m.cc().map(&all),
        bcc: m.bcc().map(&all),
    })
}

/// Relies on `mail_parser::MessageParser::parse_headers` with `From` and
/// `Subject` configured as text headers (`MessageParser::header_text`,
/// which decodes encoded words) and `HeaderValue::as_text`: the two
/// decoded header values, read from the raw bytes, on which alone they
/// depend.
#[verifier::external_body]
pub fn extract_display_fields(data: &Vec<u8>) -> (r: Option<DisplayFields>)
    ensures
        r is Some <==> headers_parse(data@),
        r matches Some(h) ==> h.from_text.deep_view() == from_text_of(data@),
        r matches Some(h) ==> h.subject.deep_view() == subject_of(data@),
{
    let m = mail_parser::MessageParser::new()
        .header_text(mail_parser::HeaderName::From)
        .header_text(mail_parser::HeaderName::Subject)
        .parse_headers(&data[..])?;
    let text = |n: mail_parser::HeaderName<'static>| -> Option<Vec<u8>> {
        m.header(n).and_then(|v| v.as_text()).map(|s| s.as_bytes().to_vec())
    };
    Some(DisplayFields {
        from_text: text(mail_parser::HeaderName::From),
        subject: text(mail_parser::HeaderName::Subject),
    })
}

/// The label opening a summary line.
pub open spec fn from_label() -> Seq<u8> {
    seq![70u8, 114u8, 111u8, 109u8, 58u8, 32u8]
}

/// The label between the sender and the subject of a summary line.
pub open spec fn subject_label() -> Seq<u8> {
    seq![44u8, 32u8, 83u8, 117u8, 98u8, 106u8, 101u8, 99u8, 116u8, 58u8, 32u8]
}

/// The one-line human summary of a message with the given sender address
/// and subject.
pub open spec fn summary_of(from: Seq<u8>, subject: Seq<u8>) -> Seq<u8> {
    from_label() + from + subject_label() + subject
}

/// A message can be summarised when its headers parse and both the `From`
/// and `Subject` header values are present as valid text.
pub open spec fn summarizable(data: Seq<u8>) -> bool {
    &&& headers_parse(data)
    &&& from_text_of(data) is Some
    &&& subject_of(data) is Some
}

/// Appends the opening label to a summary line.
fn push_from_label(out: &mut Vec<u8>)
    ensures
        final(out)@ == old(out)@ + from_label(),
{
    out.push(70u8);
    out.push(114u8);
    out.push(111u8);
    out.push(109u8);
    out.push(58u8);
    out.push(32u8);
    proof {
        assert(out@ =~= old(out)@ + from_label());
    }
}

/// Appends the subject label to a summary line.
fn push_subject_label(out: &mut Vec<u8>)
    ensures
        final(out)@ == old(out)@ + subject_label(),
{
    out.push(44u8);
    out.push(32u8);
    out.push(83u8);
    out.push(117u8);
    out.push(98u8);
    out.push(106u8);
    out.push(101u8);
    out.push(99u8);
    out.push(116u8);
    out.push(58u8);
    out.push(32u8);
    proof {
        assert(out@ =~= old(out)@ + subject_label());
    }
}

/// Renders the one-line summary of a message: its `From` and `Subject`
/// header values. Fails when the headers do not parse or either header is
/// absent or not valid text.
pub fn summarize(data: &Vec<u8>) -> (r: Result<Vec<u8>, EngineError>)
    ensures
        r is Ok <==> summarizable(data@),
        r matches Ok(line) ==> from_text_of(data@) matches Some(f) && subject_of(
            data@,
        ) matches Some(su) && line@ == summary_of(f, su),
        r is Err ==> r == Err::<Vec<u8>, EngineError>(EngineError::ParseError),
{
    let h = match extract_display_fields(data) {
        Some(h) => h,
        None => {
            return Err(EngineError::ParseError);
        },
    };
    let mut f = match h.from_text {
        Some(f) => f,
        None => {
            return Err(EngineError::ParseError);
        },
    };
    let mut su = match h.subject {
        Some(su) => su,
        None => {
            return Err(EngineError::ParseError);
        },
    };
    let ghost fv = f@;
    let ghost suv = su@;
    let mut out: Vec<u8> = Vec::new();
    push_from_label(&mut out);
    out.append(&mut f);
    push_subject_label(&mut out);
    out.append(&mut su);
    proof {
        assert(out@ =~= summary_of(fv, suv));
    }
    Ok(out)
}

} // verus!
