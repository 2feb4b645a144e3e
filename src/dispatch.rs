use vstd::prelude::*;
use crate::attrs::{bit_order_of, parse_bit_order, parse_bool, truthy};
use crate::bitmap::BitOrder;
use crate::config::{Printer, PrinterMap};
use crate::errors::{ProxyError, message};
use crate::escpos::{JsonJob, build_escpos_from_epos_doc, build_escpos_from_ops, doc_bytes, ops_bytes};
use crate::soap::{base64_standard_decode, decode_base64, epos_doc_of, lemma_parsed_images_sized, parse_epos_soap, xml_events_of};
use crate::text::{eq_ci, starts_with_ci, str_eq_ignore_ascii_case, str_starts_with_ignore_ascii_case};

verus! {

/// The HTTP method of a print request.
#[derive(Debug, Clone, Copy, PartialEq, Eq, Structural)]
pub enum RequestMethod {
    Options,
    Post,
    Put,
    Other,
}

/// What to do with a request that passed the method gate.
#[derive(Debug, Clone, Copy, PartialEq, Eq, Structural)]
pub enum Admission {
    Preflight,
    Proceed,
}

/// How the body of a print request is to be read.
#[derive(Debug, Clone, Copy, PartialEq, Eq, Structural)]
pub enum PayloadMode {
    Epos,
    Raw,
    Json,
    Unsupported,
}

/// The method gate: a preflight is answered at once; only POST and PUT print.
pub fn admit_method(method: RequestMethod) -> (r: Result<Admission, ProxyError>)
    ensures
        method == RequestMethod::Options ==> r == Ok::<Admission, ProxyError>(Admission::Preflight),
        (method == RequestMethod::Post || method == RequestMethod::Put) ==> r == Ok::<Admission, ProxyError>(Admission::Proceed),
        method == RequestMethod::Other ==> (r matches Err(e) && e.is_bad_payload()),
{
    match method {
        RequestMethod::Options => Ok(Admission::Preflight),
        RequestMethod::Post | RequestMethod::Put => Ok(Admission::Proceed),
        RequestMethod::Other => Err(ProxyError::BadPayload(message("use POST or PUT to send print data"))),
    }
}

/// The printer that a request names.
pub fn lookup_printer<'a>(printers: &'a PrinterMap, id: &str) -> (r: Result<&'a Printer, ProxyError>)
    requires
        printers.wf(),
    ensures
        r matches Ok(p) ==> printers@.contains_key(id@) && printers@[id@] == *p,
        r matches Err(e) ==> !printers@.contains_key(id@) && (e matches ProxyError::NotFound(n) && n@ == id@),
        r is Err <==> !printers@.contains_key(id@),
{
    match printers.get(id) {
        Some(p) => Ok(p),
        None => Err(ProxyError::NotFound(id.to_owned())),
    }
}

/// How a request with this content type and raw-mode header is read.
pub open spec fn mode_of(content_type: Seq<char>, raw_mode: Option<Seq<char>>) -> PayloadMode {
    if starts_with_ci(content_type, "text/plain"@) || starts_with_ci(content_type, "text/xml"@)
        || starts_with_ci(content_type, "application/xml"@) {
        PayloadMode::Epos
    } else if starts_with_ci(content_type, "application/octet-stream"@) || (raw_mode matches Some(m) && eq_ci(m, "raw"@)) {
        PayloadMode::Raw
    } else if starts_with_ci(content_type, "application/json"@) {
        PayloadMode::Json
    } else {
        PayloadMode::Unsupported
    }
}

/// The characters of an optional string slice.
pub open spec fn opt_str_view(o: Option<&str>) -> Option<Seq<char>> {
    match o {
        Some(s) => Some(s@),
        None => None,
    }
}

/// Classifies a request by its content type, case-insensitively by prefix;
/// `raw_mode` is the raw-mode header, which asks for raw mode when it says `raw`.
pub fn classify_payload(content_type: &str, raw_mode: Option<&str>) -> (r: PayloadMode)
    ensures
        r == mode_of(content_type@, opt_str_view(raw_mode)),
{
    if str_starts_with_ignore_ascii_case(content_type, "text/plain")
        || str_starts_with_ignore_ascii_case(content_type, "text/xml")
        || str_starts_with_ignore_ascii_case(content_type, "application/xml") {
        return PayloadMode::Epos;
    }
    let raw_header = match raw_mode {
        Some(m) => str_eq_ignore_ascii_case(m, "raw"),
        None => false,
    };
    if str_starts_with_ignore_ascii_case(content_type, "application/octet-stream") || raw_header {
        PayloadMode::Raw
    } else if str_starts_with_ignore_ascii_case(content_type, "application/json") {
        PayloadMode::Json
    } else {
        PayloadMode::Unsupported
    }
}

/// The invert override: the query parameter if given, else the header.
pub fn invert_override(query: Option<&str>, header: Option<&str>) -> (r: Option<bool>)
    ensures
        r == match opt_str_view(query) {
            Some(q) => Some(truthy(q)),
            None => match opt_str_view(header) {
                Some(h) => Some(truthy(h)),
                None => None,
            },
        },
{
    match query {
        Some(q) => Some(parse_bool(q)),
        None => match header {
            Some(h) => Some(parse_bool(h)),
            None => None,
        },
    }
}

/// The bit-order override: the query parameter if given, else the header.
pub fn bit_order_override(query: Option<&str>, header: Option<&str>) -> (r: Option<BitOrder>)
    ensures
        r == match opt_str_view(query) {
            Some(q) => Some(bit_order_of(q)),
            None => match opt_str_view(header) {
                Some(h) => Some(bit_order_of(h)),
                None => None,
            },
        },
{
    match query {
        Some(q) => Some(parse_bit_order(q)),
        None => match header {
            Some(h) => Some(parse_bit_order(h)),
            None => None,
        },
    }
}

/// The bytes that a JSON job asks to print, or the message with which it is
/// rejected: base64 that does not decode, or nothing to print.
pub open spec fn json_bytes(job: JsonJob) -> Result<Seq<u8>, Seq<char>> {
    let bytes = match job {
        JsonJob::RawBase64 { base64 } => match base64_standard_decode(base64@) {
            Ok(b) => Ok(b),
            Err(m) => Err("base64 field is not valid base64: "@ + m),
        },
        JsonJob::Ops { ops } => Ok(ops_bytes(ops@)),
    };
    match bytes {
        Ok(b) => if b.len() > 0 {
            Ok(b)
        } else {
            Err("the job holds no ESC/POS data"@)
        },
        Err(m) => Err(m),
    }
}

fn chars_of(s: &str) -> (r: Vec<char>)
    ensures
        r@ == s@,
{
    let n = s.unicode_len();
    let mut out: Vec<char> = Vec::new();
    let mut i: usize = 0;
    while i < n
        invariant
            n == s@.len(),
            i <= n,
            out@ == s@.subrange(0, i as int),
        decreases n - i,
    {
        out.push(s.get_char(i));
        i += 1;
        assert(out@ =~= s@.subrange(0, i as int));
    }
    assert(s@.subrange(0, n as int) =~= s@);
    out
}

/// The bytes of a JSON job: the decoded base64, or the encoded operations;
/// rejected where the base64 is invalid or nothing is left to print.
pub fn json_job_bytes(job: &JsonJob) -> (r: Result<Vec<u8>, ProxyError>)
    ensures
        r is Ok <==> json_bytes(*job) is Ok,
        r matches Ok(b) ==> json_bytes(*job) == Ok::<Seq<u8>, Seq<char>>(b@),
        r matches Err(e) ==> (e matches ProxyError::BadPayload(m) && json_bytes(*job) == Err::<Seq<u8>, Seq<char>>(m@)),
{
    let bytes = match job {
        JsonJob::RawBase64 { base64 } => {
            let text = chars_of(base64.as_str());
            match decode_base64(text.as_slice()) {
                Ok(b) => b,
                Err(m) => {
                    let mut text = message("base64 field is not valid base64: ");
                    text.append(m.as_str());
                    return Err(ProxyError::BadPayload(text));
                },
            }
        },
        JsonJob::Ops { ops } => match build_escpos_from_ops(ops.as_slice()) {
            Ok(b) => b,
            Err(e) => {
                return Err(e);
            },
        },
    };
    if bytes.len() == 0 {
        return Err(ProxyError::BadPayload(message("the job holds no ESC/POS data")));
    }
    Ok(bytes)
}

/// The message with which a request of no accepted content type is
/// rejected: it names the accepted types.
pub open spec fn unsupported_message() -> Seq<char> {
    "unsupported payload: use text/plain, text/xml or application/xml (ePOS), application/octet-stream (raw) or application/json (job)"@
}

/// The bytes to transmit for a request body in the given mode, or the
/// message with which the request is rejected.
pub open spec fn payload_of(mode: PayloadMode, body: Seq<u8>, job: Option<JsonJob>, invert: Option<bool>, bit: Option<BitOrder>) -> Result<Seq<u8>, Seq<char>> {
    match mode {
        PayloadMode::Epos => match epos_doc_of(xml_events_of(body), invert, bit) {
            Ok(d) => Ok(doc_bytes(d)),
            Err(m) => Err(m),
        },
        PayloadMode::Raw => if body.len() > 0 {
            Ok(body)
        } else {
            Err("empty body in raw mode"@)
        },
        PayloadMode::Json => match job {
            Some(j) => json_bytes(j),
            None => Err("JSON body is not a print job"@),
        },
        PayloadMode::Unsupported => Err(unsupported_message()),
    }
}

/// Turns a request body into the bytes to transmit. ePOS payloads are
/// parsed and encoded; raw bodies go as they are and must not be empty; a
/// JSON body comes as its decoded job, `None` where it did not decode.
pub fn build_payload(mode: PayloadMode, body: &[u8], job: Option<JsonJob>, invert: Option<bool>, bit: Option<BitOrder>) -> (r: Result<Vec<u8>, ProxyError>)
    ensures
        r is Ok <==> payload_of(mode, body@, job, invert, bit) is Ok,
        r matches Ok(b) ==> payload_of(mode, body@, job, invert, bit) == Ok::<Seq<u8>, Seq<char>>(b@),
        r matches Err(e) ==> (e matches ProxyError::BadPayload(m)
            && payload_of(mode, body@, job, invert, bit) == Err::<Seq<u8>, Seq<char>>(m@)),
{
    match mode {
        PayloadMode::Epos => {
            let doc = match parse_epos_soap(body, invert, bit) {
                Ok(d) => d,
                Err(e) => {
                    return Err(e);
                },
            };
            proof {
                lemma_parsed_images_sized(xml_events_of(body@), invert, bit);
            }
            match build_escpos_from_epos_doc(&doc) {
                Ok(out) => Ok(out),
                Err(_) => Err(ProxyError::Internal),
            }
        },
        PayloadMode::Raw => {
            if body.len() == 0 {
                return Err(ProxyError::BadPayload(message("empty body in raw mode")));
            }
            let mut out: Vec<u8> = Vec::new();
            let mut i: usize = 0;
            while i < body.len()
                invariant
                    i <= body@.len(),
                    out@ == body@.subrange(0, i as int),
                decreases body.len() - i,
            {
                out.push(body[i]);
                i += 1;
                assert(out@ =~= body@.subrange(0, i as int));
            }
            assert(body@.subrange(0, i as int) =~= body@);
            Ok(out)
        },
        PayloadMode::Json => match job {
            Some(j) => json_job_bytes(&j),
            None => Err(ProxyError::BadPayload(message("JSON body is not a print job"))),
        },
        PayloadMode::Unsupported => Err(ProxyError::BadPayload(message(
            "unsupported payload: use text/plain, text/xml or application/xml (ePOS), application/octet-stream (raw) or application/json (job)",
        ))),
    }
}

} // verus!
