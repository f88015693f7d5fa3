//! The decisions of the read-only subprocess protocol: request limits and
//! envelope checks, error categories with their exit codes, the JSON nesting
//! bound, the choice of pack decoder and the expected-lock decoding.

use base64::Engine;
use crate::composition::{source_failure_text, SourceFailure};
use crate::model::{is_pack_relative, is_valid_identifier, chars_of, Identifier, PackRelativePath};
use crate::strict::{trim_start, trim_start_chars};
use crate::text::str_eq;
use vstd::prelude::*;

verus! {

/// The protocol that requests and responses are framed in.
pub const HOST_PROTOCOL: &'static str = "invokrum.host/v1";

/// The largest request read from standard input, in bytes.
pub const MAX_REQUEST_BYTES: usize = 1_048_576;

/// The largest pack document loaded, in bytes.
pub const MAX_PACK_BYTES: usize = 1_048_576;

/// The deepest nesting of JSON objects and arrays accepted in a request.
pub const MAX_JSON_DEPTH: usize = 32;

/// The longest request identifier, in bytes.
pub const MAX_REQUEST_ID_BYTES: usize = 128;

/// Exit code of a successful run.
pub const EXIT_SUCCESS: i32 = 0;

/// Exit code of a pack, lock, path, local-source or request failure.
pub const EXIT_INPUT: i32 = 3;

/// Exit code of a schema, domain, profile or composition failure.
pub const EXIT_VALIDATION: i32 = 4;

/// Exit code of an integrity or internal failure.
pub const EXIT_INTERNAL: i32 = 7;

/// The category of a protocol failure.
#[derive(Clone, Copy, Debug, PartialEq, Eq, Structural)]
pub enum RpcErrorKind {
    Request,
    Input,
    Validation,
    Composition,
    Integrity,
    Internal,
}

impl RpcErrorKind {
    /// The category's code in the error envelope.
    pub fn code(self) -> (r: &'static str)
        ensures
            r@ == match self {
                RpcErrorKind::Request => "request"@,
                RpcErrorKind::Input => "input"@,
                RpcErrorKind::Validation => "validation"@,
                RpcErrorKind::Composition => "composition"@,
                RpcErrorKind::Integrity => "integrity"@,
                RpcErrorKind::Internal => "internal"@,
            },
    {
        match self {
            RpcErrorKind::Request => "request",
            RpcErrorKind::Input => "input",
            RpcErrorKind::Validation => "validation",
            RpcErrorKind::Composition => "composition",
            RpcErrorKind::Integrity => "integrity",
            RpcErrorKind::Internal => "internal",
        }
    }

    /// The process exit code of the category.
    pub fn exit_code(self) -> (r: i32)
        ensures
            r == match self {
                RpcErrorKind::Request | RpcErrorKind::Input => EXIT_INPUT,
                RpcErrorKind::Validation | RpcErrorKind::Composition => EXIT_VALIDATION,
                RpcErrorKind::Integrity | RpcErrorKind::Internal => EXIT_INTERNAL,
            },
    {
        match self {
            RpcErrorKind::Request | RpcErrorKind::Input => EXIT_INPUT,
            RpcErrorKind::Validation | RpcErrorKind::Composition => EXIT_VALIDATION,
            RpcErrorKind::Integrity | RpcErrorKind::Internal => EXIT_INTERNAL,
        }
    }
}

/// A protocol failure: its category and its message.
#[derive(Clone, Debug)]
pub struct RpcError {
    pub kind: RpcErrorKind,
    pub message: String,
}

impl RpcError {
    /// A failure of the given category with the given message.
    pub fn new(kind: RpcErrorKind, message: &str) -> (r: Self)
        ensures
            r.kind == kind,
            r.message@ == message@,
    {
        RpcError { kind, message: message.to_owned() }
    }
}

/// Accepts request bytes read with a bound of one byte past the limit:
/// more than the limit, or nothing, is a request failure.
pub fn bounded_request(bytes: Vec<u8>, maximum_bytes: usize) -> (r: Result<Vec<u8>, RpcError>)
    ensures
        match r {
            Ok(b) => 0 < bytes@.len() <= maximum_bytes && b@ == bytes@,
            Err(e) => e.kind == RpcErrorKind::Request && if bytes@.len() > maximum_bytes {
                e.message@ == "request exceeds the configured byte limit"@
            } else {
                bytes@.len() == 0 && e.message@ == "request is empty"@
            },
        },
{
    if bytes.len() > maximum_bytes {
        return Err(RpcError::new(RpcErrorKind::Request, "request exceeds the configured byte limit"));
    }
    if bytes.len() == 0 {
        return Err(RpcError::new(RpcErrorKind::Request, "request is empty"));
    }
    Ok(bytes)
}

/// Where the nesting scan of JSON bytes stands.
pub struct DepthScan {
    pub depth: int,
    pub in_string: bool,
    pub escaped: bool,
    pub exceeded: bool,
}

/// One byte of the nesting scan: strings (with their escapes) are skipped,
/// `{` and `[` open a level (saturating), `}` and `]` close one (never below
/// zero), and the scan stops once a level passes the maximum.
pub open spec fn depth_step(st: DepthScan, b: u8, maximum_depth: usize) -> DepthScan {
    if st.exceeded {
        st
    } else if st.in_string {
        if st.escaped {
            DepthScan { escaped: false, ..st }
        } else if b == 0x5c {
            DepthScan { escaped: true, ..st }
        } else if b == 0x22 {
            DepthScan { in_string: false, ..st }
        } else {
            st
        }
    } else if b == 0x22 {
        DepthScan { in_string: true, ..st }
    } else if b == 0x7b || b == 0x5b {
        let depth = if st.depth < usize::MAX { st.depth + 1 } else { st.depth };
        DepthScan { depth, exceeded: depth > maximum_depth, ..st }
    } else if b == 0x7d || b == 0x5d {
        DepthScan { depth: if st.depth > 0 { st.depth - 1 } else { 0 }, ..st }
    } else {
        st
    }
}

/// The nesting scan of a whole byte string.
pub open spec fn depth_scan(bytes: Seq<u8>, maximum_depth: usize) -> DepthScan
    decreases bytes.len(),
{
    if bytes.len() == 0 {
        DepthScan { depth: 0, in_string: false, escaped: false, exceeded: false }
    } else {
        depth_step(depth_scan(bytes.drop_last(), maximum_depth), bytes.last(), maximum_depth)
    }
}

/// Rejects JSON bytes whose objects and arrays nest deeper than the maximum,
/// without decoding them.
pub fn validate_json_depth(bytes: &[u8], maximum_depth: usize) -> (r: Result<(), &'static str>)
    ensures
        match r {
            Ok(()) => !depth_scan(bytes@, maximum_depth).exceeded,
            Err(m) => depth_scan(bytes@, maximum_depth).exceeded
                && m@ == "request exceeds the configured JSON depth limit"@,
        },
{
    let n = bytes.len();
    let mut depth: usize = 0;
    let mut in_string = false;
    let mut escaped = false;
    let mut i: usize = 0;
    while i < n
        invariant
            n == bytes@.len(),
            0 <= i <= n,
            depth_scan(bytes@.subrange(0, i as int), maximum_depth) == (DepthScan {
                depth: depth as int,
                in_string,
                escaped,
                exceeded: false,
            }),
        decreases n - i,
    {
        let b = bytes[i];
        assert(bytes@.subrange(0, i + 1).drop_last() =~= bytes@.subrange(0, i as int));
        assert(bytes@.subrange(0, i + 1).last() == b);
        if in_string {
            if escaped {
                escaped = false;
            } else if b == 0x5c {
                escaped = true;
            } else if b == 0x22 {
                in_string = false;
            }
        } else if b == 0x22 {
            in_string = true;
        } else if b == 0x7b || b == 0x5b {
            depth = depth.saturating_add(1);
            if depth > maximum_depth {
                proof {
                    lemma_depth_scan_stays_exceeded(bytes@, maximum_depth, i + 1);
                    assert(bytes@.subrange(0, n as int) =~= bytes@);
                }
                return Err("request exceeds the configured JSON depth limit");
            }
        } else if b == 0x7d || b == 0x5d {
            depth = depth.saturating_sub(1);
        }
        i = i + 1;
    }
    assert(bytes@.subrange(0, n as int) =~= bytes@);
    Ok(())
}

/// Once the nesting bound is passed, the rest of the bytes change nothing.
proof fn lemma_depth_scan_stays_exceeded(bytes: Seq<u8>, maximum_depth: usize, k: int)
    requires
        0 <= k <= bytes.len(),
        depth_scan(bytes.subrange(0, k), maximum_depth).exceeded,
    ensures
        depth_scan(bytes, maximum_depth) == depth_scan(bytes.subrange(0, k), maximum_depth),
    decreases bytes.len() - k,
{
    if k < bytes.len() {
        assert(bytes.subrange(0, k + 1).drop_last() =~= bytes.subrange(0, k));
        lemma_depth_scan_stays_exceeded(bytes, maximum_depth, k + 1);
    } else {
        assert(bytes.subrange(0, k) =~= bytes);
    }
}

/// The longest decoder diagnostic returned in a request failure, in characters.
pub const MAX_PARSER_MESSAGE_CHARS: usize = 256;

/// A decoder diagnostic cut to its first characters.
pub fn bounded_parser_message(message: &str) -> (r: String)
    ensures
        message@.len() <= MAX_PARSER_MESSAGE_CHARS ==> r@ == message@,
        message@.len() > MAX_PARSER_MESSAGE_CHARS ==> r@ == message@.subrange(0, MAX_PARSER_MESSAGE_CHARS as int),
{
    let n = message.unicode_len();
    if n <= MAX_PARSER_MESSAGE_CHARS {
        message.to_owned()
    } else {
        message.substring_char(0, MAX_PARSER_MESSAGE_CHARS).to_owned()
    }
}

/// Checks a decoded request's envelope: the protocol first, then a request
/// identifier of 1 to 128 bytes.
pub fn check_envelope(protocol: &str, request_id: &str) -> (r: Result<(), RpcError>)
    ensures
        protocol@ != HOST_PROTOCOL@ ==> (r matches Err(e) && e.kind == RpcErrorKind::Request
            && e.message@ == "unsupported protocol `"@ + protocol@ + "`; expected `"@ + HOST_PROTOCOL@ + "`"@),
        protocol@ == HOST_PROTOCOL@ && (request_id@.len() == 0 || request_id.len() > MAX_REQUEST_ID_BYTES)
            ==> (r matches Err(e) && e.kind == RpcErrorKind::Request
            && e.message@ == "request_id must contain between 1 and 128 bytes"@),
        protocol@ == HOST_PROTOCOL@ && request_id@.len() > 0 && request_id.len() <= MAX_REQUEST_ID_BYTES
            ==> (r is Ok),
{
    if !str_eq(protocol, HOST_PROTOCOL) {
        let message = "unsupported protocol `".to_owned().concat(protocol).concat("`; expected `").concat(
            HOST_PROTOCOL,
        ).concat("`");
        return Err(RpcError { kind: RpcErrorKind::Request, message });
    }
    if request_id.is_empty() || request_id.len() > MAX_REQUEST_ID_BYTES {
        return Err(RpcError::new(RpcErrorKind::Request, "request_id must contain between 1 and 128 bytes"));
    }
    Ok(())
}

/// Parses the requested profile identifier; an invalid one is a validation failure.
pub fn parse_profile(value: &str) -> (r: Result<Identifier, RpcError>)
    ensures
        match r {
            Ok(id) => is_valid_identifier(value@) && id@ == value@,
            Err(e) => !is_valid_identifier(value@) && e.kind == RpcErrorKind::Validation
                && e.message@ == "profile identifier is invalid"@,
        },
{
    match Identifier::parse(value) {
        Ok(id) => Ok(id),
        Err(_) => Err(RpcError::new(RpcErrorKind::Validation, "profile identifier is invalid")),
    }
}

/// Parses the pack file name as a pack-relative path; one that breaks the
/// portable path policy is an input failure.
pub fn pack_file_path(file_name: &str) -> (r: Result<PackRelativePath, RpcError>)
    ensures
        match r {
            Ok(p) => is_pack_relative(file_name@) && p@ == file_name@,
            Err(e) => !is_pack_relative(file_name@) && e.kind == RpcErrorKind::Input
                && e.message@ == "pack file name violates the portable path policy"@,
        },
{
    match PackRelativePath::parse(file_name) {
        Ok(p) => Ok(p),
        Err(_) => Err(RpcError::new(RpcErrorKind::Input, "pack file name violates the portable path policy")),
    }
}

/// The input failure for a pack document that the source refused to load.
pub fn pack_source_rejection(failure: &SourceFailure) -> (r: RpcError)
    ensures
        r.kind == RpcErrorKind::Input,
        r.message@ == "pack input `"@ + failure.path@ + "` was rejected: "@ + source_failure_text(failure.kind),
{
    let message = "pack input `".to_owned().concat(failure.path.as_str()).concat("` was rejected: ").concat(
        failure.kind.describe(),
    );
    RpcError { kind: RpcErrorKind::Input, message }
}

/// The decoder a pack document is read with.
#[derive(Clone, Copy, Debug, PartialEq, Eq, Structural)]
pub enum PackFormat {
    Json,
    Yaml,
}

/// A character with ASCII upper-case letters made lower case.
pub open spec fn ascii_lower(c: char) -> char {
    if 'A' <= c && c <= 'Z' {
        ((c as u32) + 32) as char
    } else {
        c
    }
}

/// A text with ASCII upper-case letters made lower case.
pub open spec fn ascii_lowercase(s: Seq<char>) -> Seq<char> {
    Seq::new(s.len(), |i: int| ascii_lower(s[i]))
}

/// The decoder for a pack: by its file extension, ignoring ASCII case
/// (`json`; `yaml` or `yml`), else JSON when the text starts with `{` after
/// white space, else YAML.
pub open spec fn pack_format_for(extension: Seq<char>, text: Seq<char>) -> PackFormat {
    let ext = ascii_lowercase(extension);
    if ext == seq!['j', 's', 'o', 'n'] {
        PackFormat::Json
    } else if ext == seq!['y', 'a', 'm', 'l'] || ext == seq!['y', 'm', 'l'] {
        PackFormat::Yaml
    } else if trim_start(text).len() > 0 && trim_start(text)[0] == '{' {
        PackFormat::Json
    } else {
        PackFormat::Yaml
    }
}

fn lower_ascii_char(c: char) -> (r: char)
    ensures
        r == ascii_lower(c),
{
    if 'A' <= c && c <= 'Z' {
        ((c as u8) + 32) as char
    } else {
        c
    }
}

/// Whether `text` made ASCII lower case is `word`.
fn lowercase_is(text: &Vec<char>, word: &Vec<char>) -> (r: bool)
    ensures
        r == (ascii_lowercase(text@) == word@),
{
    if text.len() != word.len() {
        assert(ascii_lowercase(text@).len() != word@.len());
        return false;
    }
    let mut i: usize = 0;
    while i < text.len()
        invariant
            text@.len() == word@.len(),
            0 <= i <= text@.len(),
            forall|j: int| 0 <= j < i ==> ascii_lower(text@[j]) == word@[j],
        decreases text@.len() - i,
    {
        if lower_ascii_char(text[i]) != word[i] {
            assert(ascii_lowercase(text@)[i as int] != word@[i as int]);
            return false;
        }
        i = i + 1;
    }
    assert(ascii_lowercase(text@) =~= word@);
    true
}

/// Chooses the decoder for a pack document from its file extension and text.
pub fn pack_format(extension: &str, text: &str) -> (r: PackFormat)
    ensures
        r == pack_format_for(extension@, text@),
{
    let ext = chars_of(extension);
    let json: Vec<char> = vec!['j', 's', 'o', 'n'];
    let yaml: Vec<char> = vec!['y', 'a', 'm', 'l'];
    let yml: Vec<char> = vec!['y', 'm', 'l'];
    assert(json@ =~= seq!['j', 's', 'o', 'n']);
    assert(yaml@ =~= seq!['y', 'a', 'm', 'l']);
    assert(yml@ =~= seq!['y', 'm', 'l']);
    if lowercase_is(&ext, &json) {
        return PackFormat::Json;
    }
    if lowercase_is(&ext, &yaml) || lowercase_is(&ext, &yml) {
        return PackFormat::Yaml;
    }
    let body = chars_of(text);
    let trimmed = trim_start_chars(&body);
    if trimmed.len() > 0 && trimmed[0] == '{' {
        PackFormat::Json
    } else {
        PackFormat::Yaml
    }
}

/// What decoding a text as canonical padded standard base64 gives (nothing
/// where the text is not such an encoding).
pub uninterp spec fn canonical_base64_decoding(text: Seq<char>) -> Option<Seq<u8>>;

/// Decodes a text with the `base64` crate's `STANDARD` engine
/// (`Engine::decode`): the standard alphabet with canonical padding and no
/// trailing bits. The contract claims only that the outcome is a function of
/// the text, named `canonical_base64_decoding`.
#[verifier::external_body]
fn decode_standard_base64(text: &str) -> (r: Option<Vec<u8>>)
    ensures
        match r {
            Some(b) => canonical_base64_decoding(text@) == Some(b@),
            None => canonical_base64_decoding(text@) is None,
        },
{
    match base64::engine::general_purpose::STANDARD.decode(text) {
        Ok(bytes) => Some(bytes),
        Err(_) => None,
    }
}

/// Accepts a decoded expected lock: undecodable text is a request failure,
/// and a lock longer than the limit an integrity failure.
pub fn expected_lock_from(decoded: Option<Vec<u8>>, maximum_bytes: usize) -> (r: Result<Vec<u8>, RpcError>)
    ensures
        match decoded {
            None => r matches Err(e) && e.kind == RpcErrorKind::Request
                && e.message@ == "expected_lock_base64 is not valid canonical base64"@,
            Some(b) => if b@.len() > maximum_bytes {
                r matches Err(e) && e.kind == RpcErrorKind::Integrity
                    && e.message@ == "decoded expected lock exceeds the configured byte limit"@
            } else {
                r matches Ok(lock) && lock@ == b@
            },
        },
{
    match decoded {
        None => Err(RpcError::new(RpcErrorKind::Request, "expected_lock_base64 is not valid canonical base64")),
        Some(bytes) => if bytes.len() > maximum_bytes {
            Err(RpcError::new(RpcErrorKind::Integrity, "decoded expected lock exceeds the configured byte limit"))
        } else {
            Ok(bytes)
        },
    }
}

/// Decodes the expected lock of a verify request and bounds its length.
pub fn decode_expected_lock(text: &str, maximum_bytes: usize) -> (r: Result<Vec<u8>, RpcError>)
    ensures
        match canonical_base64_decoding(text@) {
            None => r matches Err(e) && e.kind == RpcErrorKind::Request
                && e.message@ == "expected_lock_base64 is not valid canonical base64"@,
            Some(b) => if b.len() > maximum_bytes {
                r matches Err(e) && e.kind == RpcErrorKind::Integrity
                    && e.message@ == "decoded expected lock exceeds the configured byte limit"@
            } else {
                r matches Ok(lock) && lock@ == b
            },
        },
{
    let decoded = decode_standard_base64(text);
    expected_lock_from(decoded, maximum_bytes)
}

} // verus!
