//! The validated domain model of an overlay pack.

use crate::collections::{IdentifierSet, SelectionMap};
use crate::text::{debug_quoted, debug_quoted_text, decimal, decimal_text};
use vstd::prelude::*;

verus! {

/// A character allowed in an identifier: ASCII letters, digits, `-`, `_`, `.`.
pub open spec fn is_identifier_char(c: char) -> bool {
    ||| ('a' <= c && c <= 'z')
    ||| ('A' <= c && c <= 'Z')
    ||| ('0' <= c && c <= '9')
    ||| c == '-'
    ||| c == '_'
    ||| c == '.'
}

/// A valid identifier holds between 1 and 128 identifier characters.
pub open spec fn is_valid_identifier(s: Seq<char>) -> bool {
    &&& 1 <= s.len() <= 128
    &&& forall|i: int| 0 <= i < s.len() ==> #[trigger] is_identifier_char(s[i])
}

/// The code points of the identifier alphabet: '-' (45), '.' (46), the
/// digits (48 to 57), the capital letters (65 to 90), '_' (95), and the small
/// letters (97 to 122).
pub open spec fn identifier_code_point(n: u32) -> bool {
    ||| n == 45
    ||| n == 46
    ||| 48 <= n <= 57
    ||| 65 <= n <= 90
    ||| n == 95
    ||| 97 <= n <= 122
}

/// The identifier alphabet is exactly the ASCII letters and digits (all ten
/// of them, '0' included), '-', '_' and '.'.
pub proof fn lemma_identifier_alphabet(c: char)
    ensures
        is_identifier_char(c) <==> identifier_code_point(c as u32),
{
}

/// A text is a valid identifier exactly when it holds 1 to 128 characters,
/// each from the identifier alphabet: "v10" is one.
pub proof fn lemma_identifier_texts(s: Seq<char>)
    ensures
        is_valid_identifier(s) <==> (1 <= s.len() <= 128 && forall|i: int| 0 <= i < s.len() ==> identifier_code_point(#[trigger] s[i] as u32)),
{
    assert forall|i: int| 0 <= i < s.len() implies is_identifier_char(s[i]) == identifier_code_point(#[trigger] s[i] as u32) by {
        lemma_identifier_alphabet(s[i]);
    }
}

/// Identifier text is ASCII, so its byte length is its character length.
proof fn lemma_identifier_ascii(s: Seq<char>)
    requires
        forall|i: int| 0 <= i < s.len() ==> #[trigger] is_identifier_char(s[i]),
    ensures
        vstd::utf8::is_ascii_chars(s),
        vstd::utf8::encode_utf8(s).len() == s.len(),
{
    assert forall|i: int| 0 <= i < s.len() implies '\0' <= #[trigger] s[i] <= '\u{7f}' by {
        assert(is_identifier_char(s[i]));
    }
    vstd::utf8::is_ascii_chars_encode_utf8(s);
}

fn identifier_char(c: char) -> (r: bool)
    ensures
        r == is_identifier_char(c),
{
    ('a' <= c && c <= 'z') || ('A' <= c && c <= 'Z') || ('0' <= c && c <= '9') || c == '-' || c
        == '_' || c == '.'
}

/// A validated, portable identifier.
#[derive(Debug)]
pub struct Identifier(String);

impl Clone for Identifier {
    fn clone(&self) -> (r: Self)
        ensures
            r@ == self@,
    {
        proof {
            use_type_invariant(self);
        }
        Identifier(self.0.clone())
    }
}

impl View for Identifier {
    type V = Seq<char>;

    closed spec fn view(&self) -> Seq<char> {
        self.0@
    }
}

impl PartialEq for Identifier {
    fn eq(&self, other: &Self) -> (r: bool) {
        self.0 == other.0
    }
}

impl Eq for Identifier {
}

impl vstd::std_specs::cmp::PartialEqSpecImpl for Identifier {
    open spec fn obeys_eq_spec() -> bool {
        true
    }

    open spec fn eq_spec(&self, other: &Self) -> bool {
        self@ == other@
    }
}

impl Identifier {
    #[verifier::type_invariant]
    closed spec fn inv(self) -> bool {
        is_valid_identifier(self.0@)
    }

    /// Parses an identifier: 1 to 128 bytes of ASCII letters, digits, `-`, `_`, or `.`.
    pub fn parse(value: &str) -> (r: Result<Self, DomainError>)
        ensures
            match r {
                Ok(id) => is_valid_identifier(value@) && id@ == value@,
                Err(e) => !is_valid_identifier(value@) && (e matches DomainError::InvalidIdentifier(
                    s,
                ) && s@ == value@),
            },
    {
        broadcast use vstd::string::group_string_axioms;

        let bytes = value.len();
        if value.is_empty() || bytes > 128 {
            proof {
                if is_valid_identifier(value@) {
                    lemma_identifier_ascii(value@);
                }
            }
            return Err(DomainError::InvalidIdentifier(value.to_owned()));
        }
        let n = value.unicode_len();
        let mut i: usize = 0;
        while i < n
            invariant
                n == value@.len(),
                0 <= i <= n,
                forall|j: int| 0 <= j < i ==> #[trigger] is_identifier_char(value@[j]),
            decreases n - i,
        {
            if !identifier_char(value.get_char(i)) {
                return Err(DomainError::InvalidIdentifier(value.to_owned()));
            }
            i = i + 1;
        }
        proof {
            lemma_identifier_ascii(value@);
        }
        Ok(Identifier(value.to_owned()))
    }

    /// Returns the identifier text, which is a valid identifier.
    pub fn as_str(&self) -> (r: &str)
        ensures
            r@ == self@,
            is_valid_identifier(r@),
    {
        proof {
            use_type_invariant(self);
        }
        self.0.as_str()
    }
}

/// The sequence of identifier texts.
pub open spec fn ids_view(s: Seq<Identifier>) -> Seq<Seq<char>> {
    s.map_values(|i: Identifier| i@)
}

/// `s[i]` begins a `.` or `..` segment: one or two dots bounded by `/` or
/// the ends of the path.
pub open spec fn is_dot_segment_at(s: Seq<char>, i: int) -> bool {
    &&& 0 <= i < s.len()
    &&& s[i] == '.'
    &&& (i == 0 || s[i - 1] == '/')
    &&& (i + 1 == s.len() || s[i + 1] == '/' || (s[i + 1] == '.' && (i + 2 == s.len() || s[i + 2] == '/')))
}

/// `s[i]` breaks the portable path grammar: a backslash or `:`, a separator
/// that starts the path, ends it, or follows another (an empty segment), or
/// the start of a `.` or `..` segment.
pub open spec fn path_fault_at(s: Seq<char>, i: int) -> bool {
    &&& 0 <= i < s.len()
    &&& {
        ||| s[i] == '\\'
        ||| s[i] == ':'
        ||| (s[i] == '/' && (i == 0 || i + 1 == s.len() || s[i + 1] == '/'))
        ||| is_dot_segment_at(s, i)
    }
}

/// A portable pack-relative path: non-empty `/`-separated segments, none
/// empty, `.` or `..`, without backslashes or `:` (so neither absolute, nor
/// with a Windows-style prefix, nor ending in a separator).
pub open spec fn is_pack_relative(s: Seq<char>) -> bool {
    &&& s.len() > 0
    &&& forall|i: int| !#[trigger] path_fault_at(s, i)
}

/// Collects the characters of a string.
pub fn chars_of(s: &str) -> (r: Vec<char>)
    ensures
        r@ == s@,
{
    let n = s.unicode_len();
    let mut r: Vec<char> = Vec::new();
    let mut i: usize = 0;
    while i < n
        invariant
            n == s@.len(),
            0 <= i <= n,
            r@ == s@.subrange(0, i as int),
        decreases n - i,
    {
        r.push(s.get_char(i));
        i = i + 1;
        assert(r@ =~= s@.subrange(0, i as int));
    }
    assert(r@ =~= s@);
    r
}

/// A validated path below a pack root.
#[derive(Debug)]
pub struct PackRelativePath(String);

impl View for PackRelativePath {
    type V = Seq<char>;

    closed spec fn view(&self) -> Seq<char> {
        self.0@
    }
}

impl Clone for PackRelativePath {
    fn clone(&self) -> (r: Self)
        ensures
            r@ == self@,
    {
        proof {
            use_type_invariant(self);
        }
        PackRelativePath(self.0.clone())
    }
}

impl PackRelativePath {
    #[verifier::type_invariant]
    closed spec fn inv(self) -> bool {
        is_pack_relative(self.0@)
    }

    /// Parses a pack-relative path under the portable v1 grammar (see
    /// `is_pack_relative`).
    pub fn parse(value: &str) -> (r: Result<Self, DomainError>)
        ensures
            match r {
                Ok(p) => is_pack_relative(value@) && p@ == value@,
                Err(e) => !is_pack_relative(value@) && (e matches DomainError::InvalidPackRelativePath(
                    s,
                ) && s@ == value@),
            },
    {
        let c = chars_of(value);
        let n = c.len();
        if n == 0 {
            return Err(DomainError::InvalidPackRelativePath(value.to_owned()));
        }
        let mut i: usize = 0;
        while i < n
            invariant
                c@ == value@,
                n == c@.len(),
                0 <= i <= n,
                forall|j: int| 0 <= j < i ==> !#[trigger] path_fault_at(value@, j),
            decreases n - i,
        {
            let x = c[i];
            let last = i + 1 == n;
            let dot_segment = x == '.' && (i == 0 || c[i - 1] == '/') && (last || c[i + 1] == '/' || (c[i
                + 1] == '.' && (i + 2 == n || c[i + 2] == '/')));
            let empty_segment = x == '/' && (i == 0 || last || c[i + 1] == '/');
            if x == '\\' || x == ':' || empty_segment || dot_segment {
                assert(path_fault_at(value@, i as int));
                return Err(DomainError::InvalidPackRelativePath(value.to_owned()));
            }
            assert(!path_fault_at(value@, i as int));
            i = i + 1;
        }
        assert forall|j: int| !#[trigger] path_fault_at(value@, j) by {
            if 0 <= j < n {
            }
        }
        Ok(PackRelativePath(value.to_owned()))
    }

    /// Returns the path text, which is a portable pack-relative path.
    pub fn as_str(&self) -> (r: &str)
        ensures
            r@ == self@,
            is_pack_relative(r@),
    {
        proof {
            use_type_invariant(self);
        }
        self.0.as_str()
    }
}

/// Inclusive bounds on how many overlays a profile selects from one class.
#[derive(Clone, Copy, Debug, PartialEq, Eq, Structural)]
pub struct Cardinality {
    minimum: usize,
    maximum: Option<usize>,
}

/// Whether `count` lies within `minimum ..= maximum` (no upper bound when absent).
pub open spec fn within(minimum: usize, maximum: Option<usize>, count: int) -> bool {
    &&& count >= minimum
    &&& match maximum {
        Some(m) => count <= m,
        None => true,
    }
}

impl Cardinality {
    /// The upper bound, when present, is not below the lower bound.
    #[verifier::type_invariant]
    closed spec fn inv(self) -> bool {
        !(self.maximum matches Some(m) && m < self.minimum)
    }

    /// The lower bound.
    pub closed spec fn spec_minimum(self) -> usize {
        self.minimum
    }

    /// The upper bound, if any.
    pub closed spec fn spec_maximum(self) -> Option<usize> {
        self.maximum
    }

    /// Creates bounds; an upper bound below the lower bound is rejected.
    pub fn new(minimum: usize, maximum: Option<usize>) -> (r: Result<Self, DomainError>)
        ensures
            match r {
                Ok(c) => c.spec_minimum() == minimum && c.spec_maximum() == maximum && !(
                maximum matches Some(m) && m < minimum),
                Err(e) => (maximum matches Some(m) && m < minimum) && e == (
                DomainError::InvalidCardinality { minimum, maximum }),
            },
    {
        match maximum {
            Some(m) => {
                if m < minimum {
                    return Err(DomainError::InvalidCardinality { minimum, maximum });
                }
            },
            None => {},
        }
        Ok(Cardinality { minimum, maximum })
    }

    /// Returns the lower bound.
    pub fn minimum(self) -> (r: usize)
        ensures
            r == self.spec_minimum(),
    {
        self.minimum
    }

    /// Returns the upper bound, if any; it is never below the lower bound.
    pub fn maximum(self) -> (r: Option<usize>)
        ensures
            r == self.spec_maximum(),
            !(r matches Some(m) && m < self.spec_minimum()),
    {
        proof {
            use_type_invariant(self);
        }
        self.maximum
    }

    /// Whether `count` satisfies the bounds.
    pub fn accepts(self, count: usize) -> (r: bool)
        ensures
            r == within(self.spec_minimum(), self.spec_maximum(), count as int),
    {
        count >= self.minimum && match self.maximum {
            Some(m) => count <= m,
            None => true,
        }
    }
}

/// Whether a declared variable may be shown.
#[derive(Clone, Copy, Debug, PartialEq, Eq, Structural)]
pub enum Sensitivity {
    Public,
    Secret,
}

/// A declared variable.
#[derive(Clone, Debug)]
pub struct Variable {
    pub name: Identifier,
    pub sensitivity: Sensitivity,
}

/// An overlay class with its precedence and cardinality.
#[derive(Clone, Debug)]
pub struct OverlayClass {
    pub id: Identifier,
    pub order: u32,
    pub cardinality: Cardinality,
}

/// An overlay: a source of prose assigned to one class.
#[derive(Debug)]
pub struct Overlay {
    pub id: Identifier,
    pub class: Identifier,
    pub source: PackRelativePath,
    pub incompatible_with: IdentifierSet,
}

/// A named selection of overlays, grouped by class.
#[derive(Debug)]
pub struct Profile {
    pub id: Identifier,
    pub selections: SelectionMap,
}

/// A domain-invariant violation.
#[derive(Clone, Debug)]
pub enum DomainError {
    InvalidIdentifier(String),
    InvalidPackRelativePath(String),
    InvalidCardinality { minimum: usize, maximum: Option<usize> },
    EmptySchemaFamily,
    DuplicateIdentifier { kind: &'static str, identifier: Identifier },
    DuplicateClassOrder(u32),
    UnknownClass { overlay: Identifier, class: Identifier },
    UnknownProfileClass { profile: Identifier, class: Identifier },
    UnknownOverlayReference(Identifier),
    DuplicateProfileSelection(Identifier),
    OverlayClassMismatch { overlay: Identifier, expected: Identifier, actual: Identifier },
    CardinalityViolation { profile: Identifier, class: Identifier, count: usize },
}

/// The content of a domain error, with texts in place of strings and identifiers.
pub enum DomainFault {
    InvalidIdentifier(Seq<char>),
    InvalidPackRelativePath(Seq<char>),
    InvalidCardinality { minimum: usize, maximum: Option<usize> },
    EmptySchemaFamily,
    DuplicateIdentifier { kind: Seq<char>, identifier: Seq<char> },
    DuplicateClassOrder(u32),
    UnknownClass { overlay: Seq<char>, class: Seq<char> },
    UnknownProfileClass { profile: Seq<char>, class: Seq<char> },
    UnknownOverlayReference(Seq<char>),
    DuplicateProfileSelection(Seq<char>),
    OverlayClassMismatch { overlay: Seq<char>, expected: Seq<char>, actual: Seq<char> },
    CardinalityViolation { profile: Seq<char>, class: Seq<char>, count: usize },
}

impl View for DomainError {
    type V = DomainFault;

    open spec fn view(&self) -> DomainFault {
        match self {
            DomainError::InvalidIdentifier(s) => DomainFault::InvalidIdentifier(s@),
            DomainError::InvalidPackRelativePath(s) => DomainFault::InvalidPackRelativePath(s@),
            DomainError::InvalidCardinality { minimum, maximum } => DomainFault::InvalidCardinality {
                minimum: *minimum,
                maximum: *maximum,
            },
            DomainError::EmptySchemaFamily => DomainFault::EmptySchemaFamily,
            DomainError::DuplicateIdentifier { kind, identifier } => DomainFault::DuplicateIdentifier {
                kind: kind@,
                identifier: identifier@,
            },
            DomainError::DuplicateClassOrder(o) => DomainFault::DuplicateClassOrder(*o),
            DomainError::UnknownClass { overlay, class } => DomainFault::UnknownClass {
                overlay: overlay@,
                class: class@,
            },
            DomainError::UnknownProfileClass { profile, class } => DomainFault::UnknownProfileClass {
                profile: profile@,
                class: class@,
            },
            DomainError::UnknownOverlayReference(i) => DomainFault::UnknownOverlayReference(i@),
            DomainError::DuplicateProfileSelection(i) => DomainFault::DuplicateProfileSelection(i@),
            DomainError::OverlayClassMismatch { overlay, expected, actual } =>
                DomainFault::OverlayClassMismatch {
                overlay: overlay@,
                expected: expected@,
                actual: actual@,
            },
            DomainError::CardinalityViolation { profile, class, count } =>
                DomainFault::CardinalityViolation {
                profile: profile@,
                class: class@,
                count: *count,
            },
        }
    }
}

/// How an identifier appears inside a domain error's message.
pub open spec fn identifier_debug(id: Seq<char>) -> Seq<char> {
    "Identifier(\""@ + id + "\")"@
}

/// The message of a domain error: the variant and its fields, as `{:?}`
/// writes them.
pub open spec fn domain_message(fault: DomainFault) -> Seq<char> {
    match fault {
        DomainFault::InvalidIdentifier(s) => "InvalidIdentifier("@ + debug_quoted_text(s) + ")"@,
        DomainFault::InvalidPackRelativePath(s) => "InvalidPackRelativePath("@ + debug_quoted_text(s) + ")"@,
        DomainFault::InvalidCardinality { minimum, maximum } => "InvalidCardinality { minimum: "@ + decimal(
            minimum as nat,
        ) + ", maximum: "@ + match maximum {
            Some(m) => "Some("@ + decimal(m as nat) + ")"@,
            None => "None"@,
        } + " }"@,
        DomainFault::EmptySchemaFamily => "EmptySchemaFamily"@,
        DomainFault::DuplicateIdentifier { kind, identifier } => "DuplicateIdentifier { kind: "@
            + debug_quoted_text(kind) + ", identifier: "@ + identifier_debug(identifier) + " }"@,
        DomainFault::DuplicateClassOrder(o) => "DuplicateClassOrder("@ + decimal(o as nat) + ")"@,
        DomainFault::UnknownClass { overlay, class } => "UnknownClass { overlay: "@ + identifier_debug(overlay)
            + ", class: "@ + identifier_debug(class) + " }"@,
        DomainFault::UnknownProfileClass { profile, class } => "UnknownProfileClass { profile: "@
            + identifier_debug(profile) + ", class: "@ + identifier_debug(class) + " }"@,
        DomainFault::UnknownOverlayReference(i) => "UnknownOverlayReference("@ + identifier_debug(i) + ")"@,
        DomainFault::DuplicateProfileSelection(i) => "DuplicateProfileSelection("@ + identifier_debug(i) + ")"@,
        DomainFault::OverlayClassMismatch { overlay, expected, actual } => "OverlayClassMismatch { overlay: "@
            + identifier_debug(overlay) + ", expected: "@ + identifier_debug(expected) + ", actual: "@
            + identifier_debug(actual) + " }"@,
        DomainFault::CardinalityViolation { profile, class, count } => "CardinalityViolation { profile: "@
            + identifier_debug(profile) + ", class: "@ + identifier_debug(class) + ", count: "@ + decimal(
            count as nat,
        ) + " }"@,
    }
}

fn identifier_debug_text(id: &Identifier) -> (r: String)
    ensures
        r@ == identifier_debug(id@),
{
    "Identifier(\"".to_owned().concat(id.as_str()).concat("\")")
}

impl DomainError {
    /// The failure's message: the variant and its fields, as `{:?}` writes them.
    pub fn message(&self) -> (r: String)
        ensures
            r@ == domain_message(self@),
    {
        match self {
            DomainError::InvalidIdentifier(s) => {
                let quoted = debug_quoted(s.as_str());
                "InvalidIdentifier(".to_owned().concat(quoted.as_str()).concat(")")
            },
            DomainError::InvalidPackRelativePath(s) => {
                let quoted = debug_quoted(s.as_str());
                "InvalidPackRelativePath(".to_owned().concat(quoted.as_str()).concat(")")
            },
            DomainError::InvalidCardinality { minimum, maximum } => {
                let minimum_text = decimal_text(*minimum);
                let maximum_text = match maximum {
                    Some(m) => {
                        let m_text = decimal_text(*m);
                        "Some(".to_owned().concat(m_text.as_str()).concat(")")
                    },
                    None => "None".to_owned(),
                };
                "InvalidCardinality { minimum: ".to_owned().concat(minimum_text.as_str()).concat(
                    ", maximum: ",
                ).concat(maximum_text.as_str()).concat(" }")
            },
            DomainError::EmptySchemaFamily => "EmptySchemaFamily".to_owned(),
            DomainError::DuplicateIdentifier { kind, identifier } => {
                let quoted = debug_quoted(kind);
                let id = identifier_debug_text(identifier);
                "DuplicateIdentifier { kind: ".to_owned().concat(quoted.as_str()).concat(", identifier: ").concat(
                    id.as_str(),
                ).concat(" }")
            },
            DomainError::DuplicateClassOrder(o) => {
                let o_text = decimal_text(*o as usize);
                "DuplicateClassOrder(".to_owned().concat(o_text.as_str()).concat(")")
            },
            DomainError::UnknownClass { overlay, class } => {
                let o = identifier_debug_text(overlay);
                let c = identifier_debug_text(class);
                "UnknownClass { overlay: ".to_owned().concat(o.as_str()).concat(", class: ").concat(c.as_str()).concat(
                    " }",
                )
            },
            DomainError::UnknownProfileClass { profile, class } => {
                let p = identifier_debug_text(profile);
                let c = identifier_debug_text(class);
                "UnknownProfileClass { profile: ".to_owned().concat(p.as_str()).concat(", class: ").concat(
                    c.as_str(),
                ).concat(" }")
            },
            DomainError::UnknownOverlayReference(i) => {
                let t = identifier_debug_text(i);
                "UnknownOverlayReference(".to_owned().concat(t.as_str()).concat(")")
            },
            DomainError::DuplicateProfileSelection(i) => {
                let t = identifier_debug_text(i);
                "DuplicateProfileSelection(".to_owned().concat(t.as_str()).concat(")")
            },
            DomainError::OverlayClassMismatch { overlay, expected, actual } => {
                let o = identifier_debug_text(overlay);
                let e = identifier_debug_text(expected);
                let a = identifier_debug_text(actual);
                "OverlayClassMismatch { overlay: ".to_owned().concat(o.as_str()).concat(", expected: ").concat(
                    e.as_str(),
                ).concat(", actual: ").concat(a.as_str()).concat(" }")
            },
            DomainError::CardinalityViolation { profile, class, count } => {
                let p = identifier_debug_text(profile);
                let c = identifier_debug_text(class);
                let n = decimal_text(*count);
                "CardinalityViolation { profile: ".to_owned().concat(p.as_str()).concat(", class: ").concat(
                    c.as_str(),
                ).concat(", count: ").concat(n.as_str()).concat(" }")
            },
        }
    }
}

} // verus!

