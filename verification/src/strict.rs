//! The conservative subset of YAML accepted for v1 packs, and the
//! classification of decoder diagnostics.

use crate::model::chars_of;
use crate::text::{contains_chars, has_substring, is_white_space, str_eq, white_space};
use vstd::prelude::*;

verus! {

/// Marker text a strict decoder places in a duplicate-key diagnostic.
pub const DUPLICATE_MAPPING_KEY_MARKER: &'static str = "__invokrum_duplicate_mapping_key__";

/// Marker text a strict decoder places in a merge-key diagnostic.
pub const MERGE_MAPPING_KEY_MARKER: &'static str = "__invokrum_merge_mapping_key__";

/// The longest decoder diagnostic kept, in characters.
pub const MAX_DECODE_MESSAGE_CHARS: usize = 512;

/// A YAML feature excluded from the v1 compatibility subset.
#[derive(Clone, Copy, Debug, PartialEq, Eq, Structural)]
pub enum YamlFeature {
    Directive,
    DocumentEndMarker,
    Anchor,
    Alias,
    MergeKey,
    Tag,
    BlockScalar,
    ExplicitMappingKey,
}

impl YamlFeature {
    /// The feature's human-readable name.
    pub fn name(self) -> (r: &'static str)
        ensures
            r@ == feature_name(self),
    {
        match self {
            YamlFeature::Directive => "directive",
            YamlFeature::DocumentEndMarker => "document end marker",
            YamlFeature::Anchor => "anchor",
            YamlFeature::Alias => "alias",
            YamlFeature::MergeKey => "merge key",
            YamlFeature::Tag => "explicit tag",
            YamlFeature::BlockScalar => "block scalar",
            YamlFeature::ExplicitMappingKey => "explicit mapping key",
        }
    }
}

/// The human-readable name of an excluded YAML feature.
pub open spec fn feature_name(f: YamlFeature) -> Seq<char> {
    match f {
        YamlFeature::Directive => "directive"@,
        YamlFeature::DocumentEndMarker => "document end marker"@,
        YamlFeature::Anchor => "anchor"@,
        YamlFeature::Alias => "alias"@,
        YamlFeature::MergeKey => "merge key"@,
        YamlFeature::Tag => "explicit tag"@,
        YamlFeature::BlockScalar => "block scalar"@,
        YamlFeature::ExplicitMappingKey => "explicit mapping key"@,
    }
}

/// A rejection before a document is decoded into the pack schema.
#[derive(Clone, Debug)]
pub enum PreflightError {
    Decode { format: &'static str, message: String },
    DuplicateMappingKey { format: &'static str },
    UnsupportedYamlFeature(YamlFeature),
    MultipleYamlDocuments,
}

/// Where a line's scan stands: outside quotes, inside single quotes, just
/// after a quote inside single quotes, or inside double quotes.
#[derive(Clone, Copy, Debug, PartialEq, Eq, Structural)]
pub enum QuoteState {
    Plain,
    Single,
    SingleQuoteSeen,
    Double,
}

/// The scan of a line: quote state, a pending backslash escape, whether the
/// previous plain character was white space, whether a comment ended the
/// scan, and the surface so far.
pub struct SurfaceScan {
    pub quote: QuoteState,
    pub escaped: bool,
    pub previous_whitespace: bool,
    pub stopped: bool,
    pub surface: Seq<char>,
}

/// One plain (unquoted) character.
pub open spec fn plain_step(st: SurfaceScan, c: char) -> SurfaceScan {
    if c == '#' && st.previous_whitespace {
        SurfaceScan { stopped: true, ..st }
    } else if c == '\'' {
        SurfaceScan { quote: QuoteState::Single, surface: st.surface.push(' '), previous_whitespace: false, ..st }
    } else if c == '"' {
        SurfaceScan { quote: QuoteState::Double, surface: st.surface.push(' '), previous_whitespace: false, ..st }
    } else {
        SurfaceScan { surface: st.surface.push(c), previous_whitespace: is_white_space(c), ..st }
    }
}

/// One character of the control-surface scan: quoted text becomes spaces, a
/// `''` pair inside single quotes stays quoted, `\` escapes inside double
/// quotes, and a `#` after white space ends the line as a comment.
pub open spec fn surface_step(st: SurfaceScan, c: char) -> SurfaceScan {
    if st.stopped {
        st
    } else {
        match st.quote {
            QuoteState::Plain => plain_step(st, c),
            QuoteState::Single => if c == '\'' {
                SurfaceScan { quote: QuoteState::SingleQuoteSeen, surface: st.surface.push(' '), ..st }
            } else {
                SurfaceScan { surface: st.surface.push(' '), ..st }
            },
            QuoteState::SingleQuoteSeen => if c == '\'' {
                SurfaceScan { quote: QuoteState::Single, surface: st.surface.push(' '), ..st }
            } else {
                plain_step(SurfaceScan { quote: QuoteState::Plain, ..st }, c)
            },
            QuoteState::Double => if st.escaped {
                SurfaceScan { escaped: false, surface: st.surface.push(' '), ..st }
            } else if c == '\\' {
                SurfaceScan { escaped: true, surface: st.surface.push(' '), ..st }
            } else if c == '"' {
                SurfaceScan { quote: QuoteState::Plain, surface: st.surface.push(' '), ..st }
            } else {
                SurfaceScan { surface: st.surface.push(' '), ..st }
            },
        }
    }
}

/// The scan of a whole line.
pub open spec fn surface_scan(line: Seq<char>) -> SurfaceScan
    decreases line.len(),
{
    if line.len() == 0 {
        SurfaceScan { quote: QuoteState::Plain, escaped: false, previous_whitespace: true, stopped: false, surface: Seq::empty() }
    } else {
        surface_step(surface_scan(line.drop_last()), line.last())
    }
}

/// A line's control surface: the line with quoted text blanked and any
/// trailing comment removed.
pub open spec fn control_surface(line: Seq<char>) -> Seq<char> {
    surface_scan(line).surface
}

/// Computes the control surface of a line.
pub fn yaml_control_surface(line: &Vec<char>) -> (r: Vec<char>)
    ensures
        r@ == control_surface(line@),
{
    let mut quote = QuoteState::Plain;
    let mut escaped = false;
    let mut previous_whitespace = true;
    let mut surface: Vec<char> = Vec::new();
    let n = line.len();
    let mut i: usize = 0;
    while i < n
        invariant
            n == line@.len(),
            0 <= i <= n,
            surface_scan(line@.subrange(0, i as int)) == (SurfaceScan {
                quote,
                escaped,
                previous_whitespace,
                stopped: false,
                surface: surface@,
            }),
        decreases n - i,
    {
        let c = line[i];
        assert(line@.subrange(0, i + 1).drop_last() =~= line@.subrange(0, i as int));
        assert(line@.subrange(0, i + 1).last() == c);
        let mut plain = false;
        match quote {
            QuoteState::Plain => {
                plain = true;
            },
            QuoteState::Single => {
                surface.push(' ');
                if c == '\'' {
                    quote = QuoteState::SingleQuoteSeen;
                }
            },
            QuoteState::SingleQuoteSeen => {
                if c == '\'' {
                    surface.push(' ');
                    quote = QuoteState::Single;
                } else {
                    quote = QuoteState::Plain;
                    plain = true;
                }
            },
            QuoteState::Double => {
                surface.push(' ');
                if escaped {
                    escaped = false;
                } else if c == '\\' {
                    escaped = true;
                } else if c == '"' {
                    quote = QuoteState::Plain;
                }
            },
        }
        if plain {
            if c == '#' && previous_whitespace {
                proof {
                    lemma_scan_stays_stopped(line@, i as int + 1);
                }
                return surface;
            } else if c == '\'' {
                quote = QuoteState::Single;
                surface.push(' ');
                previous_whitespace = false;
            } else if c == '"' {
                quote = QuoteState::Double;
                surface.push(' ');
                previous_whitespace = false;
            } else {
                surface.push(c);
                previous_whitespace = white_space(c);
            }
        }
        i = i + 1;
    }
    assert(line@.subrange(0, n as int) =~= line@);
    surface
}

/// Once a comment stops the scan, the rest of the line changes nothing.
proof fn lemma_scan_stays_stopped(line: Seq<char>, k: int)
    requires
        0 <= k <= line.len(),
        surface_scan(line.subrange(0, k)).stopped,
    ensures
        surface_scan(line) == surface_scan(line.subrange(0, k)),
    decreases line.len() - k,
{
    if k < line.len() {
        assert(line.subrange(0, k + 1).drop_last() =~= line.subrange(0, k));
        lemma_scan_stays_stopped(line, k + 1);
    } else {
        assert(line.subrange(0, k) =~= line);
    }
}


/// `s` without its leading white space.
pub open spec fn trim_start(s: Seq<char>) -> Seq<char>
    decreases s.len(),
{
    if s.len() > 0 && is_white_space(s[0]) {
        trim_start(s.drop_first())
    } else {
        s
    }
}

/// `input` is `marker` alone, or `marker` followed by white space.
pub open spec fn document_marker(input: Seq<char>, marker: Seq<char>) -> bool {
    ||| input == marker
    ||| (marker.len() < input.len() && input.subrange(0, marker.len() as int) == marker
        && is_white_space(input[marker.len() as int]))
}

/// The excluded feature that a line shows, by the first rule it breaks.
pub open spec fn line_fault(line: Seq<char>) -> Option<YamlFeature> {
    let surface = control_surface(line);
    let trimmed = trim_start(surface);
    if trimmed.len() > 0 && trimmed[0] == '%' {
        Some(YamlFeature::Directive)
    } else if document_marker(trimmed, seq!['.', '.', '.']) {
        Some(YamlFeature::DocumentEndMarker)
    } else if has_substring(surface, seq!['<', '<', ':']) || has_substring(surface, seq!['<', '<', ' ', ':']) {
        Some(YamlFeature::MergeKey)
    } else if surface.contains('&') {
        Some(YamlFeature::Anchor)
    } else if surface.contains('*') {
        Some(YamlFeature::Alias)
    } else if surface.contains('!') {
        Some(YamlFeature::Tag)
    } else if surface.contains('|') || surface.contains('>') {
        Some(YamlFeature::BlockScalar)
    } else if surface.contains('?') {
        Some(YamlFeature::ExplicitMappingKey)
    } else {
        None
    }
}

/// A line ended by a line feed, without the carriage return before it.
pub open spec fn strip_carriage_return(line: Seq<char>) -> Seq<char> {
    if line.len() > 0 && line.last() == '\r' {
        line.drop_last()
    } else {
        line
    }
}

/// Reading `input` line by line: the line being read, and the fault of the
/// first finished line that shows one (after which nothing changes).
pub open spec fn line_scan(input: Seq<char>) -> (Seq<char>, Option<YamlFeature>)
    decreases input.len(),
{
    if input.len() == 0 {
        (Seq::empty(), None)
    } else {
        let (line, fault) = line_scan(input.drop_last());
        if fault is Some {
            (line, fault)
        } else if input.last() == '\n' {
            (Seq::empty(), line_fault(strip_carriage_return(line)))
        } else {
            (line.push(input.last()), None)
        }
    }
}

/// The excluded feature of the first line of `input` that shows one; the
/// text after the last line feed is the last line.
pub open spec fn subset_fault(input: Seq<char>) -> Option<YamlFeature> {
    let (line, fault) = line_scan(input);
    if fault is Some {
        fault
    } else {
        line_fault(line)
    }
}

proof fn lemma_line_scan_single_line(l: Seq<char>)
    requires
        !l.contains('\n'),
    ensures
        line_scan(l) == (l, None::<YamlFeature>),
    decreases l.len(),
{
    if l.len() > 0 {
        let d = l.drop_last();
        assert(!d.contains('\n')) by {
            if d.contains('\n') {
                let q = choose|q: int| 0 <= q < d.len() && d[q] == '\n';
                assert(l[q] == '\n');
            }
        }
        lemma_line_scan_single_line(d);
        assert(l.last() == l[l.len() - 1]);
        assert(d.push(l.last()) =~= l);
    }
}

proof fn lemma_line_scan_after_clean_lines(a: Seq<char>, b: Seq<char>)
    requires
        line_scan(a) == (Seq::<char>::empty(), None::<YamlFeature>),
    ensures
        line_scan(a + b) == line_scan(b),
    decreases b.len(),
{
    if b.len() == 0 {
        assert(a + b =~= a);
    } else {
        lemma_line_scan_after_clean_lines(a, b.drop_last());
        assert((a + b).drop_last() =~= a + b.drop_last());
        assert((a + b).last() == b.last());
    }
}

proof fn lemma_line_scan_after_fault(a: Seq<char>, b: Seq<char>)
    requires
        line_scan(a).1 is Some,
    ensures
        line_scan(a + b) == line_scan(a),
    decreases b.len(),
{
    if b.len() == 0 {
        assert(a + b =~= a);
    } else {
        lemma_line_scan_after_fault(a, b.drop_last());
        assert((a + b).drop_last() =~= a + b.drop_last());
    }
}

/// The subset check reads a text line by line and reports the first line
/// that shows an excluded feature, the text after the last line feed
/// included: a text without a line feed is one line, checked whole; a text
/// that starts with a line and a line feed fails on that line (read without
/// a carriage return before the line feed) when it shows a feature, and is
/// otherwise checked as the text after the line feed.
pub proof fn lemma_subset_checks_every_line(l: Seq<char>, rest: Seq<char>)
    requires
        !l.contains('\n'),
    ensures
        subset_fault(l) == line_fault(l),
        subset_fault(l + seq!['\n'] + rest) == if line_fault(strip_carriage_return(l)) is Some {
            line_fault(strip_carriage_return(l))
        } else {
            subset_fault(rest)
        },
{
    lemma_line_scan_single_line(l);
    let a = l + seq!['\n'];
    assert(a.drop_last() =~= l);
    assert(a.last() == '\n');
    assert(line_scan(a) == (Seq::<char>::empty(), line_fault(strip_carriage_return(l))));
    if line_fault(strip_carriage_return(l)) is Some {
        lemma_line_scan_after_fault(a, rest);
    } else {
        lemma_line_scan_after_clean_lines(a, rest);
    }
}

/// A decoder diagnostic cut to its first characters, with an ellipsis when
/// something was cut.
pub open spec fn bounded_text(message: Seq<char>) -> Seq<char> {
    if message.len() <= MAX_DECODE_MESSAGE_CHARS {
        message
    } else {
        message.subrange(0, MAX_DECODE_MESSAGE_CHARS as int).push('\u{2026}')
    }
}

/// Whether `c` occurs in `s`.
fn contains_char(s: &Vec<char>, c: char) -> (r: bool)
    ensures
        r == s@.contains(c),
{
    let mut i: usize = 0;
    while i < s.len()
        invariant
            0 <= i <= s@.len(),
            forall|j: int| 0 <= j < i ==> s@[j] != c,
        decreases s@.len() - i,
    {
        if s[i] == c {
            assert(s@[i as int] == c);
            return true;
        }
        i = i + 1;
    }
    false
}

/// `s` without its leading white space.
pub fn trim_start_chars(s: &Vec<char>) -> (r: Vec<char>)
    ensures
        r@ == trim_start(s@),
{
    let n = s.len();
    let mut k: usize = 0;
    assert(s@.skip(0) =~= s@);
    while k < n && white_space(s[k])
        invariant
            n == s@.len(),
            0 <= k <= n,
            trim_start(s@) == trim_start(s@.skip(k as int)),
        decreases n - k,
    {
        assert(s@.skip(k as int).drop_first() =~= s@.skip(k + 1));
        k = k + 1;
    }
    let mut r: Vec<char> = Vec::new();
    let mut j: usize = k;
    while j < n
        invariant
            n == s@.len(),
            k <= j <= n,
            r@ == s@.subrange(k as int, j as int),
        decreases n - j,
    {
        r.push(s[j]);
        assert(r@ =~= s@.subrange(k as int, j + 1));
        j = j + 1;
    }
    assert(r@ =~= s@.skip(k as int));
    r
}

/// Whether `input` is `marker` alone or `marker` followed by white space.
pub fn is_document_marker(input: &Vec<char>, marker: &Vec<char>) -> (r: bool)
    ensures
        r == document_marker(input@, marker@),
{
    let m = marker.len();
    if m > input.len() {
        return false;
    }
    let mut i: usize = 0;
    while i < m
        invariant
            m == marker@.len(),
            m <= input@.len(),
            0 <= i <= m,
            forall|j: int| 0 <= j < i ==> input@[j] == marker@[j],
        decreases m - i,
    {
        if input[i] != marker[i] {
            assert(input@.subrange(0, m as int)[i as int] != marker@[i as int]);
            assert(input@ != marker@);
            return false;
        }
        i = i + 1;
    }
    assert(input@.subrange(0, m as int) =~= marker@);
    if m == input.len() {
        assert(input@ =~= marker@);
        true
    } else {
        assert(input@ != marker@);
        white_space(input[m])
    }
}

/// The excluded feature that a line shows, if any.
pub fn yaml_line_fault(line: &Vec<char>) -> (r: Option<YamlFeature>)
    ensures
        r == line_fault(line@),
{
    let surface = yaml_control_surface(line);
    let trimmed = trim_start_chars(&surface);
    if trimmed.len() > 0 && trimmed[0] == '%' {
        return Some(YamlFeature::Directive);
    }
    let end_marker: Vec<char> = vec!['.', '.', '.'];
    assert(end_marker@ =~= seq!['.', '.', '.']);
    if is_document_marker(&trimmed, &end_marker) {
        return Some(YamlFeature::DocumentEndMarker);
    }
    let merge: Vec<char> = vec!['<', '<', ':'];
    let spaced_merge: Vec<char> = vec!['<', '<', ' ', ':'];
    assert(merge@ =~= seq!['<', '<', ':']);
    assert(spaced_merge@ =~= seq!['<', '<', ' ', ':']);
    if contains_chars(&surface, &merge) || contains_chars(&surface, &spaced_merge) {
        return Some(YamlFeature::MergeKey);
    }
    if contains_char(&surface, '&') {
        return Some(YamlFeature::Anchor);
    }
    if contains_char(&surface, '*') {
        return Some(YamlFeature::Alias);
    }
    if contains_char(&surface, '!') {
        return Some(YamlFeature::Tag);
    }
    if contains_char(&surface, '|') || contains_char(&surface, '>') {
        return Some(YamlFeature::BlockScalar);
    }
    if contains_char(&surface, '?') {
        return Some(YamlFeature::ExplicitMappingKey);
    }
    None
}

/// Once a line has shown a fault, the rest of the input changes nothing.
proof fn lemma_line_scan_stays_stopped(input: Seq<char>, k: int)
    requires
        0 <= k <= input.len(),
        line_scan(input.subrange(0, k)).1 is Some,
    ensures
        line_scan(input) == line_scan(input.subrange(0, k)),
    decreases input.len() - k,
{
    if k < input.len() {
        assert(input.subrange(0, k + 1).drop_last() =~= input.subrange(0, k));
        lemma_line_scan_stays_stopped(input, k + 1);
    } else {
        assert(input.subrange(0, k) =~= input);
    }
}

/// Checks that a YAML text stays inside the v1 subset: no directives,
/// document end markers, merge keys, anchors, aliases, tags, block scalars
/// or explicit mapping keys outside quoted text and comments.
pub fn validate_yaml_subset(input: &str) -> (r: Result<(), PreflightError>)
    ensures
        subset_fault(input@) is None ==> (r is Ok),
        subset_fault(input@) is Some ==> (r == Err::<(), PreflightError>(PreflightError::UnsupportedYamlFeature(subset_fault(input@)->0))),
{
    let chars = chars_of(input);
    let n = chars.len();
    let mut line: Vec<char> = Vec::new();
    let mut i: usize = 0;
    while i < n
        invariant
            n == chars@.len(),
            chars@ == input@,
            0 <= i <= n,
            line_scan(chars@.subrange(0, i as int)) == (line@, None::<YamlFeature>),
        decreases n - i,
    {
        let c = chars[i];
        assert(chars@.subrange(0, i + 1).drop_last() =~= chars@.subrange(0, i as int));
        assert(chars@.subrange(0, i + 1).last() == c);
        if c == '\n' {
            let k = line.len();
            if k > 0 && line[k - 1] == '\r' {
                line.pop();
                assert(line@ =~= strip_carriage_return(line_scan(chars@.subrange(0, i as int)).0));
            }
            match yaml_line_fault(&line) {
                Some(f) => {
                    proof {
                        lemma_line_scan_stays_stopped(chars@, i + 1);
                        assert(chars@.subrange(0, n as int) =~= chars@);
                    }
                    return Err(PreflightError::UnsupportedYamlFeature(f));
                },
                None => {
                    line = Vec::new();
                },
            }
        } else {
            line.push(c);
        }
        i = i + 1;
    }
    assert(chars@.subrange(0, n as int) =~= chars@);
    match yaml_line_fault(&line) {
        Some(f) => Err(PreflightError::UnsupportedYamlFeature(f)),
        None => Ok(()),
    }
}

/// Cuts a decoder diagnostic to its first characters, adding an ellipsis
/// when something was cut.
pub fn bounded_message(message: &str) -> (r: String)
    ensures
        r@ == bounded_text(message@),
{
    let n = message.unicode_len();
    if n <= MAX_DECODE_MESSAGE_CHARS {
        message.to_owned()
    } else {
        let head = message.substring_char(0, MAX_DECODE_MESSAGE_CHARS).to_owned();
        let ellipsis = "\u{2026}";
        proof {
            reveal_strlit("\u{2026}");
        }
        let r = head.concat(ellipsis);
        assert(r@ =~= bounded_text(message@));
        r
    }
}

/// Classifies a decoder diagnostic: the duplicate-key marker, then the
/// merge-key marker, else a bounded decode message.
pub fn classify_decode(format: &'static str, message: &str) -> (r: PreflightError)
    ensures
        has_substring(message@, DUPLICATE_MAPPING_KEY_MARKER@) ==> (r == (PreflightError::DuplicateMappingKey { format })),
        !has_substring(message@, DUPLICATE_MAPPING_KEY_MARKER@) && has_substring(message@, MERGE_MAPPING_KEY_MARKER@)
            ==> (r == PreflightError::UnsupportedYamlFeature(YamlFeature::MergeKey)),
        !has_substring(message@, DUPLICATE_MAPPING_KEY_MARKER@) && !has_substring(message@, MERGE_MAPPING_KEY_MARKER@)
            ==> (r matches PreflightError::Decode { format: f, message: m } && f == format && m@ == bounded_text(message@)),
{
    let text = chars_of(message);
    let duplicate = chars_of(DUPLICATE_MAPPING_KEY_MARKER);
    let merge = chars_of(MERGE_MAPPING_KEY_MARKER);
    if contains_chars(&text, &duplicate) {
        PreflightError::DuplicateMappingKey { format }
    } else if contains_chars(&text, &merge) {
        PreflightError::UnsupportedYamlFeature(YamlFeature::MergeKey)
    } else {
        PreflightError::Decode { format, message: bounded_message(message) }
    }
}

/// Whether `key` is among the texts of `earlier`.
pub open spec fn key_seen(earlier: Seq<String>, key: Seq<char>) -> bool {
    exists|i: int| 0 <= i < earlier.len() && (#[trigger] earlier[i])@ == key
}

/// The marker a strict decoder raises for the next key of a mapping, given
/// the keys already read from that mapping: the merge-key marker for `<<`,
/// the duplicate-key marker for a key read before, and none otherwise.
pub fn mapping_key_marker(key: &str, earlier: &Vec<String>) -> (r: Option<&'static str>)
    ensures
        key@ == seq!['<', '<'] ==> r == Some(MERGE_MAPPING_KEY_MARKER),
        key@ != seq!['<', '<'] && key_seen(earlier@, key@) ==> r == Some(DUPLICATE_MAPPING_KEY_MARKER),
        key@ != seq!['<', '<'] && !key_seen(earlier@, key@) ==> r is None,
{
    let merge = "<<";
    proof {
        reveal_strlit("<<");
        assert(merge@ =~= seq!['<', '<']);
    }
    if str_eq(key, merge) {
        return Some(MERGE_MAPPING_KEY_MARKER);
    }
    let mut i: usize = 0;
    while i < earlier.len()
        invariant
            0 <= i <= earlier@.len(),
            key@ != seq!['<', '<'],
            forall|j: int| 0 <= j < i ==> (#[trigger] earlier@[j])@ != key@,
        decreases earlier@.len() - i,
    {
        if str_eq(earlier[i].as_str(), key) {
            assert(earlier@[i as int]@ == key@);
            return Some(DUPLICATE_MAPPING_KEY_MARKER);
        }
        i = i + 1;
    }
    None
}

} // verus!
