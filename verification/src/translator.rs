//! Text handling around translation: cleaning chat text, deciding what is
//! worth translating, cache keys and fallbacks, and reading the replies of
//! the two Google endpoints (the JSON of `translate_a/single` and the HTML
//! of the mobile page, with its entities decoded).
use vstd::prelude::*;
use vstd::string::StringExecFns;
use crate::hosts::index_of_from;
use crate::number::{parse_uint, uint_text};
use crate::text::{
    byte_len, byte_len_of, chars_equal, chars_of, lemma_byte_len_ge, string_of, sub_chars, trim,
    trim_chars,
};

verus! {

broadcast use vstd::string::group_string_axioms;

// ---------------------------------------------------------------------------
// Character helpers
// ---------------------------------------------------------------------------

/// `starts_with`: `p` is a prefix of `s`.
pub open spec fn has_prefix(s: Seq<char>, p: Seq<char>) -> bool {
    p.len() <= s.len() && s.take(p.len() as int) == p
}

fn starts_with_str(v: &Vec<char>, p: &str) -> (b: bool)
    ensures
        b == has_prefix(v@, p@),
{
    let pv = chars_of(p);
    if pv.len() > v.len() {
        return false;
    }
    let mut i: usize = 0;
    while i < pv.len()
        invariant
            pv@ == p@,
            pv@.len() <= v@.len(),
            i <= pv@.len(),
            forall|k: int| 0 <= k < i ==> v@[k] == pv@[k],
        decreases pv@.len() - i,
    {
        if v[i] != pv[i] {
            assert(v@.take(pv@.len() as int)[i as int] != pv@[i as int]);
            return false;
        }
        i += 1;
    }
    assert(v@.take(pv@.len() as int) =~= pv@);
    true
}

// ---------------------------------------------------------------------------
// Chat text
// ---------------------------------------------------------------------------

/// `s` without the U+FFFF markers Albion brackets styled segments with.
pub open spec fn without_markers(s: Seq<char>) -> Seq<char>
    decreases s.len(),
{
    if s.len() == 0 {
        Seq::empty()
    } else if s.last() == '\u{ffff}' {
        without_markers(s.drop_last())
    } else {
        without_markers(s.drop_last()).push(s.last())
    }
}

/// Strips Albion's chat formatting markers (U+FFFF).
pub fn clean_chat_text(text: &str) -> (r: String)
    ensures
        r@ == without_markers(text@),
{
    let v = chars_of(text);
    let mut out = String::new();
    let mut i: usize = 0;
    assert(v@.take(0) =~= Seq::<char>::empty());
    while i < v.len()
        invariant
            i <= v@.len(),
            v@ == text@,
            out@ == without_markers(v@.take(i as int)),
        decreases v@.len() - i,
    {
        assert(v@.take(i + 1).drop_last() =~= v@.take(i as int));
        assert(v@.take(i + 1).last() == v@[i as int]);
        if v[i] != '\u{ffff}' {
            out.push(v[i]);
        }
        i += 1;
    }
    assert(v@.take(i as int) =~= v@);
    out
}

/// The text worth translating: the cleaned, trimmed text, unless it is
/// shorter than two bytes or starts with "http" or "@".
pub open spec fn translatable(text: Seq<char>) -> Option<Seq<char>> {
    let t = trim(without_markers(text));
    if byte_len(t) < 2 || has_prefix(t, "http"@) || has_prefix(t, "@"@) {
        None
    } else {
        Some(t)
    }
}

/// Cleans and trims chat text; `None` for text not worth translating.
pub fn prepare_text(text: &str) -> (r: Option<String>)
    ensures
        match r {
            Some(s) => translatable(text@) == Some(s@),
            None => translatable(text@) is None,
        },
{
    let cleaned = clean_chat_text(text);
    let v = chars_of(cleaned.as_str());
    let t = trim_chars(&v);
    let short = if t.len() >= 2 {
        proof {
            lemma_byte_len_ge(t@);
        }
        false
    } else {
        let n = byte_len_of(&t, 0, t.len());
        assert(t@.subrange(0, t@.len() as int) =~= t@);
        n < 2
    };
    if short || starts_with_str(&t, "http") || starts_with_str(&t, "@") {
        return None;
    }
    Some(string_of(&t))
}

/// The cache key of a translation: source language (or "auto"), target
/// language and text, joined by colons.
pub open spec fn cache_key_text(detected: Option<Seq<char>>, target: Seq<char>, text: Seq<char>) -> Seq<char> {
    let head = match detected {
        Some(d) => d,
        None => "auto"@,
    };
    head + ":"@ + target + ":"@ + text
}

pub fn cache_key(detected: Option<&str>, target: &str, text: &str) -> (s: String)
    ensures
        s@ == cache_key_text(
            match detected {
                Some(d) => Some(d@),
                None => None,
            },
            target@,
            text@,
        ),
{
    let mut s = match detected {
        Some(d) => d.to_string(),
        None => "auto".to_string(),
    };
    s.append(":");
    s.append(target);
    s.append(":");
    s.append(text);
    s
}

/// What is shown when no backend could translate: the text tagged with
/// its language ("unknown" when not detected).  It is never cached.
pub open spec fn fallback_text_of(detected: Option<Seq<char>>, text: Seq<char>) -> Seq<char> {
    let tag = match detected {
        Some(d) => d,
        None => "unknown"@,
    };
    "["@ + tag + "] "@ + text
}

pub fn fallback_text(detected: Option<&str>, text: &str) -> (s: String)
    ensures
        s@ == fallback_text_of(
            match detected {
                Some(d) => Some(d@),
                None => None,
            },
            text@,
        ),
{
    let mut s = "[".to_string();
    match detected {
        Some(d) => s.append(d),
        None => s.append("unknown"),
    }
    s.append("] ");
    s.append(text);
    s
}

// ---------------------------------------------------------------------------
// HTML entities
// ---------------------------------------------------------------------------

/// A Unicode scalar value: at most U+10FFFF and no surrogate.
pub open spec fn is_char_code(v: nat) -> bool {
    v <= 0x10ffff && !(0xd800 <= v <= 0xdfff)
}

/// Calls `char::from_u32`: the character with that code, `None` for a
/// surrogate or a value above U+10FFFF.
#[verifier::external_body]
fn char_from_u32(v: u32) -> (r: Option<char>)
    ensures
        r == (if is_char_code(v as nat) {
            Some(v as char)
        } else {
            None
        }),
{
    char::from_u32(v)
}

/// The character of a numeric character reference that was read.
pub open spec fn code_char(r: Result<nat, crate::number::IntErrorKind>) -> Option<char> {
    match r {
        Ok(v) => if is_char_code(v) {
            Some((v as u32) as char)
        } else {
            None
        },
        Err(_) => None,
    }
}

/// The character an entity name (between `&` and `;`) stands for: the
/// named entities amp, lt, gt, quot, apos and nbsp, and numeric references
/// in hexadecimal (`#x`, `#X`) or decimal (`#`).
pub open spec fn entity_char(e: Seq<char>) -> Option<char> {
    if e == "amp"@ {
        Some('&')
    } else if e == "lt"@ {
        Some('<')
    } else if e == "gt"@ {
        Some('>')
    } else if e == "quot"@ {
        Some('"')
    } else if e == "apos"@ {
        Some('\'')
    } else if e == "nbsp"@ {
        Some(' ')
    } else if e.len() >= 2 && e[0] == '#' && (e[1] == 'x' || e[1] == 'X') {
        code_char(uint_text(e.skip(2), 16, 0xffff_ffff))
    } else if e.len() >= 1 && e[0] == '#' {
        code_char(uint_text(e.skip(1), 10, 0xffff_ffff))
    } else {
        None
    }
}

/// The entity at the start of `t` (which starts with `&`): the text up to
/// the first `;`, when that `;` lies at most 12 bytes after the `&`.  Gives
/// the character and how many characters the reference takes.
pub open spec fn entity_at(t: Seq<char>) -> Option<(char, int)> {
    match index_of_from(t, ';', 0) {
        Some(j) => if j >= 1 && byte_len(t.take(j)) <= 12 {
            match entity_char(t.subrange(1, j)) {
                Some(c) => Some((c, j + 1)),
                None => None,
            }
        } else {
            None
        },
        None => None,
    }
}

proof fn lemma_index_bounds(s: Seq<char>, c: char, k: int)
    requires
        0 <= k,
    ensures
        match index_of_from(s, c, k) {
            Some(j) => k <= j < s.len() && s[j] == c && forall|m: int| k <= m < j ==> s[m] != c,
            None => forall|m: int| k <= m < s.len() ==> s[m] != c,
        },
    decreases s.len() - k,
{
    if k < s.len() && s[k] != c {
        lemma_index_bounds(s, c, k + 1);
    }
}

/// Text with its HTML entities decoded; an `&` that starts no known
/// entity stays as it is.
pub open spec fn unescape(s: Seq<char>) -> Seq<char>
    decreases s.len(),
    via unescape_decreases
{
    if s.len() == 0 {
        Seq::empty()
    } else if s[0] != '&' {
        seq![s[0]] + unescape(s.drop_first())
    } else {
        match entity_at(s) {
            Some((c, k)) => seq![c] + unescape(s.skip(k)),
            None => seq!['&'] + unescape(s.drop_first()),
        }
    }
}

#[via_fn]
proof fn unescape_decreases(s: Seq<char>) {
    if s.len() > 0 && s[0] == '&' {
        lemma_index_bounds(s, ';', 0);
    }
}

fn entity_exec(e: &Vec<char>) -> (r: Option<char>)
    ensures
        r == entity_char(e@),
{
    if chars_equal(e, "amp") {
        Some('&')
    } else if chars_equal(e, "lt") {
        Some('<')
    } else if chars_equal(e, "gt") {
        Some('>')
    } else if chars_equal(e, "quot") {
        Some('"')
    } else if chars_equal(e, "apos") {
        Some('\'')
    } else if chars_equal(e, "nbsp") {
        Some(' ')
    } else if e.len() >= 2 && e[0] == '#' && (e[1] == 'x' || e[1] == 'X') {
        let digits = sub_chars(e, 2, e.len());
        assert(digits@ =~= e@.skip(2));
        match parse_uint(&digits, 16, 0xffff_ffff) {
            Ok(v) => char_from_u32(v),
            Err(_) => None,
        }
    } else if e.len() >= 1 && e[0] == '#' {
        let digits = sub_chars(e, 1, e.len());
        assert(digits@ =~= e@.skip(1));
        match parse_uint(&digits, 10, 0xffff_ffff) {
            Ok(v) => char_from_u32(v),
            Err(_) => None,
        }
    } else {
        None
    }
}

fn entity_at_exec(v: &Vec<char>, i: usize) -> (r: Option<(char, usize)>)
    requires
        i < v@.len(),
        v@[i as int] == '&',
    ensures
        match r {
            Some((c, k)) => entity_at(v@.skip(i as int)) == Some((c, k as int)) && i + k
                <= v@.len(),
            None => entity_at(v@.skip(i as int)) is None,
        },
{
    let ghost t = v@.skip(i as int);
    let n = v.len();
    let mut m: usize = 1;
    proof {
        lemma_index_bounds(t, ';', 0);
        assert(t[0] == '&');
        assert(index_of_from(t, ';', 0) == index_of_from(t, ';', 1));
    }
    while m <= 12 && i + m < n && v[i + m] != ';'
        invariant
            t == v@.skip(i as int),
            n == v@.len(),
            i < n,
            1 <= m <= 13,
            i + m <= n,
            index_of_from(t, ';', 0) == index_of_from(t, ';', m as int),
        decreases 13 - m,
    {
        assert(t[m as int] == v@[i + m]);
        m += 1;
    }
    if m > 12 || i + m >= n {
        proof {
            lemma_index_bounds(t, ';', m as int);
            match index_of_from(t, ';', m as int) {
                Some(j) => {
                    lemma_byte_len_ge(t.take(j));
                },
                None => {},
            }
        }
        return None;
    }
    assert(t[m as int] == v@[i + m]);
    assert(index_of_from(t, ';', 0) == Some(m as int));
    let bytes = byte_len_of(v, i, i + m);
    assert(v@.subrange(i as int, i + m) =~= t.take(m as int));
    if bytes > 12 {
        return None;
    }
    let e = sub_chars(v, i + 1, i + m);
    assert(e@ =~= t.subrange(1, m as int));
    match entity_exec(&e) {
        Some(c) => Some((c, m + 1)),
        None => None,
    }
}

/// Decodes HTML entities (named ones and numeric character references).
pub fn html_unescape(s: &str) -> (r: String)
    ensures
        r@ == unescape(s@),
{
    let v = chars_of(s);
    let n = v.len();
    let mut out = String::new();
    let mut i: usize = 0;
    assert(v@.skip(0) =~= v@);
    while i < n
        invariant
            n == v@.len(),
            v@ == s@,
            i <= n,
            unescape(s@) == out@ + unescape(v@.skip(i as int)),
        decreases n - i,
    {
        let ghost t = v@.skip(i as int);
        assert(t[0] == v@[i as int]);
        assert(t.drop_first() =~= v@.skip(i + 1));
        if v[i] != '&' {
            out.push(v[i]);
            i += 1;
        } else {
            match entity_at_exec(&v, i) {
                Some((c, k)) => {
                    assert(t.skip(k as int) =~= v@.skip(i + k));
                    out.push(c);
                    i += k;
                },
                None => {
                    out.push('&');
                    i += 1;
                },
            }
        }
    }
    assert(v@.skip(i as int) =~= Seq::<char>::empty());
    assert(out@ =~= out@ + Seq::<char>::empty());
    out
}

// ---------------------------------------------------------------------------
// Replies of the translation endpoints
// ---------------------------------------------------------------------------

/// A JSON value, as far as reading a reply needs it (numbers are kept as
/// their text).
#[derive(Debug)]
pub enum Json {
    Null,
    Bool(bool),
    Number(String),
    Str(String),
    Array(Vec<Json>),
    Object(Vec<(String, Json)>),
}

/// The text of element `i` of an array's element 0 when that is a string:
/// a translated sentence segment.
pub open spec fn segment_text(seg: Json) -> Seq<char> {
    match seg {
        Json::Array(xs) => if xs@.len() > 0 {
            match xs@[0] {
                Json::Str(t) => t@,
                _ => Seq::empty(),
            }
        } else {
            Seq::empty()
        },
        _ => Seq::empty(),
    }
}

/// The segment texts of `segs`, concatenated.
pub open spec fn segments_text(segs: Seq<Json>) -> Seq<char>
    decreases segs.len(),
{
    if segs.len() == 0 {
        Seq::empty()
    } else {
        segments_text(segs.drop_last()) + segment_text(segs.last())
    }
}

/// The translation in a `translate_a/single` reply
/// (`[[[segment, source, ...], ...], null, "lang", ...]`): all sentence
/// segments concatenated; the untranslated text when there are none.
pub open spec fn gtx_translation(raw: Json, text: Seq<char>) -> Seq<char> {
    let joined = match raw {
        Json::Array(items) => if items@.len() > 0 {
            match items@[0] {
                Json::Array(segs) => segments_text(segs@),
                _ => Seq::empty(),
            }
        } else {
            Seq::empty()
        },
        _ => Seq::empty(),
    };
    if joined.len() == 0 {
        text
    } else {
        joined
    }
}

fn append_segment(out: &mut String, seg: &Json)
    ensures
        final(out)@ == old(out)@ + segment_text(*seg),
{
    match seg {
        Json::Array(xs) => {
            if xs.len() > 0 {
                match &xs[0] {
                    Json::Str(t) => {
                        out.append(t.as_str());
                    },
                    _ => {
                        assert(final(out)@ =~= old(out)@ + Seq::<char>::empty());
                    },
                }
            } else {
                assert(final(out)@ =~= old(out)@ + Seq::<char>::empty());
            }
        },
        _ => {
            assert(final(out)@ =~= old(out)@ + Seq::<char>::empty());
        },
    }
}

/// Reads the translation out of a `translate_a/single` reply.
pub fn gtx_text(raw: &Json, text: &str) -> (r: String)
    ensures
        r@ == gtx_translation(*raw, text@),
{
    let mut out = String::new();
    match raw {
        Json::Array(items) => {
            if items.len() > 0 {
                match &items[0] {
                    Json::Array(segs) => {
                        let mut i: usize = 0;
                        assert(segs@.take(0) =~= Seq::<Json>::empty());
                        assert(out@ =~= Seq::<char>::empty());
                        while i < segs.len()
                            invariant
                                i <= segs@.len(),
                                out@ == segments_text(segs@.take(i as int)),
                            decreases segs@.len() - i,
                        {
                            assert(segs@.take(i + 1).drop_last() =~= segs@.take(i as int));
                            assert(segs@.take(i + 1).last() == segs@[i as int]);
                            append_segment(&mut out, &segs[i]);
                            i += 1;
                        }
                        assert(segs@.take(i as int) =~= segs@);
                    },
                    _ => {},
                }
            }
        },
        _ => {},
    }
    if out.as_str().is_empty() {
        text.to_string()
    } else {
        out
    }
}

/// Why the mobile page gave no translation.
#[derive(Clone, Copy, Debug, PartialEq, Eq, Structural)]
pub enum MobileError {
    /// Google served an error page (with status 200).
    ErrorPage,
    /// No result container in the page.
    NoResult,
    /// What was found looks like markup, not a translation.
    Markup,
}

pub open spec fn mobile_error_text(e: MobileError) -> Seq<char> {
    match e {
        MobileError::ErrorPage => "Google /m served an error page"@,
        MobileError::NoResult => "no result-container in /m response"@,
        MobileError::Markup => "/m result looks like markup, not a translation"@,
    }
}

impl MobileError {
    pub fn message(&self) -> (s: String)
        ensures
            s@ == mobile_error_text(*self),
    {
        match self {
            MobileError::ErrorPage => "Google /m served an error page".to_string(),
            MobileError::NoResult => "no result-container in /m response".to_string(),
            MobileError::Markup => "/m result looks like markup, not a translation".to_string(),
        }
    }
}

/// The first index where `needle` occurs in `hay`.
pub open spec fn find_text(hay: Seq<char>, needle: Seq<char>) -> Option<int> {
    if exists|i: int| crate::text::occurs_at(hay, needle, i) {
        Some(choose|i: int| crate::text::is_first_occurrence(hay, needle, 0, Some(i)))
    } else {
        None
    }
}

/// The translation on the mobile page: the text of the first
/// `<div class="result-container">` (up to the next `</div>`, or the end),
/// trimmed and with entities decoded.  An error page, a page without the
/// container, and a result that is empty or holds `<` or `>` give errors.
pub open spec fn mobile_translation(html: Seq<char>) -> Result<Seq<char>, MobileError> {
    let marker = "class=\"result-container\">"@;
    if crate::text::has_substr(html, "af-error-page"@) {
        Err(MobileError::ErrorPage)
    } else {
        match find_text(html, marker) {
            None => Err(MobileError::NoResult),
            Some(i) => {
                let rest = html.skip(i + marker.len());
                let body = match find_text(rest, "</div>"@) {
                    Some(e) => rest.take(e),
                    None => rest,
                };
                let t = unescape(trim(body));
                if t.len() == 0 || t.contains('<') || t.contains('>') {
                    Err(MobileError::Markup)
                } else {
                    Ok(t)
                }
            },
        }
    }
}

proof fn lemma_first_unique(hay: Seq<char>, needle: Seq<char>, i: int)
    requires
        crate::text::is_first_occurrence(hay, needle, 0, Some(i)),
    ensures
        find_text(hay, needle) == Some(i),
{
    assert(crate::text::occurs_at(hay, needle, i));
    let j = choose|j: int| crate::text::is_first_occurrence(hay, needle, 0, Some(j));
    assert(crate::text::is_first_occurrence(hay, needle, 0, Some(j)));
    if j < i {
        assert(!crate::text::occurs_at(hay, needle, j));
    } else if i < j {
        assert(!crate::text::occurs_at(hay, needle, i));
    }
}

pub fn find_chars(hay: &Vec<char>, needle: &str) -> (r: Option<usize>)
    ensures
        match r {
            Some(i) => find_text(hay@, needle@) == Some(i as int) && i + needle@.len() <= hay@.len(),
            None => find_text(hay@, needle@) is None,
        },
{
    let nv = chars_of(needle);
    match crate::text::find_from(hay, &nv, 0) {
        Some(i) => {
            proof {
                lemma_first_unique(hay@, needle@, i as int);
            }
            Some(i)
        },
        None => {
            assert(!(exists|i: int| crate::text::occurs_at(hay@, needle@, i))) by {
                if exists|i: int| crate::text::occurs_at(hay@, needle@, i) {
                    let i = choose|i: int| crate::text::occurs_at(hay@, needle@, i);
                    assert(0 <= i);
                }
            }
            None
        },
    }
}

fn has_char(v: &Vec<char>, c: char) -> (b: bool)
    ensures
        b == v@.contains(c),
{
    let mut i: usize = 0;
    while i < v.len()
        invariant
            i <= v@.len(),
            forall|k: int| 0 <= k < i ==> v@[k] != c,
        decreases v@.len() - i,
    {
        if v[i] == c {
            return true;
        }
        i += 1;
    }
    false
}

/// Reads the translation out of the mobile translation page.
pub fn mobile_text(html: &str) -> (r: Result<String, MobileError>)
    ensures
        match r {
            Ok(t) => mobile_translation(html@) == Ok::<Seq<char>, MobileError>(t@),
            Err(e) => mobile_translation(html@) == Err::<Seq<char>, MobileError>(e),
        },
{
    let v = chars_of(html);
    let ev = chars_of("af-error-page");
    if crate::text::contains_chars(&v, &ev) {
        return Err(MobileError::ErrorPage);
    }
    let marker = "class=\"result-container\">";
    let start = match find_chars(&v, marker) {
        Some(i) => i,
        None => return Err(MobileError::NoResult),
    };
    let mv = chars_of(marker);
    let mlen = mv.len();
    let n = v.len();
    assert(start + mlen <= n);
    let rest = sub_chars(&v, start + mlen, n);
    assert(rest@ =~= v@.skip(start + marker@.len()));
    let body = match find_chars(&rest, "</div>") {
        Some(e) => {
            let b = sub_chars(&rest, 0, e);
            assert(b@ =~= rest@.take(e as int));
            b
        },
        None => rest,
    };
    let trimmed = trim_chars(&body);
    let t = html_unescape(string_of(&trimmed).as_str());
    let tv = chars_of(t.as_str());
    if tv.len() == 0 || has_char(&tv, '<') || has_char(&tv, '>') {
        return Err(MobileError::Markup);
    }
    Ok(t)
}

// ---------------------------------------------------------------------------
// The order of backends
// ---------------------------------------------------------------------------

/// Translation backends, in the order they are tried.
#[derive(Clone, Copy, Debug, PartialEq, Eq, Structural)]
pub enum Backend {
    /// A local model for the detected language.
    Local,
    /// Google's `translate_a/single` endpoint.
    Gtx,
    /// Google's mobile page.
    Mobile,
}

/// What to do after a backend answered.
#[derive(Debug)]
pub enum FlowStep {
    /// Try this backend next.
    Try(Backend),
    /// Show `shown`; store `cache` (key and raw translation) when present.
    Done { shown: String, cache: Option<(String, String)> },
    /// The translation cannot be shown: the glossary would cut it inside a
    /// character.
    Unshowable,
}

/// The first backend to try: the local model when one applies to the
/// detected language, else Google.
pub fn first_backend(local_applies: bool) -> (b: Backend)
    ensures
        b == if local_applies {
            Backend::Local
        } else {
            Backend::Gtx
        },
{
    if local_applies {
        Backend::Local
    } else {
        Backend::Gtx
    }
}

/// The decision after `backend` answered.  A translation is cached as it
/// came and shown with the glossary applied; a failure moves on to the
/// next backend, and after the last one the text is shown tagged with its
/// language, and nothing is cached.
pub fn after_backend(
    backend: Backend,
    result: Option<String>,
    key: &str,
    text: &str,
    detected: Option<&str>,
) -> (r: FlowStep)
    ensures
        match result {
            Some(t) => match crate::glossary::glossary_applied(t@) {
                Some(g) => r matches FlowStep::Done { shown, cache: Some((k, v)) } && shown@ == g
                    && k@ == key@ && v@ == t@,
                None => r is Unshowable,
            },
            None => match backend {
                Backend::Local => r == FlowStep::Try(Backend::Gtx),
                Backend::Gtx => r == FlowStep::Try(Backend::Mobile),
                Backend::Mobile => r matches FlowStep::Done { shown, cache: None } && shown@
                    == fallback_text_of(
                    match detected {
                        Some(d) => Some(d@),
                        None => None,
                    },
                    text@,
                ),
            },
        },
{
    match result {
        Some(t) => match crate::glossary::try_apply_glossary(t.as_str()) {
            Some(g) => FlowStep::Done { shown: g, cache: Some((key.to_string(), t)) },
            None => FlowStep::Unshowable,
        },
        None => match backend {
            Backend::Local => FlowStep::Try(Backend::Gtx),
            Backend::Gtx => FlowStep::Try(Backend::Mobile),
            Backend::Mobile => FlowStep::Done { shown: fallback_text(detected, text), cache: None },
        },
    }
}

// ---------------------------------------------------------------------------
// Request addresses
// ---------------------------------------------------------------------------

/// An upper-case hexadecimal digit.
pub open spec fn upper_hex(n: u8) -> char {
    if n < 10 {
        (48 + n) as char
    } else {
        (55 + n) as char
    }
}

/// Bytes that stay as they are in a URL query: ASCII letters, digits and
/// `-`, `.`, `_`, `~`.
pub open spec fn is_unreserved(b: u8) -> bool {
    (48 <= b <= 57) || (65 <= b <= 90) || (97 <= b <= 122) || b == 45 || b == 46 || b == 95 || b
        == 126
}

/// Percent-encoding of bytes: unreserved bytes as themselves, every other
/// byte as `%` and two upper-case hexadecimal digits.
pub open spec fn percent_encoded(b: Seq<u8>) -> Seq<char>
    decreases b.len(),
{
    if b.len() == 0 {
        Seq::empty()
    } else {
        let x = b.last();
        let tail = if is_unreserved(x) {
            seq![x as char]
        } else {
            seq!['%', upper_hex(x >> 4), upper_hex(x & 0x0f)]
        };
        percent_encoded(b.drop_last()) + tail
    }
}

/// Calls `urlencoding::encode`: the UTF-8 bytes of the text, each byte
/// other than ASCII letters, digits, `-`, `.`, `_` and `~` written as `%`
/// and two upper-case hexadecimal digits.
#[verifier::external_body]
fn url_encode(text: &str) -> (r: String)
    ensures
        r@ == percent_encoded(vstd::utf8::encode_utf8(text@)),
{
    urlencoding::encode(text).into_owned()
}

/// The address of a `translate_a/single` request (client gtx, source
/// language detected by the server).
pub open spec fn gtx_url_text(target: Seq<char>, text: Seq<char>) -> Seq<char> {
    "https://translate.googleapis.com/translate_a/single?client=gtx&sl=auto&tl="@ + target
        + "&dt=t&q="@ + percent_encoded(vstd::utf8::encode_utf8(text))
}

/// The address of the mobile translation page.
pub open spec fn mobile_url_text(target: Seq<char>, text: Seq<char>) -> Seq<char> {
    "https://translate.google.com/m?sl=auto&tl="@ + target + "&q="@ + percent_encoded(
        vstd::utf8::encode_utf8(text),
    )
}

pub fn gtx_url(target: &str, text: &str) -> (r: String)
    ensures
        r@ == gtx_url_text(target@, text@),
{
    let mut s = "https://translate.googleapis.com/translate_a/single?client=gtx&sl=auto&tl=".to_string();
    s.append(target);
    s.append("&dt=t&q=");
    let q = url_encode(text);
    s.append(q.as_str());
    s
}

pub fn mobile_url(target: &str, text: &str) -> (r: String)
    ensures
        r@ == mobile_url_text(target@, text@),
{
    let mut s = "https://translate.google.com/m?sl=auto&tl=".to_string();
    s.append(target);
    s.append("&q=");
    let q = url_encode(text);
    s.append(q.as_str());
    s
}

// ---------------------------------------------------------------------------
// Language detection
// ---------------------------------------------------------------------------

/// `lingua::LanguageDetector`, carried through unopened: nothing is
/// assumed of what it holds.
#[verifier::external_type_specification]
#[verifier::external_body]
pub struct ExLanguageDetector(lingua::LanguageDetector);

/// The language codes the interface knows (ISO 639-1, lower case).
pub open spec fn known_code(c: Seq<char>) -> bool {
    c == "en"@ || c == "es"@ || c == "pt"@ || c == "fr"@ || c == "de"@ || c == "ru"@ || c == "zh"@ || c == "ja"@ || c == "ko"@ || c == "tr"@ || c == "ar"@ || c == "th"@ || c == "pl"@ || c == "uk"@ || c == "it"@ || c == "vi"@ || c == "id"@
}

/// A detected language's ISO 639-1 code as shown: the known codes as they
/// are, any other as "unknown".
pub open spec fn shown_code(iso: Seq<char>) -> Seq<char> {
    if known_code(iso) {
        iso
    } else {
        "unknown"@
    }
}

fn same_str(a: &str, b: &str) -> (r: bool)
    ensures
        r == (a@ == b@),
{
    let x = chars_of(a);
    chars_equal(&x, b)
}

/// The code shown for a language with the given ISO 639-1 code.
pub fn language_code(iso: &str) -> (r: &'static str)
    ensures
        r@ == shown_code(iso@),
{
    if same_str(iso, "en") {
        "en"
    } else if same_str(iso, "es") {
        "es"
    } else if same_str(iso, "pt") {
        "pt"
    } else if same_str(iso, "fr") {
        "fr"
    } else if same_str(iso, "de") {
        "de"
    } else if same_str(iso, "ru") {
        "ru"
    } else if same_str(iso, "zh") {
        "zh"
    } else if same_str(iso, "ja") {
        "ja"
    } else if same_str(iso, "ko") {
        "ko"
    } else if same_str(iso, "tr") {
        "tr"
    } else if same_str(iso, "ar") {
        "ar"
    } else if same_str(iso, "th") {
        "th"
    } else if same_str(iso, "pl") {
        "pl"
    } else if same_str(iso, "uk") {
        "uk"
    } else if same_str(iso, "it") {
        "it"
    } else if same_str(iso, "vi") {
        "vi"
    } else if same_str(iso, "id") {
        "id"
    } else {
        "unknown"
    }
}

/// Calls `LanguageDetector::detect_language_of` and gives the detected
/// language's ISO 639-1 code (`IsoCode639_1`'s text, lower case).  Which
/// language the statistical models pick, and whether they pick one, is
/// not stated.  Nothing is stated of panics inside lingua either: its
/// ranking unwraps float comparisons, and no claim is made here that this
/// cannot fail on some text.
#[verifier::external_body]
fn detect_iso_code(detector: &lingua::LanguageDetector, text: &str) -> (r: Option<String>) {
    match detector.detect_language_of(text) {
        Some(lang) => Some(lang.iso_code_639_1().to_string()),
        None => None,
    }
}

/// What a detector's answer is shown as: the shown code of the detected
/// language's ISO 639-1 code, none when nothing was detected.
pub fn shown_language(iso: Option<String>) -> (r: Option<String>)
    ensures
        match iso {
            Some(c) => r matches Some(s) && s@ == shown_code(c@),
            None => r is None,
        },
{
    match iso {
        Some(c) => Some(language_code(c.as_str()).to_string()),
        None => None,
    }
}

/// Best-guess language of a text, for display tags and cache keys: none
/// for texts under three bytes, else the detector's pick as a shown code.
/// Whether the detector picks a language at all is its own statistical
/// decision, so no input is owed a result.
pub fn detect_language(detector: &lingua::LanguageDetector, text: &str) -> (r: Option<String>)
    ensures
        vstd::utf8::encode_utf8(text@).len() < 3 ==> r is None,
        r matches Some(c) ==> known_code(c@) || c@ == "unknown"@,
{
    if text.as_bytes().len() < 3 {
        return None;
    }
    shown_language(detect_iso_code(detector, text))
}

// ---------------------------------------------------------------------------
// Requests
// ---------------------------------------------------------------------------

/// A translation asked for by the user interface.
#[derive(Clone, Debug)]
pub struct TranslationRequest {
    pub text: String,
    pub source_lang: Option<String>,
    pub target_lang: String,
}

// ---------------------------------------------------------------------------
// Laws
// ---------------------------------------------------------------------------

/// Text without `&` comes out of entity decoding unchanged.
pub proof fn law_unescape_plain_text(s: Seq<char>)
    requires
        !s.contains('&'),
    ensures
        unescape(s) == s,
    decreases s.len(),
{
    if s.len() > 0 {
        assert(s[0] != '&');
        assert(!s.drop_first().contains('&')) by {
            if s.drop_first().contains('&') {
                let i = choose|i: int| 0 <= i < s.drop_first().len() && s.drop_first()[i] == '&';
                assert(s[i + 1] == '&');
            }
        }
        law_unescape_plain_text(s.drop_first());
        assert(seq![s[0]] + s.drop_first() =~= s);
    }
}

/// Cleaning leaves no marker behind, keeps every other character in
/// order, and cleaning again changes nothing.
pub proof fn law_markers_removed(s: Seq<char>)
    ensures
        !without_markers(s).contains('\u{ffff}'),
        without_markers(without_markers(s)) == without_markers(s),
        !s.contains('\u{ffff}') ==> without_markers(s) == s,
    decreases s.len(),
{
    if s.len() > 0 {
        law_markers_removed(s.drop_last());
        let w = without_markers(s.drop_last());
        if s.last() != '\u{ffff}' {
            assert(without_markers(s) == w.push(s.last()));
            assert(!w.push(s.last()).contains('\u{ffff}')) by {
                if w.push(s.last()).contains('\u{ffff}') {
                    let i = choose|i: int| 0 <= i < w.push(s.last()).len() && w.push(s.last())[i]
                        == '\u{ffff}';
                    if i < w.len() {
                        assert(w[i] == '\u{ffff}');
                    }
                }
            }
            assert(w.push(s.last()).drop_last() =~= w);
            assert(without_markers(w.push(s.last())) == without_markers(w).push(s.last()));
            if !s.contains('\u{ffff}') {
                assert(!s.drop_last().contains('\u{ffff}')) by {
                    if s.drop_last().contains('\u{ffff}') {
                        let i = choose|i: int| 0 <= i < s.drop_last().len() && s.drop_last()[i]
                            == '\u{ffff}';
                        assert(s[i] == '\u{ffff}');
                    }
                }
                assert(s.drop_last().push(s.last()) =~= s);
            }
        } else {
            assert(s.contains('\u{ffff}')) by {
                assert(s[s.len() - 1] == '\u{ffff}');
            }
        }
    }
}

} // verus!
