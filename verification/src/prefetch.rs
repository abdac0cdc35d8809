//! Transfer metadata derived from an HTTP response.
//!
//! The network edge hands this module the plain header values of one
//! response; everything here computes from those values alone: the resolved
//! file size, whether byte ranges are supported, and the destination file
//! name (chosen from the Content-Disposition header, the URL path, or the
//! URL itself, then sanitized).

use vstd::prelude::*;

verus! {

// ---------------------------------------------------------------------------
// Decimal parsing, as `str::parse::<u64>` accepts it.
// ---------------------------------------------------------------------------

pub open spec fn is_dec_digit(c: char) -> bool {
    48 <= c as u32 <= 57
}

pub open spec fn digit_val(c: char) -> int {
    c as u32 - 48
}

/// The value of a digit string, most significant digit first.
pub open spec fn digits_val(s: Seq<char>) -> int
    decreases s.len(),
{
    if s.len() == 0 {
        0
    } else {
        digits_val(s.drop_last()) * 10 + digit_val(s.last())
    }
}

/// The digit part of the number: everything after an optional leading `+`.
pub open spec fn digits_of(s: Seq<char>) -> Seq<char> {
    if s.len() > 0 && s[0] == '+' {
        s.drop_first()
    } else {
        s
    }
}

pub open spec fn all_digits(s: Seq<char>) -> bool {
    forall|k: int| 0 <= k < s.len() ==> is_dec_digit(#[trigger] s[k])
}

/// What parsing a decimal `u64` yields: an optional leading `+`, then at
/// least one digit, and a value that fits.
pub open spec fn parse_u64_rep(s: Seq<char>) -> Option<u64> {
    if digits_of(s).len() > 0 && all_digits(digits_of(s)) && digits_val(digits_of(s))
        <= u64::MAX {
        Some(digits_val(digits_of(s)) as u64)
    } else {
        None
    }
}

proof fn lemma_digits_val_nonneg(s: Seq<char>)
    requires
        forall|k: int| 0 <= k < s.len() ==> is_dec_digit(#[trigger] s[k]),
    ensures
        digits_val(s) >= 0,
    decreases s.len(),
{
    if s.len() > 0 {
        lemma_digits_val_nonneg(s.drop_last());
    }
}

/// A digit string is worth at least any of its prefixes.
proof fn lemma_digits_val_mono(s: Seq<char>, m: int)
    requires
        0 <= m <= s.len(),
        forall|k: int| 0 <= k < s.len() ==> is_dec_digit(#[trigger] s[k]),
    ensures
        digits_val(s.take(m)) <= digits_val(s),
    decreases s.len() - m,
{
    if m < s.len() {
        lemma_digits_val_mono(s, m + 1);
        let t = s.take(m + 1);
        assert(t.drop_last() =~= s.take(m));
        lemma_digits_val_nonneg(s.take(m));
        assert(digits_val(t) == digits_val(s.take(m)) * 10 + digit_val(t.last()));
        assert(digits_val(s.take(m)) * 10 >= digits_val(s.take(m))) by (nonlinear_arith)
            requires
                digits_val(s.take(m)) >= 0,
        ;
    } else {
        assert(s.take(m) =~= s);
    }
}

/// Parses a decimal `u64` the way `str::parse` does: an optional `+`, then
/// digits; `None` on an empty number, a stray character or overflow.
pub fn parse_u64(s: &str) -> (r: Option<u64>)
    ensures
        r == parse_u64_rep(s@),
{
    let n = s.unicode_len();
    let mut i: usize = 0;
    if n > 0 && s.get_char(0) == '+' {
        i = 1;
    }
    let ghost ds = if s@.len() > 0 && s@[0] == '+' {
        s@.drop_first()
    } else {
        s@
    };
    proof {
        assert(ds =~= s@.subrange(i as int, n as int));
        assert(ds == digits_of(s@));
    }
    if i >= n {
        return None;
    }
    let mut acc: u128 = 0;
    let mut j: usize = i;
    while j < n
        invariant
            i <= j <= n,
            n == s@.len(),
            i == 0 || (i == 1 && s@[0] == '+'),
            ds == s@.subrange(i as int, n as int),
            ds == digits_of(s@),
            forall|k: int| i <= k < j ==> is_dec_digit(#[trigger] s@[k]),
            acc == digits_val(s@.subrange(i as int, j as int)),
            acc <= u64::MAX,
        decreases n - j,
    {
        let c = s.get_char(j);
        let v = c as u32;
        if v < 48 || v > 57 {
            proof {
                assert(ds[j - i] == s@[j as int]);
                assert(!is_dec_digit(ds[j - i]));
                assert(!all_digits(ds));
            }
            return None;
        }
        proof {
            let pre = s@.subrange(i as int, j as int);
            let pre1 = s@.subrange(i as int, j + 1 as int);
            assert(pre1.drop_last() =~= pre);
            assert(pre1.last() == s@[j as int]);
        }
        acc = acc * 10 + ((v - 48) as u128);
        if acc > u64::MAX as u128 {
            proof {
                let pre1 = s@.subrange(i as int, j + 1 as int);
                if parse_u64_rep(s@) is Some {
                    assert(all_digits(ds));
                    assert(pre1 =~= ds.take(j + 1 - i));
                    lemma_digits_val_mono(ds, j + 1 - i);
                    assert(false);
                }
            }
            return None;
        }
        j = j + 1;
    }
    proof {
        assert(s@.subrange(i as int, n as int) =~= ds);
        assert forall|k: int| 0 <= k < ds.len() implies is_dec_digit(#[trigger] ds[k]) by {
            assert(ds[k] == s@[i + k]);
        }
        assert(all_digits(ds));
    }
    Some(acc as u64)
}

// ---------------------------------------------------------------------------
// Header-value helpers.
// ---------------------------------------------------------------------------

/// Everything after the last `/`; the whole text when there is none.
pub open spec fn after_last_slash_rep(s: Seq<char>) -> Seq<char>
    decreases s.len(),
{
    if s.len() == 0 {
        s
    } else if s.last() == '/' {
        Seq::empty()
    } else {
        after_last_slash_rep(s.drop_last()).push(s.last())
    }
}

proof fn lemma_after_last_slash(s: Seq<char>, k: int)
    requires
        -1 <= k < s.len(),
        k >= 0 ==> s[k] == '/',
        forall|j: int| k < j < s.len() ==> s[j] != '/',
    ensures
        after_last_slash_rep(s) == s.subrange(k + 1, s.len() as int),
    decreases s.len() - k,
{
    if s.len() == 0 {
        assert(after_last_slash_rep(s) =~= s.subrange(k + 1, s.len() as int));
    } else if k + 1 == s.len() {
        assert(s.last() == '/');
        assert(after_last_slash_rep(s) =~= s.subrange(k + 1, s.len() as int));
    } else {
        assert(s.last() != '/');
        let d = s.drop_last();
        lemma_after_last_slash(d, k);
        assert(d.subrange(k + 1, d.len() as int) =~= s.subrange(k + 1, s.len() as int).drop_last());
        assert(after_last_slash_rep(s) =~= s.subrange(k + 1, s.len() as int));
    }
}

/// Returns the text after the last `/`, or all of it when there is none.
pub fn after_last_slash(s: &str) -> (r: String)
    ensures
        r@ == after_last_slash_rep(s@),
{
    let n = s.unicode_len();
    let mut j: usize = n;
    while j > 0
        invariant
            0 <= j <= n,
            n == s@.len(),
            forall|k: int| j <= k < n ==> s@[k] != '/',
        decreases j,
    {
        if s.get_char(j - 1) == '/' {
            let r = s.substring_char(j, n).to_owned();
            proof {
                lemma_after_last_slash(s@, j - 1);
            }
            return r;
        }
        j = j - 1;
    }
    let r = s.substring_char(0, n).to_owned();
    proof {
        lemma_after_last_slash(s@, -1);
        assert(s@.subrange(0, n as int) =~= s@);
    }
    r
}

/// `bytes` stands as a space-delimited token at position `i`.
pub open spec fn bytes_token_at(s: Seq<char>, i: int) -> bool {
    &&& 0 <= i && i + 5 <= s.len()
    &&& s.subrange(i, i + 5) == seq!['b', 'y', 't', 'e', 's']
    &&& i == 0 || s[i - 1] == ' '
    &&& i + 5 == s.len() || s[i + 5] == ' '
}

/// Splitting on spaces yields a `bytes` token somewhere.
pub open spec fn has_bytes_token(s: Seq<char>) -> bool {
    exists|i: int| bytes_token_at(s, i)
}

/// Whether an Accept-Ranges value advertises byte ranges: one of its
/// space-delimited tokens is exactly `bytes`.
pub fn accepts_byte_ranges(s: &str) -> (r: bool)
    ensures
        r == has_bytes_token(s@),
{
    let n = s.unicode_len();
    if n < 5 {
        proof {
            assert(forall|i: int| !bytes_token_at(s@, i));
        }
        return false;
    }
    let mut i: usize = 0;
    while i <= n - 5
        invariant
            n == s@.len(),
            5 <= n,
            0 <= i <= n - 5 + 1,
            forall|k: int| 0 <= k < i ==> !bytes_token_at(s@, k),
        decreases n - i,
    {
        let is_token = s.get_char(i) == 'b' && s.get_char(i + 1) == 'y' && s.get_char(i + 2) == 't'
            && s.get_char(i + 3) == 'e' && s.get_char(i + 4) == 's' && (i == 0 || s.get_char(i - 1)
            == ' ') && (i + 5 == n || s.get_char(i + 5) == ' ');
        if is_token {
            proof {
                assert(s@.subrange(i as int, i + 5 as int) =~= seq!['b', 'y', 't', 'e', 's']);
                assert(bytes_token_at(s@, i as int));
            }
            return true;
        }
        proof {
            if bytes_token_at(s@, i as int) {
                assert(s@.subrange(i as int, i + 5 as int)[0] == 'b');
                assert(s@.subrange(i as int, i + 5 as int)[1] == 'y');
                assert(s@.subrange(i as int, i + 5 as int)[2] == 't');
                assert(s@.subrange(i as int, i + 5 as int)[3] == 'e');
                assert(s@.subrange(i as int, i + 5 as int)[4] == 's');
                assert(false);
            }
        }
        i = i + 1;
    }
    proof {
        assert(forall|k: int| 0 <= k < n - 4 ==> !bytes_token_at(s@, k));
        assert(forall|k: int| !bytes_token_at(s@, k));
    }
    false
}

/// The Unicode whitespace characters, as `char::is_whitespace` knows them.
pub open spec fn is_space_char(c: char) -> bool {
    let v = c as u32;
    ||| v == 0x09
    ||| v == 0x0A
    ||| v == 0x0B
    ||| v == 0x0C
    ||| v == 0x0D
    ||| v == 0x20
    ||| v == 0x85
    ||| v == 0xA0
    ||| v == 0x1680
    ||| (0x2000 <= v && v <= 0x200A)
    ||| v == 0x2028
    ||| v == 0x2029
    ||| v == 0x202F
    ||| v == 0x205F
    ||| v == 0x3000
}

/// Trimming leaves nothing: every character is whitespace.
pub open spec fn is_blank_rep(s: Seq<char>) -> bool {
    forall|k: int| 0 <= k < s.len() ==> is_space_char(#[trigger] s[k])
}

/// What the `filename` parameter of a parsed Content-Disposition header
/// holds; a function of the header text alone.
pub uninterp spec fn disposition_filename(header: Seq<char>) -> Option<Seq<char>>;

/// Relies on `content_disposition::parse_content_disposition` and
/// `ParsedContentDisposition::filename_full`: the `filename` parameter of
/// the parsed header, determined by the header text alone.
#[verifier::external_body]
fn parse_disposition_filename(header: &str) -> (r: Option<String>)
    ensures
        match r {
            Some(name) => disposition_filename(header@) == Some(name@),
            None => disposition_filename(header@) is None,
        },
{
    content_disposition::parse_content_disposition(header).filename_full()
}

/// What percent-decoding a string yields, when the decoded bytes are valid
/// UTF-8; a function of the text alone.
pub uninterp spec fn url_decoded(s: Seq<char>) -> Option<Seq<char>>;

/// Relies on `urlencoding::decode`: percent-decoding assuming UTF-8,
/// determined by the text alone; `None` exactly when the decoded bytes are
/// not valid UTF-8.
#[verifier::external_body]
fn percent_decode(s: &str) -> (r: Option<String>)
    ensures
        match r {
            Some(d) => url_decoded(s@) == Some(d@),
            None => url_decoded(s@) is None,
        },
{
    match urlencoding::decode(s) {
        Ok(d) => Some(d.into_owned()),
        Err(_) => None,
    }
}

/// What sanitizing a file name yields under the given options; a function of
/// the name and the options alone.
pub uninterp spec fn sanitized(
    name: Seq<char>,
    windows: bool,
    truncate: bool,
    replacement: Seq<char>,
) -> Seq<char>;

/// Relies on `sanitize_filename::sanitize_with_options`: rewrites a file
/// name by fixed rules (illegal, control and reserved sequences replaced,
/// optional truncation), determined by the name and the options alone.
#[verifier::external_body]
fn sanitize_name(name: &str, windows: bool, truncate: bool, replacement: &str) -> (r: String)
    ensures
        r@ == sanitized(name@, windows, truncate, replacement@),
{
    sanitize_filename::sanitize_with_options(
        name,
        sanitize_filename::Options { windows, truncate, replacement },
    )
}

/// Whether the text trims to the empty string.
pub fn is_blank(s: &str) -> (r: bool)
    ensures
        r == is_blank_rep(s@),
{
    let n = s.unicode_len();
    let mut i: usize = 0;
    while i < n
        invariant
            n == s@.len(),
            0 <= i <= n,
            forall|k: int| 0 <= k < i ==> is_space_char(#[trigger] s@[k]),
        decreases n - i,
    {
        let v = s.get_char(i) as u32;
        let ws = v == 0x09 || v == 0x0A || v == 0x0B || v == 0x0C || v == 0x0D || v == 0x20 || v
            == 0x85 || v == 0xA0 || v == 0x1680 || (0x2000 <= v && v <= 0x200A) || v == 0x2028 || v
            == 0x2029 || v == 0x202F || v == 0x205F || v == 0x3000;
        if !ws {
            return false;
        }
        i = i + 1;
    }
    true
}


// ---------------------------------------------------------------------------
// UrlInfo: the resolved metadata of one remote resource.
// ---------------------------------------------------------------------------

/// The destination file name: the Content-Disposition filename when present
/// and not blank, else the decoded last URL path segment when present and
/// not blank, else the URL itself — then sanitized for the file system.
pub open spec fn filename_choice(
    disposition: Option<Seq<char>>,
    segment: Option<Seq<char>>,
    final_url: Seq<char>,
) -> Seq<char> {
    let from_disposition = match disposition {
        Some(h) => match disposition_filename(h) {
            Some(f) => if !is_blank_rep(f) {
                Some(f)
            } else {
                None
            },
            None => None,
        },
        None => None,
    };
    let from_url = match segment {
        Some(seg) => match url_decoded(seg) {
            Some(d) => if !is_blank_rep(d) {
                Some(d)
            } else {
                None
            },
            None => None,
        },
        None => None,
    };
    match from_disposition {
        Some(f) => f,
        None => match from_url {
            Some(d) => d,
            None => final_url,
        },
    }
}

/// Picks and sanitizes the destination file name from the response's
/// Content-Disposition header, the URL's last path segment, or the URL.
pub fn get_filename(
    disposition: Option<&String>,
    last_segment: Option<&String>,
    final_url: &String,
) -> (r: String)
    ensures
        r@ == sanitized(
            filename_choice(disposition.deep_view(), last_segment.deep_view(), final_url@),
            true,
            true,
            seq!['_'],
        ),
{
    let mut raw: Option<String> = None;
    if let Some(h) = disposition {
        match parse_disposition_filename(h.as_str()) {
            Some(f) => {
                if !is_blank(f.as_str()) {
                    raw = Some(f);
                }
            },
            None => {},
        }
    }
    if raw.is_none() {
        if let Some(seg) = last_segment {
            match percent_decode(seg.as_str()) {
                Some(d) => {
                    if !is_blank(d.as_str()) {
                        raw = Some(d);
                    }
                },
                None => {},
            }
        }
    }
    let name = match raw {
        Some(f) => f,
        None => final_url.clone(),
    };
    proof {
        reveal_strlit("_");
        assert("_"@ =~= seq!['_']);
    }
    sanitize_name(name.as_str(), true, true, "_")
}

/// The resolved size: with partial content, the total after the last `/` of
/// Content-Range; otherwise Content-Length; 0 when absent or unparsable.
pub open spec fn file_size_rep(
    status: int,
    content_range: Option<Seq<char>>,
    content_length: Option<Seq<char>>,
) -> int {
    if status == 206 {
        match content_range {
            Some(v) => match parse_u64_rep(after_last_slash_rep(v)) {
                Some(n) => n as int,
                None => 0,
            },
            None => 0,
        }
    } else {
        match content_length {
            Some(v) => match parse_u64_rep(v) {
                Some(n) => n as int,
                None => 0,
            },
            None => 0,
        }
    }
}

/// Reads the resolved file size from the status and the range headers.
pub fn get_file_size(
    status: u16,
    content_range: Option<&String>,
    content_length: Option<&String>,
) -> (r: u64)
    ensures
        r == file_size_rep(status as int, content_range.deep_view(), content_length.deep_view()),
{
    if status == 206 {
        match content_range {
            Some(v) => {
                let total = after_last_slash(v.as_str());
                match parse_u64(total.as_str()) {
                    Some(n) => n,
                    None => 0,
                }
            },
            None => 0,
        }
    } else {
        match content_length {
            Some(v) => match parse_u64(v.as_str()) {
                Some(n) => n,
                None => 0,
            },
            None => 0,
        }
    }
}

/// The plain values of one HTTP response that the metadata derivation reads:
/// the status code, the resolved URL and its last path segment, and the raw
/// header values, each absent when the header is missing or not text.
pub struct ResponseParts {
    pub status: u16,
    pub final_url: String,
    pub last_path_segment: Option<String>,
    pub content_range: Option<String>,
    pub content_length: Option<String>,
    pub accept_ranges: Option<String>,
    pub content_disposition: Option<String>,
    pub etag: Option<String>,
    pub last_modified: Option<String>,
}

/// Resolved metadata of a remote resource: its size (0 when unknown),
/// destination file name, whether byte ranges are supported, and whether the
/// multi-connection fast path may be used.
#[derive(Clone, Debug)]
pub struct UrlInfo {
    pub file_size: u64,
    pub file_name: String,
    pub supports_range: bool,
    pub can_fast_download: bool,
    pub final_url: String,
    pub etag: Option<String>,
    pub last_modified: Option<String>,
}

/// The metadata a `UrlInfo` must carry for the given response parts, once
/// range support is settled.
pub open spec fn url_info_consistent(info: UrlInfo, parts: ResponseParts, supports_range: bool) -> bool {
    &&& info.file_size == file_size_rep(
        parts.status as int,
        parts.content_range.deep_view(),
        parts.content_length.deep_view(),
    )
    &&& info.file_name@ == sanitized(
        filename_choice(
            parts.content_disposition.deep_view(),
            parts.last_path_segment.deep_view(),
            parts.final_url@,
        ),
        true,
        true,
        seq!['_'],
    )
    &&& info.supports_range == supports_range
    &&& info.can_fast_download == (info.file_size > 0 && supports_range)
    &&& info.final_url@ == parts.final_url@
    &&& info.etag.deep_view() == parts.etag.deep_view()
    &&& info.last_modified.deep_view() == parts.last_modified.deep_view()
}

/// Derives the metadata from a lightweight probe response.  Range support is
/// read from Accept-Ranges; when that header is missing the probe is
/// inconclusive and `None` says the caller must fall back to a ranged body
/// request.
pub fn url_info_from_probe(parts: ResponseParts) -> (r: Option<UrlInfo>)
    ensures
        r is None <==> parts.accept_ranges is None,
        r matches Some(info) ==> parts.accept_ranges matches Some(ar) && url_info_consistent(
            info,
            parts,
            has_bytes_token(ar@),
        ),
{
    let supports_range = match &parts.accept_ranges {
        Some(ar) => accepts_byte_ranges(ar.as_str()),
        None => {
            return None;
        },
    };
    let file_size = get_file_size(
        parts.status,
        parts.content_range.as_ref(),
        parts.content_length.as_ref(),
    );
    let file_name = get_filename(
        parts.content_disposition.as_ref(),
        parts.last_path_segment.as_ref(),
        &parts.final_url,
    );
    Some(UrlInfo {
        file_size,
        file_name,
        supports_range,
        can_fast_download: file_size > 0 && supports_range,
        final_url: parts.final_url.clone(),
        etag: clone_opt(&parts.etag),
        last_modified: clone_opt(&parts.last_modified),
    })
}

/// Derives the metadata from a ranged body request (`Range: bytes=0-`).
/// Range support here means the server answered 206 Partial Content.
pub fn url_info_from_ranged(parts: ResponseParts) -> (r: UrlInfo)
    ensures
        url_info_consistent(r, parts, parts.status == 206),
{
    let supports_range = parts.status == 206;
    let file_size = get_file_size(
        parts.status,
        parts.content_range.as_ref(),
        parts.content_length.as_ref(),
    );
    let file_name = get_filename(
        parts.content_disposition.as_ref(),
        parts.last_path_segment.as_ref(),
        &parts.final_url,
    );
    UrlInfo {
        file_size,
        file_name,
        supports_range,
        can_fast_download: file_size > 0 && supports_range,
        final_url: parts.final_url.clone(),
        etag: clone_opt(&parts.etag),
        last_modified: clone_opt(&parts.last_modified),
    }
}

/// Clones an optional text value.
fn clone_opt(s: &Option<String>) -> (r: Option<String>)
    ensures
        r.deep_view() == s.deep_view(),
{
    match s {
        Some(v) => Some(v.clone()),
        None => None,
    }
}

} // verus!
