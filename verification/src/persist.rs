//! Crash-safe resume state: the record that is persisted for one
//! destination path, its byte encoding, and its validation against the
//! current remote metadata.
//!
//! The storage medium itself is an external collaborator; this module fixes
//! the record's layout so that a reloaded record is exactly the one written,
//! and a missing or garbled record reads as absent.

use vstd::prelude::*;
use vstd::bytes::{
    lemma_auto_spec_u32_to_from_le_bytes, lemma_auto_spec_u64_to_from_le_bytes,
    spec_u32_from_le_bytes, spec_u32_to_le_bytes, spec_u64_from_le_bytes, spec_u64_to_le_bytes,
    u32_from_le_bytes, u32_to_le_bytes, u64_from_le_bytes, u64_to_le_bytes,
};
use crate::progress::{Progress, ProgressEntry, ranges_wf};

verus! {

// ---------------------------------------------------------------------------
// Primitives: fixed-width integers and characters on a byte stream.
// ---------------------------------------------------------------------------

/// A code point that is a valid Unicode scalar value.
pub open spec fn is_scalar_u32(v: u32) -> bool {
    v < 0xD800 || (0xE000 <= v && v <= 0x10FFFF)
}

/// Characters with the same code point are the same character.
proof fn lemma_char_cast_injective(a: char, b: char)
    requires
        a as u32 == b as u32,
    ensures
        a == b,
{
}

/// Relies on `char::from_u32`: `Some` exactly on valid Unicode scalar
/// values, and the returned character is the one with that value.
#[verifier::external_body]
fn char_from_u32(v: u32) -> (r: Option<char>)
    ensures
        r is Some <==> is_scalar_u32(v),
        r matches Some(c) ==> c as u32 == v,
        forall|c: char| c as u32 == v ==> r == Some(c),
{
    char::from_u32(v)
}

/// Relies on `String::push`: appends one character.
#[verifier::external_body]
fn push_char(s: &mut String, c: char)
    ensures
        final(s)@ == old(s)@.push(c),
{
    s.push(c);
}

fn encode_u64(out: &mut Vec<u8>, v: u64)
    ensures
        final(out)@ == old(out)@ + spec_u64_to_le_bytes(v),
{
    let mut bs = u64_to_le_bytes(v);
    out.append(&mut bs);
}

fn encode_u32(out: &mut Vec<u8>, v: u32)
    ensures
        final(out)@ == old(out)@ + spec_u32_to_le_bytes(v),
{
    let mut bs = u32_to_le_bytes(v);
    out.append(&mut bs);
}

fn decode_u64(data: &[u8], pos: &mut usize) -> (r: Option<u64>)
    requires
        *old(pos) <= data@.len(),
    ensures
        r is Some <==> *old(pos) + 8 <= data@.len(),
        r matches Some(v) ==> *final(pos) == *old(pos) + 8 && v == spec_u64_from_le_bytes(
            data@.subrange(*old(pos) as int, *old(pos) + 8),
        ),
        r is None ==> *final(pos) == *old(pos),
{
    if data.len() - *pos < 8 {
        return None;
    }
    let p = *pos;
    let v = u64_from_le_bytes(&data[p..p + 8]);
    *pos = p + 8;
    Some(v)
}

fn decode_u32(data: &[u8], pos: &mut usize) -> (r: Option<u32>)
    requires
        *old(pos) <= data@.len(),
    ensures
        r is Some <==> *old(pos) + 4 <= data@.len(),
        r matches Some(v) ==> *final(pos) == *old(pos) + 4 && v == spec_u32_from_le_bytes(
            data@.subrange(*old(pos) as int, *old(pos) + 4),
        ),
        r is None ==> *final(pos) == *old(pos),
{
    if data.len() - *pos < 4 {
        return None;
    }
    let p = *pos;
    let v = u32_from_le_bytes(&data[p..p + 4]);
    *pos = p + 4;
    Some(v)
}


// ---------------------------------------------------------------------------
// Strings: a length, then each character as a 32-bit code point.
// ---------------------------------------------------------------------------

/// The bytes of a character sequence: each code point in four bytes.
pub open spec fn chars_enc(s: Seq<char>) -> Seq<u8>
    decreases s.len(),
{
    if s.len() == 0 {
        Seq::empty()
    } else {
        spec_u32_to_le_bytes(s[0] as u32) + chars_enc(s.drop_first())
    }
}

/// The bytes of a string: its length, then its characters.
pub open spec fn string_enc(s: Seq<char>) -> Seq<u8> {
    spec_u64_to_le_bytes(s.len() as u64) + chars_enc(s)
}

/// The bytes of an optional string: a presence tag, then the string.
pub open spec fn opt_string_enc(o: Option<Seq<char>>) -> Seq<u8> {
    match o {
        None => seq![0u8],
        Some(s) => seq![1u8] + string_enc(s),
    }
}

proof fn lemma_chars_enc_len(s: Seq<char>)
    ensures
        chars_enc(s).len() == 4 * s.len(),
    decreases s.len(),
{
    lemma_auto_spec_u32_to_from_le_bytes();
    if s.len() > 0 {
        lemma_chars_enc_len(s.drop_first());
    }
}

proof fn lemma_chars_enc_snoc(s: Seq<char>, c: char)
    ensures
        chars_enc(s.push(c)) == chars_enc(s) + spec_u32_to_le_bytes(c as u32),
    decreases s.len(),
{
    lemma_auto_spec_u32_to_from_le_bytes();
    let l = s.push(c);
    if s.len() == 0 {
        assert(l.len() == 1);
        assert(l[0] == c);
        assert(l.drop_first() =~= Seq::<char>::empty());
        assert(chars_enc(l) == spec_u32_to_le_bytes(l[0] as u32) + chars_enc(l.drop_first()));
        assert(chars_enc(l.drop_first()) =~= Seq::<u8>::empty());
        assert(chars_enc(s) =~= Seq::<u8>::empty());
        assert(chars_enc(l) =~= chars_enc(s) + spec_u32_to_le_bytes(c as u32));
    } else {
        assert(l.drop_first() =~= s.drop_first().push(c));
        lemma_chars_enc_snoc(s.drop_first(), c);
        assert(l[0] == s[0]);
        assert(chars_enc(l) == spec_u32_to_le_bytes(s[0] as u32) + chars_enc(l.drop_first()));
        assert(chars_enc(l.drop_first()) == chars_enc(s.drop_first()) + spec_u32_to_le_bytes(
            c as u32,
        ));
        assert(chars_enc(l) =~= chars_enc(s) + spec_u32_to_le_bytes(c as u32));
    }
}

/// The four bytes of the `k`-th character stand at offset `4k`.
proof fn lemma_chars_enc_index(s: Seq<char>, k: int)
    requires
        0 <= k < s.len(),
    ensures
        chars_enc(s).len() == 4 * s.len(),
        chars_enc(s).subrange(4 * k, 4 * k + 4) == spec_u32_to_le_bytes(s[k] as u32),
    decreases k,
{
    lemma_auto_spec_u32_to_from_le_bytes();
    lemma_chars_enc_len(s);
    lemma_chars_enc_len(s.drop_first());
    if k == 0 {
        assert(chars_enc(s).subrange(0, 4) =~= spec_u32_to_le_bytes(s[0] as u32)) by {
            assert(spec_u32_to_le_bytes(s[0] as u32).len() == 4);
        }
    } else {
        lemma_chars_enc_index(s.drop_first(), k - 1);
        assert(s.drop_first()[k - 1] == s[k]);
        assert(chars_enc(s).subrange(4 * k, 4 * k + 4) =~= chars_enc(s.drop_first()).subrange(
            4 * (k - 1),
            4 * (k - 1) + 4,
        )) by {
            assert(spec_u32_to_le_bytes(s[0] as u32).len() == 4);
        }
    }
}

/// Whether a string parses at offset `p`: its length fits, and every code
/// point is a valid scalar.
pub open spec fn string_parses_at(data: Seq<u8>, p: int) -> bool {
    &&& 0 <= p
    &&& p + 8 <= data.len()
    &&& p + 8 + 4 * string_len_at(data, p) <= data.len()
    &&& forall|k: int|
        0 <= k < string_len_at(data, p) ==> is_scalar_u32(
            spec_u32_from_le_bytes(#[trigger] data.subrange(p + 8 + 4 * k, p + 8 + 4 * k + 4)),
        )
}

/// The length field of a string at offset `p`.
pub open spec fn string_len_at(data: Seq<u8>, p: int) -> int {
    spec_u64_from_le_bytes(data.subrange(p, p + 8)) as int
}

/// The string `s` is what offset `p` holds.
pub open spec fn string_value_at(data: Seq<u8>, p: int, s: Seq<char>) -> bool {
    &&& s.len() == string_len_at(data, p)
    &&& forall|k: int|
        0 <= k < s.len() ==> (#[trigger] s[k]) as u32 == spec_u32_from_le_bytes(
            data.subrange(p + 8 + 4 * k, p + 8 + 4 * k + 4),
        )
}

/// A string's own encoding parses and yields that string.
proof fn lemma_string_enc_parses(data: Seq<u8>, p: int, s: Seq<char>)
    requires
        0 <= p,
        s.len() <= u64::MAX,
        p + 8 + 4 * s.len() <= data.len(),
        data.subrange(p, p + 8 + 4 * s.len()) == string_enc(s),
    ensures
        string_parses_at(data, p),
        string_value_at(data, p, s),
        string_len_at(data, p) == s.len(),
{
    lemma_auto_spec_u64_to_from_le_bytes();
    lemma_auto_spec_u32_to_from_le_bytes();
    lemma_chars_enc_len(s);
    let seg = data.subrange(p, p + 8 + 4 * s.len());
    assert(spec_u64_to_le_bytes(s.len() as u64).len() == 8);
    assert(data.subrange(p, p + 8) =~= spec_u64_to_le_bytes(s.len() as u64));
    assert(string_len_at(data, p) == s.len());
    let ce = data.subrange(p + 8, p + 8 + 4 * s.len());
    assert forall|j: int| 0 <= j < 4 * s.len() implies ce[j] == chars_enc(s)[j] by {
        assert(ce[j] == data[p + 8 + j]);
        assert(seg[8 + j] == data[p + 8 + j]);
        assert(seg[8 + j] == chars_enc(s)[j]);
    }
    assert(ce =~= chars_enc(s));
    assert forall|k: int| 0 <= k < s.len() implies (#[trigger] s[k]) as u32
        == spec_u32_from_le_bytes(data.subrange(p + 8 + 4 * k, p + 8 + 4 * k + 4)) by {
        lemma_chars_enc_index(s, k);
        assert(data.subrange(p + 8 + 4 * k, p + 8 + 4 * k + 4) =~= chars_enc(s).subrange(
            4 * k,
            4 * k + 4,
        ));
    }
    assert forall|k: int| 0 <= k < string_len_at(data, p) implies is_scalar_u32(
        spec_u32_from_le_bytes(#[trigger] data.subrange(p + 8 + 4 * k, p + 8 + 4 * k + 4)),
    ) by {
        assert(s[k] as u32 == spec_u32_from_le_bytes(
            data.subrange(p + 8 + 4 * k, p + 8 + 4 * k + 4),
        ));
        lemma_char_scalar(s[k]);
    }
}

/// Every character holds a valid Unicode scalar value.
proof fn lemma_char_scalar(c: char)
    ensures
        is_scalar_u32(c as u32),
{
    assert((c as u32) < 0xD800 || (0xE000 <= (c as u32) && (c as u32) <= 0x10FFFF));
}

fn encode_string(out: &mut Vec<u8>, s: &str)
    ensures
        final(out)@ == old(out)@ + string_enc(s@),
{
    proof {
        lemma_auto_spec_u64_to_from_le_bytes();
        lemma_auto_spec_u32_to_from_le_bytes();
    }
    let n = s.unicode_len();
    encode_u64(out, n as u64);
    let mut i: usize = 0;
    while i < n
        invariant
            n == s@.len(),
            0 <= i <= n,
            out@ == old(out)@ + spec_u64_to_le_bytes(n as u64) + chars_enc(s@.take(i as int)),
        decreases n - i,
    {
        let c = s.get_char(i);
        encode_u32(out, c as u32);
        proof {
            assert(s@.take(i + 1 as int).drop_last() =~= s@.take(i as int));
            assert(s@.take(i as int).push(c) =~= s@.take(i + 1 as int));
            lemma_chars_enc_snoc(s@.take(i as int), c);
        }
        i = i + 1;
    }
    proof {
        assert(s@.take(n as int) =~= s@);
    }
}

fn decode_string(data: &[u8], pos: &mut usize) -> (r: Option<String>)
    requires
        *old(pos) <= data@.len(),
    ensures
        r is Some <==> string_parses_at(data@, *old(pos) as int),
        r matches Some(s) ==> *final(pos) == *old(pos) + 8 + 4 * s@.len() && string_value_at(
            data@,
            *old(pos) as int,
            s@,
        ),
{
    let ghost p = *old(pos) as int;
    let l64 = match decode_u64(data, pos) {
        Some(v) => v,
        None => {
            return None;
        },
    };
    let rem = data.len() - *pos;
    if l64 > (rem / 4) as u64 {
        proof {
            assert(!string_parses_at(data@, p));
        }
        return None;
    }
    let l = l64 as usize;
    let mut s = String::new();
    let mut i: usize = 0;
    while i < l
        invariant
            p == *old(pos) as int,
            0 <= i <= l,
            l == string_len_at(data@, p),
            p + 8 + 4 * l <= data@.len(),
            *pos == p + 8 + 4 * i,
            s@.len() == i,
            forall|k: int|
                0 <= k < i ==> (#[trigger] s@[k]) as u32 == spec_u32_from_le_bytes(
                    data@.subrange(p + 8 + 4 * k, p + 8 + 4 * k + 4),
                ),
            forall|k: int|
                0 <= k < i ==> is_scalar_u32(
                    spec_u32_from_le_bytes(#[trigger] data@.subrange(p + 8 + 4 * k, p + 8 + 4 * k + 4)),
                ),
        decreases l - i,
    {
        let v = match decode_u32(data, pos) {
            Some(v) => v,
            None => {
                proof {
                    assert(false);
                }
                return None;
            },
        };
        let c = match char_from_u32(v) {
            Some(c) => c,
            None => {
                proof {
                    assert(!is_scalar_u32(spec_u32_from_le_bytes(
                        data@.subrange(p + 8 + 4 * i, p + 8 + 4 * i + 4),
                    )));
                    if string_parses_at(data@, p) {
                        assert(is_scalar_u32(spec_u32_from_le_bytes(
                            #[trigger] data@.subrange(p + 8 + 4 * i, p + 8 + 4 * i + 4),
                        )));
                        assert(false);
                    }
                }
                return None;
            },
        };
        push_char(&mut s, c);
        i = i + 1;
    }
    proof {
        assert(string_parses_at(data@, p));
        assert(string_value_at(data@, p, s@));
    }
    Some(s)
}


// ---------------------------------------------------------------------------
// Optional strings: a presence tag, then the string.
// ---------------------------------------------------------------------------

/// Whether an optional string parses at offset `p`.
pub open spec fn opt_parses_at(data: Seq<u8>, p: int) -> bool {
    &&& 0 <= p
    &&& p + 1 <= data.len()
    &&& (data[p] == 0 || (data[p] == 1 && string_parses_at(data, p + 1)))
}

/// How many bytes the optional string at offset `p` spans.
pub open spec fn opt_size_at(data: Seq<u8>, p: int) -> int {
    if data[p] == 0 {
        1
    } else {
        1 + 8 + 4 * string_len_at(data, p + 1)
    }
}

/// The optional string `o` is what offset `p` holds.
pub open spec fn opt_value_at(data: Seq<u8>, p: int, o: Option<Seq<char>>) -> bool {
    match o {
        None => data[p] == 0,
        Some(s) => data[p] == 1 && string_value_at(data, p + 1, s),
    }
}

fn encode_opt_string(out: &mut Vec<u8>, o: &Option<String>)
    ensures
        final(out)@ == old(out)@ + opt_string_enc(o.deep_view()),
{
    match o {
        None => {
            out.push(0u8);
            proof {
                assert(out@ =~= old(out)@ + opt_string_enc(o.deep_view()));
            }
        },
        Some(v) => {
            out.push(1u8);
            let ghost mid = out@;
            encode_string(out, v.as_str());
            proof {
                assert(mid =~= old(out)@ + seq![1u8]);
                assert(out@ =~= old(out)@ + opt_string_enc(o.deep_view()));
            }
        },
    }
}

fn decode_opt_string(data: &[u8], pos: &mut usize) -> (r: Option<Option<String>>)
    requires
        *old(pos) <= data@.len(),
    ensures
        r is Some <==> opt_parses_at(data@, *old(pos) as int),
        r matches Some(o) ==> *final(pos) == *old(pos) + opt_size_at(data@, *old(pos) as int)
            && opt_value_at(data@, *old(pos) as int, o.deep_view()) && *final(pos) <= data@.len(),
{
    let ghost p = *old(pos) as int;
    if *pos >= data.len() {
        return None;
    }
    let tag = data[*pos];
    if tag == 0 {
        *pos = *pos + 1;
        return Some(None);
    }
    if tag != 1 {
        return None;
    }
    *pos = *pos + 1;
    match decode_string(data, pos) {
        Some(s) => {
            proof {
                lemma_chars_enc_len(s@);
            }
            Some(Some(s))
        },
        None => None,
    }
}

/// An optional string's own encoding parses and yields that value.
proof fn lemma_opt_string_enc_parses(data: Seq<u8>, p: int, o: Option<Seq<char>>)
    requires
        0 <= p,
        (o matches Some(s) ==> s.len() <= u64::MAX),
        p + opt_string_enc(o).len() <= data.len(),
        data.subrange(p, p + opt_string_enc(o).len()) == opt_string_enc(o),
    ensures
        opt_parses_at(data, p),
        opt_value_at(data, p, o),
        opt_size_at(data, p) == opt_string_enc(o).len(),
{
    lemma_auto_spec_u64_to_from_le_bytes();
    match o {
        None => {
            assert(data[p] == opt_string_enc(o)[0]);
        },
        Some(s) => {
            lemma_chars_enc_len(s);
            let e = opt_string_enc(o);
            assert(e.len() == 1 + 8 + 4 * s.len());
            assert(data[p] == e[0]);
            assert(data[p] == 1);
            let seg = data.subrange(p, p + e.len());
            assert forall|j: int|
                0 <= j < string_enc(s).len() implies data.subrange(
                p + 1,
                p + 1 + 8 + 4 * s.len(),
            )[j] == string_enc(s)[j] by {
                assert(data.subrange(p + 1, p + 1 + 8 + 4 * s.len())[j] == data[p + 1 + j]);
                assert(seg[1 + j] == data[p + 1 + j]);
                assert(seg[1 + j] == string_enc(s)[j]);
            }
            assert(data.subrange(p + 1, p + 1 + 8 + 4 * s.len()) =~= string_enc(s));
            lemma_string_enc_parses(data, p + 1, s);
        },
    }
}

// ---------------------------------------------------------------------------
// Ranges: each as two 64-bit offsets.
// ---------------------------------------------------------------------------

/// The bytes of the completed ranges: start and end of each, in order.
pub open spec fn ranges_enc(rs: Seq<Progress>) -> Seq<u8>
    decreases rs.len(),
{
    if rs.len() == 0 {
        Seq::empty()
    } else {
        spec_u64_to_le_bytes(rs[0].start) + spec_u64_to_le_bytes(rs[0].end) + ranges_enc(
            rs.drop_first(),
        )
    }
}

proof fn lemma_ranges_enc_len(rs: Seq<Progress>)
    ensures
        ranges_enc(rs).len() == 16 * rs.len(),
    decreases rs.len(),
{
    lemma_auto_spec_u64_to_from_le_bytes();
    if rs.len() > 0 {
        lemma_ranges_enc_len(rs.drop_first());
    }
}

proof fn lemma_ranges_enc_snoc(rs: Seq<Progress>, g: Progress)
    ensures
        ranges_enc(rs.push(g)) == ranges_enc(rs) + spec_u64_to_le_bytes(g.start)
            + spec_u64_to_le_bytes(g.end),
    decreases rs.len(),
{
    lemma_auto_spec_u64_to_from_le_bytes();
    let l = rs.push(g);
    if rs.len() == 0 {
        assert(l[0] == g);
        assert(l.drop_first() =~= Seq::<Progress>::empty());
        assert(ranges_enc(l) == spec_u64_to_le_bytes(l[0].start) + spec_u64_to_le_bytes(l[0].end)
            + ranges_enc(l.drop_first()));
        assert(ranges_enc(l.drop_first()) =~= Seq::<u8>::empty());
        assert(ranges_enc(rs) =~= Seq::<u8>::empty());
        assert(ranges_enc(l) =~= ranges_enc(rs) + spec_u64_to_le_bytes(g.start)
            + spec_u64_to_le_bytes(g.end));
    } else {
        assert(l.drop_first() =~= rs.drop_first().push(g));
        lemma_ranges_enc_snoc(rs.drop_first(), g);
        assert(l[0] == rs[0]);
        assert(ranges_enc(l) == spec_u64_to_le_bytes(l[0].start) + spec_u64_to_le_bytes(l[0].end)
            + ranges_enc(l.drop_first()));
        assert(ranges_enc(l.drop_first()) == ranges_enc(rs.drop_first()) + spec_u64_to_le_bytes(
            g.start,
        ) + spec_u64_to_le_bytes(g.end));
        assert(ranges_enc(rs) == spec_u64_to_le_bytes(rs[0].start) + spec_u64_to_le_bytes(
            rs[0].end,
        ) + ranges_enc(rs.drop_first()));
        assert(ranges_enc(l) =~= ranges_enc(rs) + spec_u64_to_le_bytes(g.start)
            + spec_u64_to_le_bytes(g.end));
    }
}

/// The `k`-th range's offsets stand at offset `16k`.
proof fn lemma_ranges_enc_index(rs: Seq<Progress>, k: int)
    requires
        0 <= k < rs.len(),
    ensures
        ranges_enc(rs).len() == 16 * rs.len(),
        ranges_enc(rs).subrange(16 * k, 16 * k + 8) == spec_u64_to_le_bytes(rs[k].start),
        ranges_enc(rs).subrange(16 * k + 8, 16 * k + 16) == spec_u64_to_le_bytes(rs[k].end),
    decreases k,
{
    lemma_auto_spec_u64_to_from_le_bytes();
    lemma_ranges_enc_len(rs);
    lemma_ranges_enc_len(rs.drop_first());
    if k == 0 {
        assert(ranges_enc(rs).subrange(0, 8) =~= spec_u64_to_le_bytes(rs[0].start));
        assert(ranges_enc(rs).subrange(8, 16) =~= spec_u64_to_le_bytes(rs[0].end));
    } else {
        lemma_ranges_enc_index(rs.drop_first(), k - 1);
        assert(rs.drop_first()[k - 1] == rs[k]);
        assert(ranges_enc(rs).subrange(16 * k, 16 * k + 8) =~= ranges_enc(
            rs.drop_first(),
        ).subrange(16 * (k - 1), 16 * (k - 1) + 8));
        assert(ranges_enc(rs).subrange(16 * k + 8, 16 * k + 16) =~= ranges_enc(
            rs.drop_first(),
        ).subrange(16 * (k - 1) + 8, 16 * (k - 1) + 16));
    }
}

// ---------------------------------------------------------------------------
// The resume record.
// ---------------------------------------------------------------------------

/// What is persisted for one destination path: the completed ranges, the
/// cache-validation tokens of the remote resource, and the time already
/// spent transferring.
#[derive(Clone, Debug)]
pub struct ResumeRecord {
    pub progress: ProgressEntry,
    pub etag: Option<String>,
    pub last_modified: Option<String>,
    pub elapsed_ms: u64,
}

impl ResumeRecord {
    pub open spec fn wf(&self) -> bool {
        ranges_wf(self.progress@)
    }
}

/// The byte layout of a record: elapsed time, the two tokens, then the
/// count and the ranges.
pub open spec fn record_enc(rec: ResumeRecord) -> Seq<u8> {
    spec_u64_to_le_bytes(rec.elapsed_ms) + opt_string_enc(rec.etag.deep_view()) + opt_string_enc(
        rec.last_modified.deep_view(),
    ) + spec_u64_to_le_bytes(rec.progress@.len() as u64) + ranges_enc(rec.progress@)
}

/// Offset of the Last-Modified token field.
pub open spec fn rec_lm_offset(data: Seq<u8>) -> int {
    8 + opt_size_at(data, 8)
}

/// Offset of the range-count field.
pub open spec fn rec_count_offset(data: Seq<u8>) -> int {
    rec_lm_offset(data) + opt_size_at(data, rec_lm_offset(data))
}

/// The range count a record's bytes carry.
pub open spec fn rec_count(data: Seq<u8>) -> int {
    spec_u64_from_le_bytes(data.subrange(rec_count_offset(data), rec_count_offset(data) + 8)) as int
}

/// The ranges a record's bytes carry.
pub open spec fn decoded_ranges(data: Seq<u8>) -> Seq<Progress> {
    Seq::new(
        rec_count(data) as nat,
        |k: int|
            Progress {
                start: spec_u64_from_le_bytes(
                    data.subrange(rec_count_offset(data) + 8 + 16 * k, rec_count_offset(data) + 8 + 16 * k + 8),
                ),
                end: spec_u64_from_le_bytes(
                    data.subrange(rec_count_offset(data) + 8 + 16 * k + 8, rec_count_offset(data) + 8 + 16 * k + 16),
                ),
            },
    )
}

/// Whether bytes are a whole, well-formed record: both tokens parse, the
/// ranges fill the remainder exactly, and they are a well-formed entry.
pub open spec fn record_parses(data: Seq<u8>) -> bool {
    &&& data.len() >= 8
    &&& opt_parses_at(data, 8)
    &&& opt_parses_at(data, rec_lm_offset(data))
    &&& rec_count_offset(data) + 8 <= data.len()
    &&& data.len() == rec_count_offset(data) + 8 + 16 * rec_count(data)
    &&& ranges_wf(decoded_ranges(data))
}

/// The record `rec` is what the bytes hold.
pub open spec fn record_value(data: Seq<u8>, rec: ResumeRecord) -> bool {
    &&& rec.elapsed_ms == spec_u64_from_le_bytes(data.subrange(0, 8))
    &&& opt_value_at(data, 8, rec.etag.deep_view())
    &&& opt_value_at(data, rec_lm_offset(data), rec.last_modified.deep_view())
    &&& rec.progress@ == decoded_ranges(data)
}

/// Serializes a record for the store.
pub fn encode_record(rec: &ResumeRecord) -> (out: Vec<u8>)
    ensures
        out@ == record_enc(*rec),
{
    let mut out: Vec<u8> = Vec::new();
    encode_u64(&mut out, rec.elapsed_ms);
    encode_opt_string(&mut out, &rec.etag);
    encode_opt_string(&mut out, &rec.last_modified);
    let ranges = rec.progress.to_ranges();
    let n = ranges.len();
    encode_u64(&mut out, n as u64);
    let ghost head = out@;
    let mut i: usize = 0;
    while i < n
        invariant
            n == ranges@.len(),
            ranges@ == rec.progress@,
            0 <= i <= n,
            out@ == head + ranges_enc(ranges@.take(i as int)),
        decreases n - i,
    {
        let g = ranges[i];
        encode_u64(&mut out, g.start);
        encode_u64(&mut out, g.end);
        proof {
            assert(ranges@.take(i as int).push(g) =~= ranges@.take(i + 1 as int));
            lemma_ranges_enc_snoc(ranges@.take(i as int), g);
        }
        i = i + 1;
    }
    proof {
        assert(ranges@.take(n as int) =~= ranges@);
        assert(out@ =~= record_enc(*rec));
    }
    out
}

/// Reads a record back from the store's bytes; garbled bytes read as absent.
pub fn decode_record(data: &[u8]) -> (r: Option<ResumeRecord>)
    ensures
        r is Some <==> record_parses(data@),
        r matches Some(rec) ==> rec.wf() && record_value(data@, rec),
{
    let mut pos: usize = 0;
    let elapsed_ms = match decode_u64(data, &mut pos) {
        Some(v) => v,
        None => {
            return None;
        },
    };
    let etag = match decode_opt_string(data, &mut pos) {
        Some(o) => o,
        None => {
            return None;
        },
    };
    proof {
        assert(pos == rec_lm_offset(data@));
    }
    let last_modified = match decode_opt_string(data, &mut pos) {
        Some(o) => o,
        None => {
            return None;
        },
    };
    proof {
        assert(pos == rec_count_offset(data@));
    }
    let ghost p3 = pos as int;
    let count64 = match decode_u64(data, &mut pos) {
        Some(v) => v,
        None => {
            return None;
        },
    };
    let rem = data.len() - pos;
    if count64 > (rem / 16) as u64 {
        proof {
            assert(!record_parses(data@));
        }
        return None;
    }
    let count = count64 as usize;
    if count * 16 != rem {
        proof {
            assert(!record_parses(data@));
        }
        return None;
    }
    let mut ranges: Vec<Progress> = Vec::new();
    let mut i: usize = 0;
    while i < count
        invariant
            0 <= i <= count,
            p3 == rec_count_offset(data@),
            count == rec_count(data@),
            pos == p3 + 8 + 16 * i,
            p3 + 8 + 16 * count == data@.len(),
            ranges@.len() == i,
            forall|k: int| 0 <= k < i ==> ranges@[k] == decoded_ranges(data@)[k],
        decreases count - i,
    {
        let start = match decode_u64(data, &mut pos) {
            Some(v) => v,
            None => {
                proof {
                    assert(false);
                }
                return None;
            },
        };
        let end = match decode_u64(data, &mut pos) {
            Some(v) => v,
            None => {
                proof {
                    assert(false);
                }
                return None;
            },
        };
        ranges.push(Progress { start, end });
        i = i + 1;
    }
    proof {
        assert(ranges@ =~= decoded_ranges(data@));
    }
    let progress = match ProgressEntry::from_ranges(ranges) {
        Some(e) => e,
        None => {
            proof {
                assert(!record_parses(data@));
            }
            return None;
        },
    };
    Some(ResumeRecord { progress, etag, last_modified, elapsed_ms })
}



/// A subrange of an embedded segment is the segment's own subrange.
proof fn lemma_subrange_within(data: Seq<u8>, q: int, seg: Seq<u8>, lo: int, hi: int)
    requires
        0 <= q,
        q + seg.len() <= data.len(),
        data.subrange(q, q + seg.len()) == seg,
        0 <= lo <= hi <= seg.len(),
    ensures
        data.subrange(q + lo, q + hi) == seg.subrange(lo, hi),
{
    assert forall|j: int| 0 <= j < hi - lo implies data.subrange(q + lo, q + hi)[j]
        == seg.subrange(lo, hi)[j] by {
        assert(data.subrange(q, q + seg.len())[lo + j] == seg[lo + j]);
    }
    assert(data.subrange(q + lo, q + hi) =~= seg.subrange(lo, hi));
}

/// A segment between a prefix and a suffix stands at the prefix's length.
proof fn lemma_segment_at(data: Seq<u8>, pre: Seq<u8>, seg: Seq<u8>, suf: Seq<u8>)
    requires
        data == pre + seg + suf,
    ensures
        data.subrange(pre.len() as int, pre.len() + seg.len() as int) == seg,
{
    assert forall|j: int| 0 <= j < seg.len() implies data.subrange(
        pre.len() as int,
        pre.len() + seg.len() as int,
    )[j] == seg[j] by {
        assert(data[pre.len() + j] == (pre + seg + suf)[pre.len() + j]);
    }
    assert(data.subrange(pre.len() as int, pre.len() + seg.len() as int) =~= seg);
}

proof fn lemma_opt_string_enc_len(o: Option<Seq<char>>)
    ensures
        opt_string_enc(o).len() == match o {
            None => 1int,
            Some(s) => 9 + 4 * s.len() as int,
        },
{
    lemma_auto_spec_u64_to_from_le_bytes();
    match o {
        None => {},
        Some(s) => {
            lemma_chars_enc_len(s);
        },
    }
}

/// A record's own encoding parses, and yields exactly that record's fields.
pub proof fn lemma_record_enc_parses(rec: ResumeRecord)
    requires
        rec.wf(),
        rec.progress@.len() <= u64::MAX,
        rec.etag matches Some(s) ==> s@.len() <= u64::MAX,
        rec.last_modified matches Some(s) ==> s@.len() <= u64::MAX,
    ensures
        record_parses(record_enc(rec)),
        record_value(record_enc(rec), rec),
{
    lemma_auto_spec_u64_to_from_le_bytes();
    let data = record_enc(rec);
    let a = spec_u64_to_le_bytes(rec.elapsed_ms);
    let b = opt_string_enc(rec.etag.deep_view());
    let c = opt_string_enc(rec.last_modified.deep_view());
    let d = spec_u64_to_le_bytes(rec.progress@.len() as u64);
    let e = ranges_enc(rec.progress@);
    lemma_opt_string_enc_len(rec.etag.deep_view());
    lemma_opt_string_enc_len(rec.last_modified.deep_view());
    lemma_ranges_enc_len(rec.progress@);
    // the elapsed time
    assert(data =~= Seq::<u8>::empty() + a + (b + c + d + e));
    lemma_segment_at(data, Seq::<u8>::empty(), a, b + c + d + e);
    assert(data.subrange(0, 8) == a);
    // the first token
    assert(data =~= a + b + (c + d + e));
    lemma_segment_at(data, a, b, c + d + e);
    lemma_opt_string_enc_parses(data, 8, rec.etag.deep_view());
    assert(rec_lm_offset(data) == 8 + b.len());
    // the second token
    assert(data =~= (a + b) + c + (d + e));
    lemma_segment_at(data, a + b, c, d + e);
    lemma_opt_string_enc_parses(data, rec_lm_offset(data), rec.last_modified.deep_view());
    assert(rec_count_offset(data) == 8 + b.len() + c.len());
    // the range count
    assert(data =~= (a + b + c) + d + e);
    lemma_segment_at(data, a + b + c, d, e);
    assert(rec_count(data) == rec.progress@.len());
    // the ranges
    assert(data =~= (a + b + c + d) + e + Seq::<u8>::empty());
    lemma_segment_at(data, a + b + c + d, e, Seq::<u8>::empty());
    let p4 = rec_count_offset(data) + 8;
    assert(data.subrange(p4, p4 + e.len()) == e);
    assert forall|k: int| 0 <= k < rec.progress@.len() implies decoded_ranges(data)[k]
        == rec.progress@[k] by {
        lemma_ranges_enc_index(rec.progress@, k);
        lemma_subrange_within(data, p4, e, 16 * k, 16 * k + 8);
        lemma_subrange_within(data, p4, e, 16 * k + 8, 16 * k + 16);
    }
    assert(decoded_ranges(data) =~= rec.progress@);
}

/// Two records the same bytes hold are the same record.
pub proof fn lemma_record_value_unique(data: Seq<u8>, x: ResumeRecord, y: ResumeRecord)
    requires
        record_value(data, x),
        record_value(data, y),
    ensures
        x.elapsed_ms == y.elapsed_ms,
        x.etag.deep_view() == y.etag.deep_view(),
        x.last_modified.deep_view() == y.last_modified.deep_view(),
        x.progress@ == y.progress@,
{
    lemma_opt_value_unique(data, 8, x.etag.deep_view(), y.etag.deep_view());
    lemma_opt_value_unique(
        data,
        rec_lm_offset(data),
        x.last_modified.deep_view(),
        y.last_modified.deep_view(),
    );
}

proof fn lemma_opt_value_unique(data: Seq<u8>, p: int, o1: Option<Seq<char>>, o2: Option<
    Seq<char>,
>)
    requires
        opt_value_at(data, p, o1),
        opt_value_at(data, p, o2),
    ensures
        o1 == o2,
{
    match (o1, o2) {
        (Some(s1), Some(s2)) => {
            assert(string_value_at(data, p + 1, s1));
            assert(string_value_at(data, p + 1, s2));
            assert(s1.len() == string_len_at(data, p + 1));
            assert(s2.len() == string_len_at(data, p + 1));
            let q = p + 1;
            assert forall|k: int| 0 <= k < s1.len() implies s1[k] == s2[k] by {
                assert(s1[k] as u32 == spec_u32_from_le_bytes(
                    data.subrange(q + 8 + 4 * k, q + 8 + 4 * k + 4),
                ));
                assert(s2[k] as u32 == spec_u32_from_le_bytes(
                    data.subrange(q + 8 + 4 * k, q + 8 + 4 * k + 4),
                ));
                lemma_char_cast_injective(s1[k], s2[k]);
            }
            assert(s1 =~= s2);
        },
        (None, Some(_)) => {
            assert(false);
        },
        (Some(_), None) => {
            assert(false);
        },
        (None, None) => {},
    }
}

/// Round trip: a well-formed record written to bytes and read back is the
/// record that was written — so the missing ranges computed from the
/// reloaded record are byte-identical to those before the snapshot.
pub proof fn lemma_record_round_trip(rec: ResumeRecord, reloaded: ResumeRecord)
    requires
        rec.wf(),
        rec.progress@.len() <= u64::MAX,
        rec.etag matches Some(s) ==> s@.len() <= u64::MAX,
        rec.last_modified matches Some(s) ==> s@.len() <= u64::MAX,
        record_value(record_enc(rec), reloaded),
    ensures
        reloaded.elapsed_ms == rec.elapsed_ms,
        reloaded.etag.deep_view() == rec.etag.deep_view(),
        reloaded.last_modified.deep_view() == rec.last_modified.deep_view(),
        reloaded.progress@ == rec.progress@,
{
    lemma_record_enc_parses(rec);
    lemma_record_value_unique(record_enc(rec), rec, reloaded);
}

/// Whether an optional token equals the current one.
fn opt_eq(a: &Option<String>, b: &Option<String>) -> (r: bool)
    ensures
        r == (a.deep_view() == b.deep_view()),
{
    match (a, b) {
        (None, None) => true,
        (Some(x), Some(y)) => {
            let eq = *x == *y;
            proof {
                assert(a.deep_view() == Some(x@));
                assert(b.deep_view() == Some(y@));
            }
            eq
        },
        _ => {
            proof {
                assert(a.deep_view() != b.deep_view());
            }
            false
        },
    }
}

/// A resume record is trusted only if its validation tokens match the
/// current remote metadata; on a mismatch the record is discarded and the
/// transfer restarts from zero, since resuming against a changed remote
/// file would corrupt the output.
pub fn record_matches(rec: &ResumeRecord, etag: &Option<String>, last_modified: &Option<String>) -> (r:
    bool)
    ensures
        r == (rec.etag.deep_view() == etag.deep_view() && rec.last_modified.deep_view()
            == last_modified.deep_view()),
{
    let e = opt_eq(&rec.etag, etag);
    let l = opt_eq(&rec.last_modified, last_modified);
    e && l
}

} // verus!
