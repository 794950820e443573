//! Packaging a fetched image body as a data URI: the declared content type is
//! read from the Content-Type header (the part before any `;` parameter,
//! trimmed, defaulting to `image/jpeg` when the header is absent), and the
//! body is base64-encoded behind it.
use vstd::prelude::*;
use vstd::string::*;

use crate::encoding::b64_encode;
use crate::encoding::base64_decode_of;
use crate::encoding::base64_of;

verus! {

/// A character with the Unicode `White_Space` property, the set that
/// trimming removes.
pub open spec fn is_space(c: char) -> bool {
    let u = c as u32;
    u == 0x20 || (0x09 <= u && u <= 0x0D) || u == 0x85 || u == 0xA0 || u == 0x1680 || (0x2000
        <= u && u <= 0x200A) || u == 0x2028 || u == 0x2029 || u == 0x202F || u == 0x205F || u
        == 0x3000
}

/// The prefix of `s` up to (not including) its first `;`, or all of `s` when
/// it has none.
pub open spec fn before_semicolon(s: Seq<char>) -> Seq<char>
    decreases s.len(),
{
    if s.len() == 0 {
        s
    } else if s[0] == ';' {
        Seq::empty()
    } else {
        seq![s[0]] + before_semicolon(s.drop_first())
    }
}

/// `s` with leading and trailing white space removed.
pub open spec fn trim_spaces(s: Seq<char>) -> Seq<char>
    decreases s.len(),
{
    if s.len() == 0 {
        s
    } else if is_space(s[0]) {
        trim_spaces(s.drop_first())
    } else if is_space(s[s.len() - 1]) {
        trim_spaces(s.drop_last())
    } else {
        s
    }
}

/// The declared content type for a response: the trimmed part of the
/// Content-Type header before any parameter, or `image/jpeg` when the header
/// is absent.
pub open spec fn spec_content_type(header: Option<Seq<char>>) -> Seq<char> {
    match header {
        Option::Some(h) => trim_spaces(before_semicolon(h)),
        Option::None => "image/jpeg"@,
    }
}

/// The view of an optional header value.
pub open spec fn opt_str_view(header: Option<&str>) -> Option<Seq<char>> {
    match header {
        Option::Some(h) => Option::Some(h@),
        Option::None => Option::None,
    }
}

proof fn lemma_before_semicolon_prefix(s: Seq<char>, i: int)
    requires
        0 <= i <= s.len(),
        forall|j: int| 0 <= j < i ==> s[j] != ';',
        i == s.len() || s[i] == ';',
    ensures
        before_semicolon(s) == s.subrange(0, i),
    decreases s.len(),
{
    if i == 0 {
        assert(before_semicolon(s) =~= s.subrange(0, 0));
    } else {
        lemma_before_semicolon_prefix(s.drop_first(), i - 1);
        assert(seq![s[0]] + s.drop_first().subrange(0, i - 1) =~= s.subrange(0, i));
    }
}

proof fn lemma_trim_bounds(s: Seq<char>, lo: int, hi: int)
    requires
        0 <= lo <= hi <= s.len(),
        forall|j: int| 0 <= j < lo ==> is_space(s[j]),
        forall|j: int| hi <= j < s.len() ==> is_space(s[j]),
        lo < hi ==> !is_space(s[lo]) && !is_space(s[hi - 1]),
    ensures
        trim_spaces(s) == s.subrange(lo, hi),
    decreases s.len(),
{
    if s.len() == 0 {
        assert(trim_spaces(s) =~= s.subrange(lo, hi));
    } else if is_space(s[0]) {
        if lo > 0 {
            lemma_trim_bounds(s.drop_first(), lo - 1, hi - 1);
            assert(s.drop_first().subrange(lo - 1, hi - 1) =~= s.subrange(lo, hi));
        } else {
            lemma_trim_bounds(s.drop_first(), 0, 0);
            assert(s.drop_first().subrange(0, 0) =~= s.subrange(lo, hi));
        }
    } else {
        if is_space(s[s.len() - 1]) {
            lemma_trim_bounds(s.drop_last(), lo, hi);
            assert(s.drop_last().subrange(lo, hi) =~= s.subrange(lo, hi));
        } else {
            assert(s.subrange(0, s.len() as int) =~= s);
        }
    }
}

/// The index of the first `;` in `h`, or its length when it has none.
fn find_semi(h: &str) -> (r: usize)
    ensures
        r <= h@.len(),
        forall|j: int| 0 <= j < r ==> h@[j] != ';',
        r < h@.len() ==> h@[r as int] == ';',
{
    let n: usize = h.unicode_len();
    let mut i: usize = 0;
    loop
        invariant
            i <= n,
            n == h@.len(),
            forall|j: int| 0 <= j < i ==> h@[j] != ';',
        decreases n - i,
    {
        if i == n {
            return i;
        }
        if h.get_char(i) == ';' {
            return i;
        }
        i += 1;
    }
}

/// The index of the first character in `h[from..to]` that is not white
/// space, or `to` when they all are.
fn first_non_space(h: &str, from: usize, to: usize) -> (r: usize)
    requires
        from <= to <= h@.len(),
    ensures
        from <= r <= to,
        forall|j: int| from <= j < r ==> is_space(h@[j]),
        r < to ==> !is_space(h@[r as int]),
{
    let mut i: usize = from;
    loop
        invariant
            from <= i <= to <= h@.len(),
            forall|j: int| from <= j < i ==> is_space(h@[j]),
        decreases to - i,
    {
        if i == to {
            return i;
        }
        if !is_space_char(h.get_char(i)) {
            return i;
        }
        i += 1;
    }
}

/// One past the index of the last character in `h[from..to]` that is not
/// white space, or `from` when they all are.
fn last_non_space(h: &str, from: usize, to: usize) -> (r: usize)
    requires
        from <= to <= h@.len(),
    ensures
        from <= r <= to,
        forall|j: int| r <= j < to ==> is_space(h@[j]),
        r > from ==> !is_space(h@[r - 1]),
{
    let mut i: usize = to;
    loop
        invariant
            from <= i <= to <= h@.len(),
            forall|j: int| i <= j < to ==> is_space(h@[j]),
        decreases i - from,
    {
        if i == from {
            return i;
        }
        if !is_space_char(h.get_char(i - 1)) {
            return i;
        }
        i -= 1;
    }
}

/// Whether `c` has the Unicode `White_Space` property.
fn is_space_char(c: char) -> (r: bool)
    ensures
        r == is_space(c),
{
    let u: u32 = c as u32;
    u == 0x20 || (0x09 <= u && u <= 0x0D) || u == 0x85 || u == 0xA0 || u == 0x1680 || (0x2000
        <= u && u <= 0x200A) || u == 0x2028 || u == 0x2029 || u == 0x202F || u == 0x205F || u
        == 0x3000
}

/// The declared content type of a response whose Content-Type header held
/// `header` (absent or non-text headers arrive as `None`): the part before
/// any `;` parameter, trimmed, or `image/jpeg` by default.
pub fn content_type_of(header: Option<&str>) -> (r: String)
    ensures
        r@ == spec_content_type(opt_str_view(header)),
{
    match header {
        Option::None => String::from_str("image/jpeg"),
        Option::Some(h) => {
            let semi = find_semi(h);
            let lo = first_non_space(h, 0, semi);
            let hi = last_non_space(h, lo, semi);
            let cut = h.substring_char(lo, hi);
            proof {
                lemma_before_semicolon_prefix(h@, semi as int);
                lemma_trim_bounds(h@.subrange(0, semi as int), lo as int, hi as int);
                assert(h@.subrange(0, semi as int).subrange(lo as int, hi as int) =~= h@.subrange(
                    lo as int,
                    hi as int,
                ));
            }
            String::from_str(cut)
        },
    }
}

/// The data URI for a response body: `data:<mime>;base64,<payload>`, where
/// the mime type comes from the Content-Type header and the payload is the
/// base64 text of the body. Decoding the payload gives back exactly the body
/// bytes.
pub fn data_uri(header: Option<&str>, body: &Vec<u8>) -> (r: String)
    requires
        4 * ((body@.len() + 2) / 3) <= usize::MAX,
    ensures
        r@ == "data:"@ + spec_content_type(opt_str_view(header)) + ";base64,"@ + base64_of(
            body@,
        ),
        base64_decode_of(base64_of(body@)) == Some(body@),
{
    let mut out = String::from_str("data:");
    let mime = content_type_of(header);
    out.append(mime.as_str());
    out.append(";base64,");
    let payload = b64_encode(body);
    out.append(payload.as_str());
    proof {
        assert(out@ =~= "data:"@ + spec_content_type(opt_str_view(header)) + ";base64,"@
            + base64_of(body@));
    }
    out
}

} // verus!
