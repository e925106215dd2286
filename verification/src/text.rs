//! Character-level text model shared by the CSV modules: whitespace,
//! trimming, UTF-8/UTF-16 lengths, display width and string building.
use vstd::prelude::*;
use vstd::utf8::*;
use unicode_width::UnicodeWidthStr;

verus! {

broadcast use vstd::seq::group_seq_axioms;

// ---------------------------------------------------------------------------
// Whitespace and trimming
// ---------------------------------------------------------------------------

/// Unicode `White_Space`, as `char::is_whitespace` decides it.
pub open spec fn is_whitespace(c: char) -> bool {
    let u = c as u32;
    ||| (0x09 <= u && u <= 0x0d)
    ||| u == 0x20
    ||| u == 0x85
    ||| u == 0xa0
    ||| u == 0x1680
    ||| (0x2000 <= u && u <= 0x200a)
    ||| u == 0x2028
    ||| u == 0x2029
    ||| u == 0x202f
    ||| u == 0x205f
    ||| u == 0x3000
}

/// Executable form of [`is_whitespace`].
pub fn is_whitespace_char(c: char) -> (b: bool)
    ensures
        b == is_whitespace(c),
{
    let u = c as u32;
    (0x09 <= u && u <= 0x0d) || u == 0x20 || u == 0x85 || u == 0xa0 || u == 0x1680 || (0x2000
        <= u && u <= 0x200a) || u == 0x2028 || u == 0x2029 || u == 0x202f || u == 0x205f || u
        == 0x3000
}

/// Number of whitespace characters at the start of `s`.
pub open spec fn lead_ws(s: Seq<char>) -> nat
    decreases s.len(),
{
    if s.len() > 0 && is_whitespace(s[0]) {
        1 + lead_ws(s.drop_first())
    } else {
        0
    }
}

/// Number of whitespace characters at the end of `s`.
pub open spec fn trail_ws(s: Seq<char>) -> nat
    decreases s.len(),
{
    if s.len() > 0 && is_whitespace(s.last()) {
        1 + trail_ws(s.drop_last())
    } else {
        0
    }
}

/// `s` without leading and trailing whitespace (what `str::trim` returns).
pub open spec fn trim(s: Seq<char>) -> Seq<char> {
    if lead_ws(s) == s.len() {
        Seq::empty()
    } else {
        s.subrange(lead_ws(s) as int, s.len() - trail_ws(s))
    }
}

/// `s` neither starts nor ends with whitespace.
pub open spec fn is_trimmed(s: Seq<char>) -> bool {
    s.len() == 0 || (!is_whitespace(s[0]) && !is_whitespace(s.last()))
}

/// `n` spaces.
pub open spec fn spaces(n: nat) -> Seq<char> {
    Seq::new(n, |i: int| ' ')
}

pub proof fn lemma_lead_ws_bound(s: Seq<char>)
    ensures
        lead_ws(s) <= s.len(),
        forall|i: int| 0 <= i < lead_ws(s) ==> is_whitespace(#[trigger] s[i]),
        lead_ws(s) < s.len() ==> !is_whitespace(s[lead_ws(s) as int]),
    decreases s.len(),
{
    if s.len() > 0 && is_whitespace(s[0]) {
        lemma_lead_ws_bound(s.drop_first());
        assert forall|i: int| 0 <= i < lead_ws(s) implies is_whitespace(#[trigger] s[i]) by {
            if i > 0 {
                assert(s[i] == s.drop_first()[i - 1]);
            }
        }
    }
}

pub proof fn lemma_trail_ws_bound(s: Seq<char>)
    ensures
        trail_ws(s) <= s.len(),
        forall|i: int| s.len() - trail_ws(s) <= i < s.len() ==> is_whitespace(#[trigger] s[i]),
        trail_ws(s) < s.len() ==> !is_whitespace(s[s.len() - trail_ws(s) - 1]),
    decreases s.len(),
{
    if s.len() > 0 && is_whitespace(s.last()) {
        lemma_trail_ws_bound(s.drop_last());
        assert forall|i: int| s.len() - trail_ws(s) <= i < s.len() implies is_whitespace(
            #[trigger] s[i],
        ) by {
            if i < s.len() - 1 {
                assert(s[i] == s.drop_last()[i]);
            }
        }
    }
}

/// A whitespace-free boundary fixes the leading-whitespace count.
pub proof fn lemma_lead_ws_char(s: Seq<char>, k: nat)
    requires
        k <= s.len(),
        forall|i: int| 0 <= i < k ==> is_whitespace(#[trigger] s[i]),
        k < s.len() ==> !is_whitespace(s[k as int]),
    ensures
        lead_ws(s) == k,
    decreases k,
{
    if k > 0 {
        assert(is_whitespace(s[0]));
        assert forall|i: int| 0 <= i < k - 1 implies is_whitespace(#[trigger] s.drop_first()[i]) by {
            assert(s.drop_first()[i] == s[i + 1]);
        }
        lemma_lead_ws_char(s.drop_first(), (k - 1) as nat);
    } else if s.len() > 0 {
        assert(!is_whitespace(s[0]));
    }
}

/// A whitespace-free boundary fixes the trailing-whitespace count.
pub proof fn lemma_trail_ws_char(s: Seq<char>, k: nat)
    requires
        k <= s.len(),
        forall|i: int| s.len() - k <= i < s.len() ==> is_whitespace(#[trigger] s[i]),
        k < s.len() ==> !is_whitespace(s[s.len() - k - 1]),
    ensures
        trail_ws(s) == k,
    decreases k,
{
    if k > 0 {
        assert(is_whitespace(s[s.len() - 1]));
        assert forall|i: int| s.drop_last().len() - (k - 1) <= i < s.drop_last().len() implies is_whitespace(
            #[trigger] s.drop_last()[i],
        ) by {
            assert(s.drop_last()[i] == s[i]);
        }
        lemma_trail_ws_char(s.drop_last(), (k - 1) as nat);
    } else if s.len() > 0 {
        assert(!is_whitespace(s[s.len() - 1]));
    }
}

/// Trimming a trimmed text followed by spaces gives the text back.
pub proof fn lemma_trim_padded(v: Seq<char>, n: nat)
    requires
        is_trimmed(v),
    ensures
        trim(v + spaces(n)) == v,
{
    let s = v + spaces(n);
    if v.len() == 0 {
        assert(s == spaces(n));
        lemma_lead_ws_char(s, n);
        assert(trim(s) =~= v);
    } else {
        assert(s[0] == v[0]);
        lemma_lead_ws_char(s, 0);
        assert(s[v.len() - 1] == v.last());
        lemma_trail_ws_char(s, n);
        assert(trim(s) =~= v);
    }
}

/// A trimmed text trims to itself.
pub proof fn lemma_trim_trimmed(v: Seq<char>)
    requires
        is_trimmed(v),
    ensures
        trim(v) == v,
{
    lemma_trim_padded(v, 0);
    assert(v + spaces(0) =~= v);
}

/// What `trim` returns is trimmed.
pub proof fn lemma_trim_is_trimmed(s: Seq<char>)
    ensures
        is_trimmed(trim(s)),
{
    lemma_lead_ws_bound(s);
    lemma_trail_ws_bound(s);
    if lead_ws(s) < s.len() {
        assert(!is_whitespace(s[lead_ws(s) as int]));
        assert(s.len() - trail_ws(s) - 1 >= lead_ws(s));
    }
}

// ---------------------------------------------------------------------------
// Lengths: UTF-8 bytes and UTF-16 code units
// ---------------------------------------------------------------------------

/// UTF-16 code units of one character.
pub open spec fn utf16_units(c: char) -> nat {
    if (c as u32) >= 0x10000 {
        2
    } else {
        1
    }
}

/// Length of `s` in UTF-16 code units.
pub open spec fn utf16_length(s: Seq<char>) -> nat
    decreases s.len(),
{
    if s.len() == 0 {
        0
    } else {
        utf16_length(s.drop_last()) + utf16_units(s.last())
    }
}

/// Length of `s` in UTF-8 bytes.
pub open spec fn utf8_length(s: Seq<char>) -> nat {
    encode_utf8(s).len()
}

/// UTF-8 bytes of one character.
pub open spec fn utf8_units(c: char) -> nat {
    let u = c as u32;
    if u < 0x80 {
        1
    } else if u < 0x800 {
        2
    } else if u < 0x10000 {
        3
    } else {
        4
    }
}

pub proof fn lemma_encode_utf8_concat(a: Seq<char>, b: Seq<char>)
    ensures
        encode_utf8(a + b) == encode_utf8(a) + encode_utf8(b),
    decreases a.len(),
{
    if a.len() == 0 {
        assert(a + b =~= b);
        assert(encode_utf8(a) =~= Seq::<u8>::empty());
        assert(encode_utf8(a) + encode_utf8(b) =~= encode_utf8(b));
    } else {
        assert((a + b).drop_first() =~= a.drop_first() + b);
        assert((a + b)[0] == a[0]);
        lemma_encode_utf8_concat(a.drop_first(), b);
        assert(encode_utf8(a + b) =~= encode_scalar(a[0] as u32) + (encode_utf8(a.drop_first())
            + encode_utf8(b)));
    }
}

pub proof fn lemma_utf8_length_push(s: Seq<char>, c: char)
    ensures
        utf8_length(s.push(c)) == utf8_length(s) + utf8_units(c),
{
    lemma_encode_utf8_concat(s, seq![c]);
    assert(s.push(c) =~= s + seq![c]);
    assert(seq![c].drop_first() =~= Seq::<char>::empty());
    assert(encode_utf8(seq![c]) =~= encode_scalar(c as u32) + encode_utf8(Seq::<char>::empty()));
    broadcast use vstd::utf8::char_is_scalar;
    assert(is_scalar(c as u32));
}

/// Executable [`utf8_units`].
pub fn char_utf8_len(c: char) -> (n: usize)
    ensures
        n == utf8_units(c),
{
    let u = c as u32;
    if u < 0x80 {
        1
    } else if u < 0x800 {
        2
    } else if u < 0x10000 {
        3
    } else {
        4
    }
}

/// Executable [`utf16_units`].
pub fn char_utf16_len(c: char) -> (n: usize)
    ensures
        n == utf16_units(c),
{
    if (c as u32) >= 0x10000 {
        2
    } else {
        1
    }
}

pub proof fn lemma_utf16_length_concat(a: Seq<char>, b: Seq<char>)
    ensures
        utf16_length(a + b) == utf16_length(a) + utf16_length(b),
    decreases b.len(),
{
    if b.len() == 0 {
        assert(a + b =~= a);
    } else {
        assert((a + b).drop_last() =~= a + b.drop_last());
        lemma_utf16_length_concat(a, b.drop_last());
    }
}

pub proof fn lemma_utf16_length_bounds(s: Seq<char>)
    ensures
        s.len() <= utf16_length(s) <= 2 * s.len(),
    decreases s.len(),
{
    if s.len() > 0 {
        lemma_utf16_length_bounds(s.drop_last());
    }
}

// ---------------------------------------------------------------------------
// Display width
// ---------------------------------------------------------------------------

/// Display width that `unicode_width::UnicodeWidthStr::width` gives a text.
pub uninterp spec fn unicode_str_width(s: Seq<char>) -> usize;

/// Every character of `s` is printable ASCII (U+0020..U+007E).
pub open spec fn is_printable_ascii(s: Seq<char>) -> bool {
    forall|i: int| 0 <= i < s.len() ==> 0x20 <= (#[trigger] s[i] as u32) < 0x7f
}

/// Display width as this library measures it: printable ASCII is one column
/// per character, anything else is measured by `unicode-width`.
pub open spec fn display_width_of(s: Seq<char>) -> usize {
    if is_printable_ascii(s) {
        s.len() as usize
    } else {
        unicode_str_width(s)
    }
}

/// Calls `UnicodeWidthStr::width` of the `unicode-width` crate.
///
/// Its result is the name [`unicode_str_width`] of the text; the crate's
/// width tables and ligature rules are left unsaid.
#[verifier::external_body]
pub(crate) fn unicode_width_of(s: &str) -> (r: usize)
    ensures
        r == unicode_str_width(s@),
{
    UnicodeWidthStr::width(s)
}

// ---------------------------------------------------------------------------
// Strings and characters
// ---------------------------------------------------------------------------

/// Calls `String::push`: the character is appended at the end, and the rest
/// of the text stays as it was.
#[verifier::external_body]
pub(crate) fn push_char(s: &mut String, c: char)
    ensures
        final(s)@ == old(s)@.push(c),
{
    s.push(c);
}

/// The characters of `s`, in order.
pub fn chars_of(s: &str) -> (v: Vec<char>)
    ensures
        v@ == s@,
{
    let mut v: Vec<char> = Vec::new();
    for c in it: s.chars()
        invariant
            v@ == it.seq().take(it.index() as int),
            it.seq() == s@,
    {
        v.push(c);
    }
    v
}

/// The string made of `cs[from..to]`.
pub fn string_of(cs: &[char], from: usize, to: usize) -> (s: String)
    requires
        from <= to <= cs@.len(),
    ensures
        s@ == cs@.subrange(from as int, to as int),
{
    let mut s = String::new();
    let mut i = from;
    while i < to
        invariant
            from <= i <= to <= cs@.len(),
            s@ == cs@.subrange(from as int, i as int),
        decreases to - i,
    {
        push_char(&mut s, cs[i]);
        i += 1;
        assert(s@ =~= cs@.subrange(from as int, i as int));
    }
    s
}

/// Appends `cs[from..to]` to `out`.
pub fn push_range(out: &mut String, cs: &[char], from: usize, to: usize)
    requires
        from <= to <= cs@.len(),
    ensures
        final(out)@ == old(out)@ + cs@.subrange(from as int, to as int),
{
    let mut i = from;
    while i < to
        invariant
            from <= i <= to <= cs@.len(),
            out@ == old(out)@ + cs@.subrange(from as int, i as int),
        decreases to - i,
    {
        push_char(out, cs[i]);
        i += 1;
        assert(out@ =~= old(out)@ + cs@.subrange(from as int, i as int));
    }
}

/// Appends the characters of `s` to `out`.
pub fn append_str(out: &mut String, s: &str)
    ensures
        final(out)@ == old(out)@ + s@,
{
    let cs = chars_of(s);
    push_range(out, cs.as_slice(), 0, cs.len());
    assert(cs@.subrange(0, cs@.len() as int) =~= s@);
}

/// Appends `n` spaces to `out`.
pub fn push_spaces(out: &mut String, n: usize)
    ensures
        final(out)@ == old(out)@ + spaces(n as nat),
{
    let mut i: usize = 0;
    while i < n
        invariant
            i <= n,
            out@ == old(out)@ + spaces(i as nat),
        decreases n - i,
    {
        push_char(out, ' ');
        i += 1;
        assert(out@ =~= old(out)@ + spaces(i as nat));
    }
}

/// `a` and `b` hold the same characters.
pub fn str_eq(a: &str, b: &str) -> (r: bool)
    ensures
        r == (a@ == b@),
{
    let x = chars_of(a);
    let y = chars_of(b);
    if x.len() != y.len() {
        return false;
    }
    let mut i: usize = 0;
    while i < x.len()
        invariant
            x@ == a@,
            y@ == b@,
            x.len() == y.len(),
            i <= x.len(),
            forall|k: int| 0 <= k < i ==> x@[k] == y@[k],
        decreases x.len() - i,
    {
        if x[i] != y[i] {
            return false;
        }
        i += 1;
    }
    assert(x@ =~= y@);
    true
}

/// `a` starts with `p`.
pub fn str_starts_with(a: &str, p: &str) -> (r: bool)
    ensures
        r == (p@.len() <= a@.len() && a@.subrange(0, p@.len() as int) == p@),
{
    let x = chars_of(a);
    let y = chars_of(p);
    if y.len() > x.len() {
        return false;
    }
    let mut i: usize = 0;
    while i < y.len()
        invariant
            x@ == a@,
            y@ == p@,
            y.len() <= x.len(),
            i <= y.len(),
            forall|k: int| 0 <= k < i ==> x@[k] == y@[k],
        decreases y.len() - i,
    {
        if x[i] != y[i] {
            assert(a@.subrange(0, p@.len() as int)[i as int] != p@[i as int]);
            return false;
        }
        i += 1;
    }
    assert(a@.subrange(0, p@.len() as int) =~= p@);
    true
}

/// ASCII lower-casing of one character (`char::to_ascii_lowercase`).
pub open spec fn ascii_lower(c: char) -> char {
    if 'A' <= c && c <= 'Z' {
        (((c as u8) + 32) as u8) as char
    } else {
        c
    }
}

/// Lower-casing a character twice is lower-casing it once.
pub proof fn lemma_ascii_lower_idempotent(c: char)
    ensures
        ascii_lower(ascii_lower(c)) == ascii_lower(c),
{
    if 'A' <= c && c <= 'Z' {
        let b = c as u8;
        assert(65 <= b <= 90);
        assert(97 <= ((b + 32) as u8) <= 122);
    }
}

/// `str::to_ascii_lowercase` as a character sequence.
pub open spec fn ascii_lowercase(s: Seq<char>) -> Seq<char> {
    s.map_values(|c: char| ascii_lower(c))
}

/// Executable [`ascii_lowercase`], as a character vector.
pub fn to_ascii_lowercase(s: &str) -> (v: Vec<char>)
    ensures
        v@ == ascii_lowercase(s@),
{
    let cs = chars_of(s);
    let mut v: Vec<char> = Vec::new();
    let mut i: usize = 0;
    while i < cs.len()
        invariant
            cs@ == s@,
            i <= cs.len(),
            v@ == ascii_lowercase(cs@.take(i as int)),
        decreases cs.len() - i,
    {
        let c = cs[i];
        let l = if 'A' <= c && c <= 'Z' {
            char_from_u32_lower(c)
        } else {
            c
        };
        v.push(l);
        i += 1;
        assert(v@ =~= ascii_lowercase(cs@.take(i as int)));
    }
    assert(cs@.take(cs.len() as int) =~= cs@);
    v
}

fn char_from_u32_lower(c: char) -> (l: char)
    requires
        'A' <= c && c <= 'Z',
    ensures
        l == ascii_lower(c),
{
    let b: u8 = c as u8;
    let l: char = (b + 32) as char;
    l
}

/// The character vector `v` equals the literal `lit`.
pub fn chars_eq_str(v: &[char], lit: &str) -> (r: bool)
    ensures
        r == (v@ == lit@),
{
    let y = chars_of(lit);
    if v.len() != y.len() {
        return false;
    }
    let mut i: usize = 0;
    while i < v.len()
        invariant
            y@ == lit@,
            v@.len() == y.len(),
            i <= v@.len(),
            forall|k: int| 0 <= k < i ==> v@[k] == y@[k],
        decreases v@.len() - i,
    {
        if v[i] != y[i] {
            return false;
        }
        i += 1;
    }
    assert(v@ =~= y@);
    true
}

/// Lower-casing is idempotent: a lower-cased string lower-cases to itself.
pub proof fn law_ascii_lowercase_idempotent(s: Seq<char>)
    ensures
        ascii_lowercase(ascii_lowercase(s)) == ascii_lowercase(s),
{
    assert forall|i: int| 0 <= i < s.len() implies #[trigger] ascii_lowercase(ascii_lowercase(s))[i]
        == ascii_lowercase(s)[i] by {
        lemma_ascii_lower_idempotent(s[i]);
    }
    assert(ascii_lowercase(ascii_lowercase(s)) =~= ascii_lowercase(s));
}

} // verus!
