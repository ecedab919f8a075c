//! Character-level helpers used to build names, labels and messages.

use vstd::prelude::*;

verus! {

/// The upper-case hexadecimal digit of a value below 16.
pub open spec fn hex_digit(d: nat) -> char {
    if d < 10 {
        (('0' as nat) + d) as char
    } else {
        (('A' as nat) + (d - 10)) as char
    }
}

/// The decimal digit of a value below 10.
pub open spec fn dec_digit(d: nat) -> char {
    (('0' as nat) + d) as char
}

/// The last `width` upper-case hexadecimal digits of `v`, most significant first.
pub open spec fn hex_text(v: nat, width: nat) -> Seq<char>
    decreases width,
{
    if width == 0 {
        Seq::empty()
    } else {
        hex_text(v / 16, (width - 1) as nat).push(hex_digit(v % 16))
    }
}

/// The upper-case hexadecimal representation of `v`, without leading zeros.
pub open spec fn hex_min(v: nat) -> Seq<char>
    decreases v,
{
    if v < 16 {
        seq![hex_digit(v)]
    } else {
        hex_min(v / 16).push(hex_digit(v % 16))
    }
}

/// The decimal representation of `v`, without leading zeros.
pub open spec fn dec_text(v: nat) -> Seq<char>
    decreases v,
{
    if v < 10 {
        seq![dec_digit(v)]
    } else {
        dec_text(v / 10).push(dec_digit(v % 10))
    }
}

/// `s` with every trailing occurrence of `c` removed.
pub open spec fn trim_end_char(s: Seq<char>, c: char) -> Seq<char>
    decreases s.len(),
{
    if s.len() > 0 && s.last() == c {
        trim_end_char(s.drop_last(), c)
    } else {
        s
    }
}

/// `s` with every leading character satisfying `p` removed.
pub open spec fn trim_start_by(s: Seq<char>, p: spec_fn(char) -> bool) -> Seq<char>
    decreases s.len(),
{
    if s.len() > 0 && p(s[0]) {
        trim_start_by(s.drop_first(), p)
    } else {
        s
    }
}

/// `s` with every trailing character satisfying `p` removed.
pub open spec fn trim_end_by(s: Seq<char>, p: spec_fn(char) -> bool) -> Seq<char>
    decreases s.len(),
{
    if s.len() > 0 && p(s.last()) {
        trim_end_by(s.drop_last(), p)
    } else {
        s
    }
}

/// `s` with leading and trailing characters satisfying `p` removed.
pub open spec fn trim_by(s: Seq<char>, p: spec_fn(char) -> bool) -> Seq<char> {
    trim_end_by(trim_start_by(s, p), p)
}

/// The characters with the Unicode `White_Space` property.
pub open spec fn is_white_space(c: char) -> bool {
    let n = c as u32;
    (0x09 <= n && n <= 0x0D) || n == 0x20 || n == 0x85 || n == 0xA0 || n == 0x1680
        || (0x2000 <= n && n <= 0x200A) || n == 0x2028 || n == 0x2029 || n == 0x202F
        || n == 0x205F || n == 0x3000
}

/// The characters of the Unicode general category `Cc` (control characters).
pub open spec fn is_control_char(c: char) -> bool {
    let n = c as u32;
    n <= 0x1F || (0x7F <= n && n <= 0x9F)
}

/// The text that `String::from_utf8_lossy` makes of a byte sequence.
pub uninterp spec fn utf8_lossy(bytes: Seq<u8>) -> Seq<char>;

/// The text that `String::from_utf16_lossy` makes of a sequence of UTF-16 code units.
pub uninterp spec fn utf16_lossy(units: Seq<u16>) -> Seq<char>;

/// Calls `String::push`, which appends one character.
#[verifier::external_body]
pub(crate) fn push_char(s: &mut String, c: char)
    ensures
        final(s)@ == old(s)@.push(c),
{
    s.push(c);
}

/// The bytes are all ASCII (below 0x80).
pub open spec fn all_ascii(bytes: Seq<u8>) -> bool {
    forall|i: int| 0 <= i < bytes.len() ==> #[trigger] bytes[i] < 0x80
}

/// The characters whose codes are the bytes.
pub open spec fn ascii_chars(bytes: Seq<u8>) -> Seq<char> {
    bytes.map_values(|b: u8| b as char)
}

/// Calls `String::from_utf8_lossy`: the result is named by `utf8_lossy` of the bytes. Its
/// documentation says valid UTF-8 comes back unchanged, so ASCII bytes give the characters
/// with those codes.
#[verifier::external_body]
pub(crate) fn utf8_lossy_string(bytes: &[u8]) -> (s: String)
    ensures
        s@ == utf8_lossy(bytes@),
        all_ascii(bytes@) ==> s@ == ascii_chars(bytes@),
{
    String::from_utf8_lossy(bytes).into_owned()
}

/// Calls `String::from_utf16_lossy`: the result is named by `utf16_lossy` of the code units.
#[verifier::external_body]
pub(crate) fn utf16_lossy_string(units: &[u16]) -> (s: String)
    ensures
        s@ == utf16_lossy(units@),
{
    String::from_utf16_lossy(units)
}

/// Appends a string literal or slice.
pub fn push_str(s: &mut String, t: &str)
    ensures
        final(s)@ == old(s)@ + t@,
{
    s.append(t);
}

/// Appends the last `width` hexadecimal digits of `v`.
pub fn push_hex(s: &mut String, v: u64, width: usize)
    ensures
        final(s)@ == old(s)@ + hex_text(v as nat, width as nat),
    decreases width,
{
    if width == 0 {
        return;
    }
    push_hex(s, v / 16, width - 1);
    let d = v % 16;
    let c = if d < 10 {
        (48u8 + d as u8) as char
    } else {
        (55u8 + d as u8) as char
    };
    assert(c == hex_digit(v as nat % 16));
    push_char(s, c);
}

/// Appends the upper-case hexadecimal representation of `v`.
pub fn push_hex_min(s: &mut String, v: u64)
    ensures
        final(s)@ == old(s)@ + hex_min(v as nat),
    decreases v,
{
    if v >= 16 {
        push_hex_min(s, v / 16);
    }
    let d = v % 16;
    let c = if d < 10 {
        (48u8 + d as u8) as char
    } else {
        (55u8 + d as u8) as char
    };
    assert(c == hex_digit(v as nat % 16));
    push_char(s, c);
}

/// The upper-case hexadecimal representation of `v`, zero-padded to at least `width` digits.
pub open spec fn hex_padded(v: nat, width: nat) -> Seq<char> {
    let d = hex_min(v);
    if d.len() >= width {
        d
    } else {
        Seq::new((width - d.len()) as nat, |i: int| '0') + d
    }
}

/// Appends `v` in upper-case hexadecimal, zero-padded to at least `width` digits.
pub fn push_hex_padded(s: &mut String, v: u64, width: usize)
    ensures
        final(s)@ == old(s)@ + hex_padded(v as nat, width as nat),
{
    let mut digits = String::new();
    push_hex_min(&mut digits, v);
    let n = digits.as_str().unicode_len();
    let ghost start = s@;
    if n < width {
        let mut k: usize = 0;
        while k < width - n
            invariant
                n < width,
                k <= width - n,
                s@ == start + Seq::new(k as nat, |i: int| '0'),
            decreases width - n - k,
        {
            push_char(s, '0');
            proof {
                assert(Seq::new((k + 1) as nat, |i: int| '0') =~= Seq::new(k as nat, |i: int| '0').push('0'));
            }
            k += 1;
        }
    }
    push_str(s, digits.as_str());
    proof {
        if n < width {
            assert(s@ =~= start + (Seq::new((width - n) as nat, |i: int| '0') + hex_min(v as nat)));
        }
    }
}

/// Appends the decimal representation of `v`.
pub fn push_dec(s: &mut String, v: u64)
    ensures
        final(s)@ == old(s)@ + dec_text(v as nat),
    decreases v,
{
    if v >= 10 {
        push_dec(s, v / 10);
    }
    let d = v % 10;
    let c = (48u8 + d as u8) as char;
    assert(c == dec_digit(v as nat % 10));
    push_char(s, c);
}

/// `"0x"` followed by the last `width` hexadecimal digits of `v`.
pub fn prefixed_hex(v: u64, width: usize) -> (s: String)
    ensures
        s@ == "0x"@ + hex_text(v as nat, width as nat),
{
    let mut s = String::from_str("0x");
    push_hex(&mut s, v, width);
    s
}

/// The characters of a string, as a vector.
pub fn chars_of(s: &str) -> (v: Vec<char>)
    ensures
        v@ == s@,
{
    let n = s.unicode_len();
    let mut v: Vec<char> = Vec::new();
    let mut i: usize = 0;
    while i < n
        invariant
            n == s@.len(),
            i <= n,
            v@ == s@.subrange(0, i as int),
        decreases n - i,
    {
        v.push(s.get_char(i));
        i += 1;
    }
    v
}

/// A string made of the characters `cs[from..to]`.
pub fn string_of(cs: &Vec<char>, from: usize, to: usize) -> (s: String)
    requires
        from <= to <= cs.len(),
    ensures
        s@ == cs@.subrange(from as int, to as int),
{
    let mut s = String::new();
    let mut i = from;
    while i < to
        invariant
            from <= i <= to <= cs.len(),
            s@ == cs@.subrange(from as int, i as int),
        decreases to - i,
    {
        push_char(&mut s, cs[i]);
        i += 1;
    }
    s
}

/// Character classes that names and labels are trimmed by.
#[derive(Clone, Copy, Debug, PartialEq, Eq, Structural)]
pub enum CharClass {
    /// Characters with the Unicode `White_Space` property.
    WhiteSpace,
    /// The NUL character.
    Nul,
    /// A space or a full stop.
    SpaceOrDot,
}

/// Whether `c` belongs to the class `cls`.
pub open spec fn in_class(cls: CharClass, c: char) -> bool {
    match cls {
        CharClass::WhiteSpace => is_white_space(c),
        CharClass::Nul => c == '\0',
        CharClass::SpaceOrDot => c == ' ' || c == '.',
    }
}

/// The predicate of a character class.
pub open spec fn class_pred(cls: CharClass) -> spec_fn(char) -> bool {
    |c: char| in_class(cls, c)
}

pub fn is_in_class(cls: CharClass, c: char) -> (r: bool)
    ensures
        r == in_class(cls, c),
{
    match cls {
        CharClass::WhiteSpace => {
            let n = c as u32;
            (0x09 <= n && n <= 0x0D) || n == 0x20 || n == 0x85 || n == 0xA0 || n == 0x1680 || (
            0x2000 <= n && n <= 0x200A) || n == 0x2028 || n == 0x2029 || n == 0x202F || n
                == 0x205F || n == 0x3000
        },
        CharClass::Nul => c == '\0',
        CharClass::SpaceOrDot => c == ' ' || c == '.',
    }
}

proof fn lemma_trim_end_step(s: Seq<char>, k: int, p: spec_fn(char) -> bool)
    requires
        0 < k <= s.len(),
        p(s[k - 1]),
    ensures
        trim_end_by(s.subrange(0, k), p) == trim_end_by(s.subrange(0, k - 1), p),
{
    assert(s.subrange(0, k).drop_last() =~= s.subrange(0, k - 1));
}

proof fn lemma_trim_start_step(s: Seq<char>, i: int, p: spec_fn(char) -> bool)
    requires
        0 <= i < s.len(),
        p(s[i]),
    ensures
        trim_start_by(s.subrange(i, s.len() as int), p) == trim_start_by(
            s.subrange(i + 1, s.len() as int),
            p,
        ),
{
    assert(s.subrange(i, s.len() as int).drop_first() =~= s.subrange(i + 1, s.len() as int));
}

/// Index one past the last character of `cs[..k]` that is not in `cls`, or 0.
fn trimmed_end(cs: &Vec<char>, k: usize, cls: CharClass) -> (e: usize)
    requires
        k <= cs.len(),
    ensures
        e <= k,
        trim_end_by(cs@.subrange(0, k as int), class_pred(cls)) == cs@.subrange(0, e as int),
{
    let mut e = k;
    while e > 0 && is_in_class(cls, cs[e - 1])
        invariant
            e <= k <= cs.len(),
            trim_end_by(cs@.subrange(0, k as int), class_pred(cls)) == trim_end_by(
                cs@.subrange(0, e as int),
                class_pred(cls),
            ),
        decreases e,
    {
        proof {
            lemma_trim_end_step(cs@, e as int, class_pred(cls));
        }
        e -= 1;
    }
    e
}

/// `s` without trailing characters of the class.
pub fn trim_end_class(s: &str, cls: CharClass) -> (r: String)
    ensures
        r@ == trim_end_by(s@, class_pred(cls)),
{
    let cs = chars_of(s);
    let e = trimmed_end(&cs, cs.len(), cls);
    assert(cs@.subrange(0, cs.len() as int) =~= cs@);
    string_of(&cs, 0, e)
}

/// `s` without leading and trailing characters of the class.
pub fn trim_class(s: &str, cls: CharClass) -> (r: String)
    ensures
        r@ == trim_by(s@, class_pred(cls)),
{
    let cs = chars_of(s);
    let n = cs.len();
    let mut b: usize = 0;
    assert(cs@.subrange(0, n as int) =~= s@);
    while b < n && is_in_class(cls, cs[b])
        invariant
            b <= n == cs.len(),
            cs@ == s@,
            trim_start_by(s@, class_pred(cls)) == trim_start_by(
                cs@.subrange(b as int, n as int),
                class_pred(cls),
            ),
        decreases n - b,
    {
        proof {
            lemma_trim_start_step(cs@, b as int, class_pred(cls));
        }
        b += 1;
    }
    proof {
        assert(s@.subrange(0, n as int) =~= s@);
    }
    let rest = string_of(&cs, b, n);
    let rcs = chars_of(rest.as_str());
    let e = trimmed_end(&rcs, rcs.len(), cls);
    assert(rcs@.subrange(0, rcs.len() as int) =~= rcs@);
    string_of(&rcs, 0, e)
}

} // verus!
