//! UTF-16 encoding and lossy decoding of character sequences, the form the
//! driver's fixed `WCHAR` name fields take.

use vstd::prelude::*;

use crate::text::push_char;

verus! {

/// The UTF-16 code units of one character: itself below U+10000, otherwise
/// a high/low surrogate pair.
pub open spec fn utf16_of_char(c: char) -> Seq<u16> {
    let v = c as int;
    if v < 0x1_0000 {
        seq![v as u16]
    } else {
        seq![
            (0xD800 + (v - 0x1_0000) / 0x400) as u16,
            (0xDC00 + (v - 0x1_0000) % 0x400) as u16,
        ]
    }
}

/// UTF-16 of a character sequence (what `str::encode_utf16` yields).
pub open spec fn utf16_encode(s: Seq<char>) -> Seq<u16>
    decreases s.len(),
{
    if s.len() == 0 {
        Seq::empty()
    } else {
        utf16_of_char(s[0]) + utf16_encode(s.skip(1))
    }
}

/// A high (leading) surrogate.
pub open spec fn is_high_surrogate(u: u16) -> bool {
    0xD800 <= u <= 0xDBFF
}

/// A low (trailing) surrogate.
pub open spec fn is_low_surrogate(u: u16) -> bool {
    0xDC00 <= u <= 0xDFFF
}

/// The replacement character U+FFFD.
pub open spec fn replacement_char() -> char {
    '\u{FFFD}'
}

/// Lossy UTF-16 decoding (what `String::from_utf16_lossy` yields): a
/// surrogate pair becomes its character, any unpaired surrogate U+FFFD.
pub open spec fn utf16_decode_lossy(u: Seq<u16>) -> Seq<char>
    decreases u.len(),
{
    if u.len() == 0 {
        Seq::empty()
    } else if !is_high_surrogate(u[0]) && !is_low_surrogate(u[0]) {
        seq![(u[0] as int) as char] + utf16_decode_lossy(u.skip(1))
    } else if is_high_surrogate(u[0]) && u.len() >= 2 && is_low_surrogate(u[1]) {
        seq![(0x1_0000 + (u[0] - 0xD800) * 0x400 + (u[1] - 0xDC00)) as char]
            + utf16_decode_lossy(u.skip(2))
    } else {
        seq![replacement_char()] + utf16_decode_lossy(u.skip(1))
    }
}

pub(crate) proof fn lemma_char_range(c: char)
    ensures
        0 <= c as int <= 0xD7FF || 0xE000 <= c as int <= 0x10FFFF,
{
}

/// Decoding what was encoded gives the characters back.
pub proof fn lemma_utf16_roundtrip(s: Seq<char>)
    ensures
        utf16_decode_lossy(utf16_encode(s)) == s,
    decreases s.len(),
{
    if s.len() > 0 {
        let c = s[0];
        let rest = s.skip(1);
        lemma_utf16_roundtrip(rest);
        lemma_char_range(c);
        let e = utf16_encode(s);
        let u = utf16_of_char(c);
        assert(e == u + utf16_encode(rest));
        if (c as int) < 0x1_0000 {
            assert(e.skip(1) =~= utf16_encode(rest));
            assert(((c as int) as u16 as int) as char == c);
        } else {
            let v = c as int;
            let hi = (0xD800 + (v - 0x1_0000) / 0x400) as u16;
            let lo = (0xDC00 + (v - 0x1_0000) % 0x400) as u16;
            assert(e[0] == hi && e[1] == lo);
            assert(e.skip(2) =~= utf16_encode(rest));
            assert(0x1_0000 + (hi - 0xD800) * 0x400 + (lo - 0xDC00) == v);
            assert((v as char) == c);
        }
        assert(s =~= seq![c] + rest);
    }
}

/// No code unit of an encoding is zero unless the text holds U+0000.
pub proof fn lemma_utf16_nonzero(s: Seq<char>, i: int)
    requires
        0 <= i < utf16_encode(s).len(),
        utf16_encode(s)[i] == 0,
    ensures
        s.contains('\0'),
    decreases s.len(),
{
    if s.len() > 0 {
        let c = s[0];
        let u = utf16_of_char(c);
        assert(utf16_encode(s) == u + utf16_encode(s.skip(1)));
        if i < u.len() {
            lemma_char_range(c);
            assert(c as int == 0);
            assert(('\0' as int) == 0);
            assert(s[0] == '\0');
        } else {
            lemma_utf16_nonzero(s.skip(1), i - u.len());
            let k = choose|k: int| 0 <= k < s.skip(1).len() && s.skip(1)[k] == '\0';
            assert(s[k + 1] == '\0');
        }
    }
}

/// The UTF-16 code units of a string.
pub fn encode_utf16(s: &str) -> (units: Vec<u16>)
    ensures
        units@ == utf16_encode(s@),
{
    let mut units: Vec<u16> = Vec::new();
    let ghost full = s@;
    assert(full.skip(0) =~= full);
    assert(units@ + utf16_encode(full) =~= utf16_encode(full));
    for c in it: s.chars()
        invariant
            it.seq() == full,
            utf16_encode(full) == units@ + utf16_encode(full.skip(it.index() as int)),
    {
        let ghost i = it.index();
        proof {
            assert(full.skip(i as int)[0] == c);
            assert(full.skip(i as int).skip(1) =~= full.skip(i + 1));
            lemma_char_range(c);
        }
        let v = c as u32;
        if v < 0x1_0000 {
            units.push(v as u16);
        } else {
            units.push((0xD800 + (v - 0x1_0000) / 0x400) as u16);
            units.push((0xDC00 + (v - 0x1_0000) % 0x400) as u16);
        }
        assert(units@ =~= units@);
    }
    assert(full.skip(full.len() as int) =~= Seq::<char>::empty());
    units
}

/// `core::char::from_u32`: the character with scalar value `i`, or `None`
/// for a surrogate or a value past U+10FFFF.
pub assume_specification[ core::char::from_u32 ](i: u32) -> (r: Option<char>)
    ensures
        (i <= 0x10FFFF && !(0xD800 <= i <= 0xDFFF)) ==> r == Some((i as int) as char),
        !(i <= 0x10FFFF && !(0xD800 <= i <= 0xDFFF)) ==> r is None,
;

fn unit_to_char(v: u32) -> (c: char)
    requires
        v <= 0x10FFFF,
        !(0xD800 <= v <= 0xDFFF),
    ensures
        c == (v as int) as char,
{
    match core::char::from_u32(v) {
        Some(c) => c,
        None => '\u{FFFD}',
    }
}

/// Decode UTF-16 code units, replacing each unpaired surrogate with U+FFFD.
pub fn decode_utf16_lossy(u: &[u16]) -> (s: String)
    ensures
        s@ == utf16_decode_lossy(u@),
{
    let mut s = String::new();
    let n = u.len();
    let mut i: usize = 0;
    assert(u@.skip(0) =~= u@);
    while i < n
        invariant
            n == u@.len(),
            i <= n,
            s@ + utf16_decode_lossy(u@.skip(i as int)) == utf16_decode_lossy(u@),
        decreases n - i,
    {
        let ghost rest = u@.skip(i as int);
        let a = u[i];
        if !(0xD800 <= a && a <= 0xDFFF) {
            push_char(&mut s, unit_to_char(a as u32));
            assert(rest.skip(1) =~= u@.skip(i + 1));
            i += 1;
        } else if a <= 0xDBFF && i + 1 < n && 0xDC00 <= u[i + 1] && u[i + 1] <= 0xDFFF {
            let b = u[i + 1];
            let v: u32 = 0x1_0000 + (a as u32 - 0xD800) * 0x400 + (b as u32 - 0xDC00);
            push_char(&mut s, unit_to_char(v));
            assert(rest.skip(2) =~= u@.skip(i + 2));
            i += 2;
        } else {
            push_char(&mut s, '\u{FFFD}');
            assert(rest.skip(1) =~= u@.skip(i + 1));
            i += 1;
        }
    }
    assert(u@.skip(n as int) =~= Seq::<u16>::empty());
    s
}

} // verus!
