//! Null-terminated UTF-16 text, as the Windows API takes and gives it.
use vstd::prelude::*;

use crate::text::{chars_of, string_from_chars};

verus! {

/// The UTF-16 code units of one character.
pub open spec fn utf16_of(c: char) -> Seq<u16> {
    let u = c as u32;
    if u < 0x10000 {
        seq![u as u16]
    } else {
        let v = u - 0x10000;
        seq![(0xd800 + v / 0x400) as u16, (0xdc00 + v % 0x400) as u16]
    }
}

/// The UTF-16 code units of a text (`str::encode_utf16`).
pub open spec fn utf16(s: Seq<char>) -> Seq<u16>
    decreases s.len(),
{
    if s.len() == 0 {
        seq![]
    } else {
        utf16(s.drop_last()) + utf16_of(s.last())
    }
}

/// The text as null-terminated UTF-16.
pub fn wide(value: &str) -> (w: Vec<u16>)
    ensures
        w@ == utf16(value@).push(0),
{
    let chars = chars_of(value);
    let mut w: Vec<u16> = Vec::new();
    let mut i: usize = 0;
    while i < chars.len()
        invariant
            i <= chars@.len(),
            w@ == utf16(chars@.take(i as int)),
        decreases chars@.len() - i,
    {
        let c = chars[i];
        let u = c as u32;
        let ghost before = w@;
        if u < 0x10000 {
            w.push(u as u16);
        } else {
            let v = u - 0x10000;
            w.push((0xd800 + v / 0x400) as u16);
            w.push((0xdc00 + v % 0x400) as u16);
        }
        assert(chars@.take(i + 1).drop_last() =~= chars@.take(i as int));
        assert(w@ =~= before + utf16_of(c));
        i = i + 1;
    }
    assert(chars@.take(i as int) =~= chars@);
    w.push(0);
    w
}

/// The scalar value that U+FFFD REPLACEMENT CHARACTER stands for.
pub open spec fn replacement() -> u32 {
    0xfffd
}

pub open spec fn is_high_surrogate(u: u16) -> bool {
    0xd800 <= u <= 0xdbff
}

pub open spec fn is_low_surrogate(u: u16) -> bool {
    0xdc00 <= u <= 0xdfff
}

/// The scalar values that UTF-16 decodes to, each unpaired surrogate
/// replaced by U+FFFD (`String::from_utf16_lossy`).
pub open spec fn decode_utf16_lossy(units: Seq<u16>) -> Seq<u32>
    decreases units.len(),
{
    if units.len() == 0 {
        seq![]
    } else {
        let u = units[0];
        if u < 0xd800 || u > 0xdfff {
            seq![u as u32] + decode_utf16_lossy(units.drop_first())
        } else if is_high_surrogate(u) && units.len() > 1 && is_low_surrogate(units[1]) {
            seq![(0x10000 + (u - 0xd800) * 0x400 + (units[1] - 0xdc00)) as u32]
                + decode_utf16_lossy(units.skip(2))
        } else {
            seq![replacement()] + decode_utf16_lossy(units.drop_first())
        }
    }
}

/// The units before the first zero unit (all of them when there is none).
pub open spec fn before_nul(units: Seq<u16>) -> Seq<u16>
    decreases units.len(),
{
    if units.len() == 0 {
        units
    } else if units[0] == 0 {
        seq![]
    } else {
        seq![units[0]] + before_nul(units.drop_first())
    }
}

/// The character with a scalar value.
///
/// Trusted: std's `char::from_u32`, which is documented to return the `char`
/// with that value, and `None` for a surrogate or a value past U+10FFFF.
#[verifier::external_body]
fn char_from_u32(u: u32) -> (c: Option<char>)
    ensures
        c is Some <==> (u < 0xd800 || (0xe000 <= u && u <= 0x10ffff)),
        c matches Some(ch) ==> ch as u32 == u,
{
    char::from_u32(u)
}

fn scalar_char(u: u32) -> (c: char)
    requires
        u < 0xd800 || (0xe000 <= u && u <= 0x10ffff),
    ensures
        c as u32 == u,
{
    match char_from_u32(u) {
        Some(c) => c,
        None => {
            assert(false);
            '\u{fffd}'
        },
    }
}

proof fn lemma_before_nul(units: Seq<u16>, n: int)
    requires
        0 <= n <= units.len(),
        forall|j: int| 0 <= j < n ==> #[trigger] units[j] != 0,
        n < units.len() ==> units[n] == 0,
    ensures
        before_nul(units) == units.take(n),
    decreases n,
{
    if n == 0 {
        if units.len() > 0 {
            assert(units.take(0) =~= Seq::<u16>::empty());
        } else {
            assert(units.take(0) =~= units);
        }
    } else {
        let t = units.drop_first();
        assert forall|j: int| 0 <= j < n - 1 implies #[trigger] t[j] != 0 by {
            assert(t[j] == units[j + 1]);
        }
        lemma_before_nul(t, n - 1);
        assert(seq![units[0]] + t.take(n - 1) =~= units.take(n));
    }
}

/// The text in a fixed-size UTF-16 buffer: the units before the first zero,
/// decoded, unpaired surrogates replaced by U+FFFD.
pub fn wide_to_string(wide: &[u16]) -> (s: String)
    ensures
        s@.map_values(|c: char| c as u32) == decode_utf16_lossy(before_nul(wide@)),
{
    let mut n: usize = 0;
    while n < wide.len() && wide[n] != 0
        invariant
            n <= wide@.len(),
            forall|j: int| 0 <= j < n ==> #[trigger] wide@[j] != 0,
        decreases wide@.len() - n,
    {
        n = n + 1;
    }
    proof {
        lemma_before_nul(wide@, n as int);
    }
    let ghost units = wide@.take(n as int);
    let mut out: Vec<char> = Vec::new();
    let mut i: usize = 0;
    assert(units.skip(0) =~= units);
    assert(out@.map_values(|c: char| c as u32) =~= Seq::<u32>::empty());
    assert(Seq::<u32>::empty() + decode_utf16_lossy(units) =~= decode_utf16_lossy(units));
    while i < n
        invariant
            i <= n <= wide@.len(),
            units == wide@.take(n as int),
            decode_utf16_lossy(units) == out@.map_values(|c: char| c as u32) + decode_utf16_lossy(
                units.skip(i as int),
            ),
        decreases n - i,
    {
        let ghost before = out@;
        let ghost rest = units.skip(i as int);
        let u = wide[i];
        assert(rest[0] == u);
        if u < 0xd800 || u > 0xdfff {
            out.push(scalar_char(u as u32));
            assert(rest.drop_first() =~= units.skip(i + 1));
            i = i + 1;
        } else if u <= 0xdbff && i + 1 < n && 0xdc00 <= wide[i + 1] && wide[i + 1] <= 0xdfff {
            let lo = wide[i + 1];
            assert(rest[1] == lo);
            let v = 0x10000 + (u as u32 - 0xd800) * 0x400 + (lo as u32 - 0xdc00);
            out.push(scalar_char(v));
            assert(rest.skip(2) =~= units.skip(i + 2));
            i = i + 2;
        } else {
            out.push('\u{fffd}');
            assert(rest.drop_first() =~= units.skip(i + 1));
            i = i + 1;
        }
        assert(out@.map_values(|c: char| c as u32) =~= before.map_values(|c: char| c as u32).push(
            out@.last() as u32,
        ));
    }
    assert(units.skip(i as int) =~= Seq::<u16>::empty());
    string_from_chars(out.as_slice())
}

proof fn lemma_utf16_prepend(c: char, t: Seq<char>)
    ensures
        utf16(seq![c] + t) == utf16_of(c) + utf16(t),
    decreases t.len(),
{
    if t.len() == 0 {
        assert(seq![c] + t =~= seq![c]);
        assert(seq![c].drop_last() =~= Seq::<char>::empty());
        assert(seq![c].last() == c);
        assert(utf16(seq![c]) =~= utf16(Seq::<char>::empty()) + utf16_of(c));
        assert(utf16(seq![c]) =~= utf16_of(c));
        assert(utf16_of(c) + utf16(t) =~= utf16_of(c));
    } else {
        lemma_utf16_prepend(c, t.drop_last());
        assert((seq![c] + t).drop_last() =~= seq![c] + t.drop_last());
        assert((seq![c] + t).last() == t.last());
        assert(utf16_of(c) + utf16(t) =~= utf16_of(c) + utf16(t.drop_last()) + utf16_of(t.last()));
    }
}

proof fn lemma_char_range(c: char)
    ensures
        (c as u32) <= 0x10ffff,
        (c as u32) < 0xd800 || (c as u32) > 0xdfff,
{
}

proof fn lemma_utf16_no_zero(s: Seq<char>)
    requires
        forall|i: int| 0 <= i < s.len() ==> (#[trigger] s[i]) as u32 != 0,
    ensures
        forall|k: int| 0 <= k < utf16(s).len() ==> #[trigger] utf16(s)[k] != 0,
    decreases s.len(),
{
    if s.len() > 0 {
        let p = s.drop_last();
        assert forall|i: int| 0 <= i < p.len() implies (#[trigger] p[i]) as u32 != 0 by {
            assert(p[i] == s[i]);
        }
        lemma_utf16_no_zero(p);
        let c = s.last();
        assert(s[s.len() - 1] == c);
        let cu = c as u32;
        assert(cu != 0);
        lemma_char_range(c);
        if cu >= 0x10000 {
            let v = cu - 0x10000;
            assert(v / 0x400 < 0x400) by (nonlinear_arith)
                requires
                    v < 0x100000,
            ;
            assert(v % 0x400 < 0x400) by (nonlinear_arith);
        }
        let u = utf16(p) + utf16_of(c);
        assert forall|k: int| 0 <= k < u.len() implies #[trigger] u[k] != 0 by {
            if k >= utf16(p).len() {
                if (c as u32) < 0x10000 {
                    assert(u[k] == (c as u32) as u16);
                }
            } else {
                assert(u[k] == utf16(p)[k]);
            }
        }
    }
}

proof fn lemma_decode_one(c: char, rest: Seq<u16>)
    ensures
        decode_utf16_lossy(utf16_of(c) + rest) == seq![c as u32] + decode_utf16_lossy(rest),
{
    let u = c as u32;
    let units = utf16_of(c) + rest;
    assert(u <= 0x10ffff);
    assert(u < 0xd800 || u > 0xdfff);
    if u < 0x10000 {
        assert(units[0] == u as u16);
        assert(units.drop_first() =~= rest);
    } else {
        let v = u - 0x10000;
        assert(v < 0x100000);
        assert(v / 0x400 < 0x400) by (nonlinear_arith)
            requires
                v < 0x100000,
        ;
        assert(v == (v / 0x400) * 0x400 + v % 0x400) by (nonlinear_arith);
        assert(units[0] == (0xd800 + v / 0x400) as u16);
        assert(units[1] == (0xdc00 + v % 0x400) as u16);
        assert(units.skip(2) =~= rest);
    }
}

proof fn lemma_decode_utf16(s: Seq<char>)
    ensures
        decode_utf16_lossy(utf16(s)) == s.map_values(|c: char| c as u32),
    decreases s.len(),
{
    if s.len() == 0 {
        assert(s.map_values(|c: char| c as u32) =~= Seq::<u32>::empty());
    } else {
        let t = s.drop_first();
        assert(s =~= seq![s[0]] + t);
        lemma_utf16_prepend(s[0], t);
        lemma_decode_one(s[0], utf16(t));
        lemma_decode_utf16(t);
        assert(s.map_values(|c: char| c as u32) =~= seq![s[0] as u32] + t.map_values(
            |c: char| c as u32,
        ));
    }
}

/// A text without NUL characters survives the trip to null-terminated UTF-16
/// and back: `wide_to_string(wide(s))` gives `s` again.
pub proof fn law_wide_round_trip(s: Seq<char>)
    requires
        forall|i: int| 0 <= i < s.len() ==> (#[trigger] s[i]) as u32 != 0,
    ensures
        decode_utf16_lossy(before_nul(utf16(s).push(0))) == s.map_values(|c: char| c as u32),
{
    let u = utf16(s);
    lemma_utf16_no_zero(s);
    assert forall|j: int| 0 <= j < u.len() implies #[trigger] u.push(0)[j] != 0 by {
        assert(u.push(0)[j] == u[j]);
    }
    lemma_before_nul(u.push(0), u.len() as int);
    assert(u.push(0).take(u.len() as int) =~= u);
    lemma_decode_utf16(s);
}

} // verus!
