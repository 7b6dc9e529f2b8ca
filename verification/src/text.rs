//! Building the text of a STEP file character by character.

use vstd::prelude::*;

verus! {

/// `String::push` appends one character.
pub assume_specification[ std::string::String::push ](s: &mut std::string::String, c: char)
    ensures
        final(s)@ == old(s)@.push(c),
;

/// The characters of a string, for scanning by index.
pub fn text_chars(s: &str) -> (out: Vec<char>)
    ensures
        out@ == s@,
{
    let mut out: Vec<char> = Vec::new();
    for c in it: s.chars()
        invariant
            it.seq() == s@,
            out@ == s@.subrange(0, it.index() as int),
    {
        out.push(c);
        assert(out@ =~= s@.subrange(0, it.index() + 1));
    }
    assert(s@.subrange(0, s@.len() as int) =~= s@);
    out
}

/// Whether two texts have the same characters.
pub(crate) fn same_text(a: &str, b: &str) -> (same: bool)
    ensures
        same == (a@ == b@),
{
    let left = text_chars(a);
    let right = text_chars(b);
    if left.len() != right.len() {
        return false;
    }
    let mut i: usize = 0;
    while i < left.len()
        invariant
            i <= left.len(),
            left@ == a@,
            right@ == b@,
            left.len() == right.len(),
            forall|k: int| 0 <= k < i ==> a@[k] == b@[k],
        decreases left.len() - i,
    {
        if left[i] != right[i] {
            return false;
        }
        i = i + 1;
    }
    assert(a@ =~= b@);
    true
}

/// Appends `chars[from..to]`.
pub fn push_range(out: &mut String, chars: &Vec<char>, from: usize, to: usize)
    requires
        from <= to <= chars.len(),
    ensures
        final(out)@ == old(out)@ + chars@.subrange(from as int, to as int),
{
    let mut i: usize = from;
    while i < to
        invariant
            from <= i <= to <= chars.len(),
            out@ == old(out)@ + chars@.subrange(from as int, i as int),
        decreases to - i,
    {
        out.push(chars[i]);
        i = i + 1;
        assert(chars@.subrange(from as int, i as int) =~= chars@.subrange(from as int, i - 1).push(
            chars@[i - 1],
        ));
    }
}

/// The character of a decimal digit.
pub open spec fn digit_char(d: int) -> char {
    (48 + d) as char
}

/// A number in decimal digits without leading zeros.
pub open spec fn decimal(n: nat) -> Seq<char>
    decreases n,
{
    if n < 10 {
        seq![digit_char(n as int)]
    } else {
        decimal(n / 10).push(digit_char((n % 10) as int))
    }
}

/// A signed number in decimal digits.
pub open spec fn signed_decimal(n: int) -> Seq<char> {
    if n < 0 {
        seq!['-'] + decimal((-n) as nat)
    } else {
        decimal(n as nat)
    }
}

/// Appends a number in decimal.
pub fn push_decimal(out: &mut String, n: u64)
    ensures
        final(out)@ == old(out)@ + decimal(n as nat),
    decreases n,
{
    if n < 10 {
        out.push((48u8 + n as u8) as char);
        assert(out@ =~= old(out)@ + decimal(n as nat));
    } else {
        push_decimal(out, n / 10);
        out.push((48u8 + (n % 10) as u8) as char);
        assert(out@ =~= old(out)@ + decimal(n as nat));
    }
}

/// Appends a signed number in decimal.
pub fn push_signed(out: &mut String, n: i64)
    ensures
        final(out)@ == old(out)@ + signed_decimal(n as int),
{
    if n < 0 {
        out.push('-');
        let magnitude: u64 = if n == i64::MIN {
            9_223_372_036_854_775_808
        } else {
            (-n) as u64
        };
        push_decimal(out, magnitude);
        assert(out@ =~= old(out)@ + signed_decimal(n as int));
    } else {
        push_decimal(out, n as u64);
    }
}

/// The upper-case hexadecimal digit of a value below sixteen.
pub open spec fn hex_char(d: int) -> char {
    if d < 10 {
        (48 + d) as char
    } else {
        (55 + d) as char
    }
}

/// A 16-bit unit as four upper-case hexadecimal digits.
pub open spec fn hex_unit(unit: int) -> Seq<char> {
    seq![
        hex_char(unit / 4096),
        hex_char((unit / 256) % 16),
        hex_char((unit / 16) % 16),
        hex_char(unit % 16),
    ]
}

/// The UTF-16 units of a character, each as four hexadecimal digits.
pub open spec fn utf16_hex(c: char) -> Seq<char> {
    let code = c as int;
    if code < 0x10000 {
        hex_unit(code)
    } else {
        hex_unit(0xD800 + (code - 0x10000) / 0x400) + hex_unit(0xDC00 + (code - 0x10000) % 0x400)
    }
}

fn hex_digit(d: u32) -> (c: char)
    requires
        d < 16,
    ensures
        c == hex_char(d as int),
{
    if d < 10 {
        (48u8 + d as u8) as char
    } else {
        (55u8 + d as u8) as char
    }
}

fn push_hex_unit(out: &mut String, unit: u32)
    requires
        unit < 0x10000,
    ensures
        final(out)@ == old(out)@ + hex_unit(unit as int),
{
    out.push(hex_digit(unit / 4096));
    out.push(hex_digit((unit / 256) % 16));
    out.push(hex_digit((unit / 16) % 16));
    out.push(hex_digit(unit % 16));
    assert(out@ =~= old(out)@ + hex_unit(unit as int));
}

fn push_utf16_hex(out: &mut String, c: char)
    ensures
        final(out)@ == old(out)@ + utf16_hex(c),
{
    let code: u32 = c as u32;
    if code < 0x10000 {
        push_hex_unit(out, code);
    } else {
        assert(code <= 0x10FFFF);
        let offset: u32 = code - 0x10000;
        push_hex_unit(out, 0xD800 + offset / 0x400);
        push_hex_unit(out, 0xDC00 + offset % 0x400);
        assert(out@ =~= old(out)@ + utf16_hex(c));
    }
}

/// Whether a character stands for itself in a STEP string. The apostrophe does not: it is
/// escaped like a character outside ASCII.
pub open spec fn is_plain(c: char) -> bool {
    (c as int) < 128 && c != '\''
}

fn plain_char(c: char) -> (plain: bool)
    ensures
        plain == is_plain(c),
{
    (c as u32) < 128 && c != '\''
}

/// The rest of a string, where `open` tells whether an escaped run has been begun.
pub open spec fn escaped(s: Seq<char>, open: bool) -> Seq<char>
    decreases s.len(),
{
    if s.len() == 0 {
        if open {
            "\\X0\\"@
        } else {
            Seq::empty()
        }
    } else if is_plain(s[0]) {
        (if open {
            "\\X0\\"@
        } else {
            Seq::empty()
        }) + seq![s[0]] + escaped(s.drop_first(), false)
    } else {
        (if open {
            Seq::empty()
        } else {
            "\\X2\\"@
        }) + utf16_hex(s[0]) + escaped(s.drop_first(), true)
    }
}

/// A string as a STEP file holds it: in apostrophes, with each longest run of characters
/// that are not plain written as UTF-16 between `\X2\` and `\X0\`.
pub open spec fn step_string(s: Seq<char>) -> Seq<char> {
    seq!['\''] + escaped(s, false) + seq!['\'']
}

/// Appends a string in STEP form.
pub fn write_step_string(s: &str, out: &mut String)
    ensures
        final(out)@ == old(out)@ + step_string(s@),
{
    let chars = text_chars(s);
    out.push('\'');
    let mut open = false;
    let mut i: usize = 0;
    let ghost goal = old(out)@ + seq!['\''] + escaped(s@, false);
    assert(s@.skip(0) =~= s@);
    assert(out@ + escaped(s@.skip(0), false) =~= goal);
    while i < chars.len()
        invariant
            i <= chars.len(),
            chars@ == s@,
            out@ + escaped(s@.skip(i as int), open) == goal,
        decreases chars.len() - i,
    {
        let c = chars[i];
        let ghost rest = s@.skip(i as int);
        let ghost before = out@;
        let ghost was_open = open;
        assert(rest[0] == c && rest.drop_first() =~= s@.skip(i + 1));
        if plain_char(c) {
            if open {
                out.append("\\X0\\");
            }
            out.push(c);
            open = false;
        } else {
            if !open {
                out.append("\\X2\\");
            }
            push_utf16_hex(out, c);
            open = true;
        }
        i = i + 1;
        let ghost tail = escaped(s@.skip(i as int), open);
        proof {
            let close = if was_open { "\\X0\\"@ } else { Seq::<char>::empty() };
            let begin = if was_open { Seq::<char>::empty() } else { "\\X2\\"@ };
            if is_plain(c) {
                assert(out@ =~= before + (close + seq![c]));
                assert(out@ + tail =~= before + (close + seq![c] + tail));
            } else {
                assert(out@ =~= before + (begin + utf16_hex(c)));
                assert(out@ + tail =~= before + (begin + utf16_hex(c) + tail));
            }
            assert(out@ + tail == before + escaped(rest, was_open));
        }
    }
    if open {
        out.append("\\X0\\");
    }
    out.push('\'');
    assert(s@.skip(s@.len() as int).len() == 0);
    assert(out@ =~= goal + seq!['\'']);
    assert(goal + seq!['\''] =~= old(out)@ + step_string(s@));
}

} // verus!
