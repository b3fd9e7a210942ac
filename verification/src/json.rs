//! Quoting text as a JSON string, for the command line's `--json` output.
use crate::fmt::push_char;
use crate::text::str_chars;
use vstd::prelude::*;

verus! {

pub open spec fn hex_digit(d: nat) -> char {
    if d < 10 {
        crate::fmt::digit_char(d)
    } else if d == 10 {
        'a'
    } else if d == 11 {
        'b'
    } else if d == 12 {
        'c'
    } else if d == 13 {
        'd'
    } else if d == 14 {
        'e'
    } else {
        'f'
    }
}

/// How one character appears inside a JSON string.
pub open spec fn json_char(c: char) -> Seq<char> {
    if c == '"' {
        seq!['\\', '"']
    } else if c == '\\' {
        seq!['\\', '\\']
    } else if c == '\n' {
        seq!['\\', 'n']
    } else if c == '\r' {
        seq!['\\', 'r']
    } else if c == '\t' {
        seq!['\\', 't']
    } else if (c as u32) < 0x20 {
        seq!['\\', 'u', '0', '0', hex_digit((c as u32 / 16) as nat), hex_digit((c as u32 % 16) as nat)]
    } else {
        seq![c]
    }
}

pub open spec fn json_body(s: Seq<char>) -> Seq<char>
    decreases s.len(),
{
    if s.len() == 0 {
        seq![]
    } else {
        json_body(s.drop_last()) + json_char(s.last())
    }
}

/// `s` as a JSON string literal, quotes included.
pub open spec fn json_string(s: Seq<char>) -> Seq<char> {
    seq!['"'] + json_body(s) + seq!['"']
}

fn hex(d: u32) -> (c: char)
    requires
        d < 16,
    ensures
        c == hex_digit(d as nat),
{
    match d {
        0 => '0',
        1 => '1',
        2 => '2',
        3 => '3',
        4 => '4',
        5 => '5',
        6 => '6',
        7 => '7',
        8 => '8',
        9 => '9',
        10 => 'a',
        11 => 'b',
        12 => 'c',
        13 => 'd',
        14 => 'e',
        _ => 'f',
    }
}

fn push_json_char(out: &mut String, c: char)
    ensures
        final(out)@ == old(out)@ + json_char(c),
{
    let u = c as u32;
    if c == '"' {
        push_char(out, '\\');
        push_char(out, '"');
    } else if c == '\\' {
        push_char(out, '\\');
        push_char(out, '\\');
    } else if c == '\n' {
        push_char(out, '\\');
        push_char(out, 'n');
    } else if c == '\r' {
        push_char(out, '\\');
        push_char(out, 'r');
    } else if c == '\t' {
        push_char(out, '\\');
        push_char(out, 't');
    } else if u < 0x20 {
        push_char(out, '\\');
        push_char(out, 'u');
        push_char(out, '0');
        push_char(out, '0');
        push_char(out, hex(u / 16));
        push_char(out, hex(u % 16));
    } else {
        push_char(out, c);
    }
    proof {
        assert(final(out)@ =~= old(out)@ + json_char(c));
    }
}

/// Escapes a string for embedding in JSON output, surrounding quotes
/// included. Only flag names, keys and error messages pass through here.
pub fn json_escape(s: &str) -> (out: String)
    ensures
        out@ == json_string(s@),
{
    let chars = str_chars(s);
    let mut out = String::new();
    push_char(&mut out, '"');
    let mut i: usize = 0;
    while i < chars.len()
        invariant
            i <= chars.len(),
            out@ == seq!['"'] + json_body(chars@.take(i as int)),
        decreases chars.len() - i,
    {
        let ghost before = out@;
        push_json_char(&mut out, chars[i]);
        proof {
            assert(chars@.take(i + 1).drop_last() =~= chars@.take(i as int));
            assert(out@ =~= seq!['"'] + json_body(chars@.take(i + 1)));
        }
        i += 1;
    }
    push_char(&mut out, '"');
    proof {
        assert(chars@.take(chars@.len() as int) =~= s@);
        assert(out@ =~= json_string(s@));
    }
    out
}

/// The value of a hexadecimal digit, either case.
pub open spec fn hex_value(c: char) -> Option<nat> {
    let u = c as u32;
    if 48 <= u <= 57 {
        Some((u - 48) as nat)
    } else if 97 <= u <= 102 {
        Some((u - 87) as nat)
    } else if 65 <= u <= 70 {
        Some((u - 55) as nat)
    } else {
        None
    }
}

/// `c` in front of the decoding of `rest`, if that decodes.
pub open spec fn decoded_cons(c: char, rest: Option<Seq<char>>) -> Option<Seq<char>> {
    match rest {
        Some(r) => Some(seq![c] + r),
        None => None,
    }
}

/// The text that the inside of a JSON string literal stands for (RFC 8259):
/// `None` for a raw `"` or control character, or an unknown escape. A
/// `\u` escape of a UTF-16 surrogate is not decoded here (`None`).
pub open spec fn json_unescape(t: Seq<char>) -> Option<Seq<char>>
    decreases t.len(),
{
    if t.len() == 0 {
        Some(seq![])
    } else if t[0] == '"' || (t[0] as u32) < 0x20 {
        None
    } else if t[0] != '\\' {
        decoded_cons(t[0], json_unescape(t.drop_first()))
    } else if t.len() < 2 {
        None
    } else if t[1] == '"' || t[1] == '\\' || t[1] == '/' {
        decoded_cons(t[1], json_unescape(t.skip(2)))
    } else if t[1] == 'b' {
        decoded_cons('\u{8}', json_unescape(t.skip(2)))
    } else if t[1] == 'f' {
        decoded_cons('\u{c}', json_unescape(t.skip(2)))
    } else if t[1] == 'n' {
        decoded_cons('\n', json_unescape(t.skip(2)))
    } else if t[1] == 'r' {
        decoded_cons('\r', json_unescape(t.skip(2)))
    } else if t[1] == 't' {
        decoded_cons('\t', json_unescape(t.skip(2)))
    } else if t[1] == 'u' && t.len() >= 6 && hex_value(t[2]) is Some && hex_value(t[3]) is Some
        && hex_value(t[4]) is Some && hex_value(t[5]) is Some {
        let v = hex_value(t[2])->0 * 4096 + hex_value(t[3])->0 * 256 + hex_value(t[4])->0 * 16
            + hex_value(t[5])->0;
        if 0xD800 <= v <= 0xDFFF {
            None
        } else {
            decoded_cons((v as u32) as char, json_unescape(t.skip(6)))
        }
    } else {
        None
    }
}

proof fn lemma_unescape_unit(c: char, rest: Seq<char>)
    ensures
        json_unescape(json_char(c) + rest) == decoded_cons(c, json_unescape(rest)),
{
    let t = json_char(c) + rest;
    let u = c as u32;
    if c == '"' || c == '\\' || c == '\n' || c == '\r' || c == '\t' {
        assert(t.skip(2) =~= rest);
    } else if u < 0x20 {
        assert(t.skip(6) =~= rest);
        let h1 = (u / 16) as nat;
        let h0 = (u % 16) as nat;
        assert(hex_value(hex_digit(h1)) == Some(h1));
        assert(hex_value(hex_digit(h0)) == Some(h0));
        assert(t[2] == '0' && t[3] == '0' && t[4] == hex_digit(h1) && t[5] == hex_digit(h0));
        let v = 0 * 4096 + 0 * 256 + h1 * 16 + h0;
        assert(v == u);
        vstd::utf8::char_u32_cast(c, v as u32);
    } else {
        assert(t[0] == c);
        assert(t.drop_first() =~= rest);
    }
}

proof fn lemma_unescape_body(s: Seq<char>, rest: Seq<char>)
    ensures
        json_unescape(json_body(s) + rest) == match json_unescape(rest) {
            Some(r) => Some(s + r),
            None => None,
        },
    decreases s.len(),
{
    if s.len() == 0 {
        assert(json_body(s) + rest =~= rest);
        if let Some(r) = json_unescape(rest) {
            assert(s + r =~= r);
        }
    } else {
        let p = s.drop_last();
        let c = s.last();
        assert(json_body(s) + rest =~= json_body(p) + (json_char(c) + rest));
        lemma_unescape_body(p, json_char(c) + rest);
        lemma_unescape_unit(c, rest);
        if let Some(r) = json_unescape(rest) {
            assert(p + (seq![c] + r) =~= s + r);
        }
    }
}

/// What `json_escape` writes is a JSON string literal: it starts and ends
/// with `"`, holds no control character, and what lies between the quotes
/// decodes to exactly the text that was escaped.
pub proof fn law_json_escape_decodes(s: Seq<char>)
    ensures
        json_string(s).len() >= 2,
        json_string(s)[0] == '"',
        json_string(s).last() == '"',
        forall|i: int| 0 <= i < json_string(s).len() ==> (#[trigger] json_string(s)[i] as u32) >= 0x20,
        json_string(s) == seq!['"'] + json_body(s) + seq!['"'],
        json_unescape(json_body(s)) == Some(s),
{
    lemma_unescape_body(s, Seq::empty());
    assert(json_body(s) + Seq::<char>::empty() =~= json_body(s));
    assert(s + Seq::<char>::empty() =~= s);
    lemma_no_control(s);
    let j = json_string(s);
    assert forall|i: int| 0 <= i < j.len() implies (#[trigger] j[i] as u32) >= 0x20 by {
        if 0 < i < j.len() - 1 {
            assert(j[i] == json_body(s)[i - 1]);
        }
    }
}

proof fn lemma_no_control(s: Seq<char>)
    ensures
        forall|i: int| 0 <= i < json_body(s).len() ==> (#[trigger] json_body(s)[i] as u32) >= 0x20,
    decreases s.len(),
{
    if s.len() > 0 {
        lemma_no_control(s.drop_last());
        let p = json_body(s.drop_last());
        let q = json_char(s.last());
        let c = s.last();
        assert forall|k: int| 0 <= k < q.len() implies (#[trigger] q[k] as u32) >= 0x20 by {
            if (c as u32) < 0x20 && c != '\n' && c != '\r' && c != '\t' {
                let u = c as u32;
                assert(u / 16 < 16 && u % 16 < 16);
            }
        }
        assert forall|i: int| 0 <= i < json_body(s).len() implies (#[trigger] json_body(s)[i] as u32) >= 0x20 by {
            if i < p.len() {
                assert(json_body(s)[i] == p[i]);
            } else {
                assert(json_body(s)[i] == q[i - p.len()]);
            }
        }
    }
}

} // verus!
