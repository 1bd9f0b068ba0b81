//! Validation of text that users type in, and how emails are shown.

use vstd::prelude::*;
use vstd::utf8::encode_utf8;

use crate::config::Config;
use crate::text::{chars_of, nat_text, push_char, push_nat_text, strip_suffix, stripped, zero_padded};

verus! {

/// What a character of user text is found to be.
#[derive(Copy, Clone, Debug, PartialEq, Eq, Structural)]
pub enum CharVerdict {
    Allowed,
    Control,
    Invalid,
}

/// Control characters (below U+0020, so newlines too) are refused; General
/// Punctuation (U+2000 up to U+206F) is allowed; beyond that, everything from
/// U+0780 (after Arabic) up is refused.
pub open spec fn char_verdict(c: char) -> CharVerdict {
    if (c as u32) < 0x20 {
        CharVerdict::Control
    } else if 0x2000 <= (c as u32) && (c as u32) < 0x2070 {
        CharVerdict::Allowed
    } else if (c as u32) >= 0x780 {
        CharVerdict::Invalid
    } else {
        CharVerdict::Allowed
    }
}

/// The uppercase hexadecimal digit of a value below sixteen.
pub open spec fn hex_digit_char(d: nat) -> char {
    if d < 10 {
        ((d + ('0' as int)) as u32) as char
    } else {
        ((d - 10 + ('A' as int)) as u32) as char
    }
}

/// The shortest uppercase hexadecimal text of a natural number.
pub open spec fn hex_text(n: nat) -> Seq<char>
    decreases n,
{
    if n < 16 {
        seq![hex_digit_char(n)]
    } else {
        hex_text(n / 16).push(hex_digit_char(n % 16))
    }
}

pub open spec fn empty_message(label: Seq<char>) -> Seq<char> {
    label + " must not be empty."@
}

pub open spec fn too_long_message(label: Seq<char>, max_len: nat) -> Seq<char> {
    label + " may not be longer than "@ + nat_text(max_len) + " bytes."@
}

pub open spec fn control_message(label: Seq<char>) -> Seq<char> {
    label + " may not contain control characters (including newlines)."@
}

pub open spec fn invalid_message(label: Seq<char>, c: char) -> Seq<char> {
    label + " contains an invalid character: \u{2018}"@ + seq![c] + "\u{2019} (U+"@
        + zero_padded(hex_text((c as u32) as nat), 4) + ") is not allowed."@
}

/// The verdict on the characters of `s`: the first character that is not
/// allowed decides the message.
pub open spec fn scan_chars(label: Seq<char>, s: Seq<char>) -> Result<(), Seq<char>>
    decreases s.len(),
{
    if s.len() == 0 {
        Ok(())
    } else {
        match char_verdict(s[0]) {
            CharVerdict::Control => Err(control_message(label)),
            CharVerdict::Invalid => Err(invalid_message(label, s[0])),
            CharVerdict::Allowed => scan_chars(label, s.drop_first()),
        }
    }
}

/// The verdict on user text: it must not be empty, its UTF-8 encoding must
/// not be longer than `max_len` bytes, and its characters must be allowed.
pub open spec fn validation(label: Seq<char>, max_len: nat, input: Seq<char>) -> Result<(), Seq<char>> {
    if input.len() == 0 {
        Err(empty_message(label))
    } else if encode_utf8(input).len() > max_len {
        Err(too_long_message(label, max_len))
    } else {
        scan_chars(label, input)
    }
}

fn verdict_of(c: char) -> (r: CharVerdict)
    ensures
        r == char_verdict(c),
{
    let v = c as u32;
    if v < 0x20 {
        CharVerdict::Control
    } else if 0x2000 <= v && v < 0x2070 {
        CharVerdict::Allowed
    } else if v >= 0x780 {
        CharVerdict::Invalid
    } else {
        CharVerdict::Allowed
    }
}

fn hex_digit(d: u32) -> (c: char)
    requires
        d < 16,
    ensures
        c == hex_digit_char(d as nat),
{
    if d < 10 {
        let b: u8 = 48u8 + (d as u8);
        b as char
    } else {
        let b: u8 = 55u8 + (d as u8);
        b as char
    }
}

/// Appends the uppercase hexadecimal text of `n`.
fn push_hex_text(out: &mut String, n: u32)
    ensures
        final(out)@ == old(out)@ + hex_text(n as nat),
    decreases n,
{
    if n >= 16 {
        push_hex_text(out, n / 16);
    }
    push_char(out, hex_digit(n % 16));
    assert(final(out)@ =~= old(out)@ + hex_text(n as nat)) by {
        if n >= 16 {
            assert(hex_text(n as nat) == hex_text((n / 16) as nat).push(hex_digit_char((n % 16) as nat)));
        }
    }
}

/// Appends the hexadecimal text of `n`, padded with zeros to four characters.
fn push_hex4(out: &mut String, n: u32)
    ensures
        final(out)@ == old(out)@ + zero_padded(hex_text(n as nat), 4),
{
    let mut digits = String::new();
    push_hex_text(&mut digits, n);
    assert(digits@ =~= hex_text(n as nat));
    let ghost start = out@;
    // Pad up to the number of digits that four would need.
    let pad: u32 = if n < 0x10 {
        3
    } else if n < 0x100 {
        2
    } else if n < 0x1000 {
        1
    } else {
        0
    };
    proof {
        lemma_hex_len_exact(n as nat);
    }
    let mut k: u32 = 0;
    while k < pad
        invariant
            k <= pad,
            out@ == start + Seq::new(k as nat, |i: int| '0'),
        decreases pad - k,
    {
        push_char(out, '0');
        k = k + 1;
        assert(out@ =~= start + Seq::new(k as nat, |i: int| '0'));
    }
    out.append(digits.as_str());
    assert(out@ =~= start + zero_padded(hex_text(n as nat), 4));
}

proof fn lemma_hex_len_exact(n: nat)
    ensures
        n < 0x10 ==> hex_text(n).len() == 1,
        0x10 <= n < 0x100 ==> hex_text(n).len() == 2,
        0x100 <= n < 0x1000 ==> hex_text(n).len() == 3,
        0x1000 <= n ==> hex_text(n).len() >= 4,
    decreases n,
{
    if n >= 16 {
        lemma_hex_len_exact(n / 16);
    }
}

fn err_with(label: &str, tail: &str) -> (r: Result<(), String>)
    ensures
        r matches Err(e) && e@ == label@ + tail@,
{
    let mut msg = String::new();
    msg.append(label);
    msg.append(tail);
    assert(msg@ =~= label@ + tail@);
    Err(msg)
}

/// Validate user input against a length limit and a subset of Unicode.
///
/// Users should be able to type text, but allowing any code point invites
/// distracting emoji, text direction overrides and "markup" with
/// mathematical symbols. So most of Unicode is refused, while Latin, Greek,
/// Cyrillic and a few more scripts pass, for names like Tomás and Mikołaj.
///
/// Returns a description of the violation on error.
pub fn validate_string(label: &str, max_len: usize, input: &str) -> (r: Result<(), String>)
    ensures
        match r {
            Ok(()) => validation(label@, max_len as nat, input@) is Ok,
            Err(e) => validation(label@, max_len as nat, input@) == Err::<(), Seq<char>>(e@),
        },
{
    if input.is_empty() {
        return err_with(label, " must not be empty.");
    }
    if input.as_bytes().len() > max_len {
        let mut msg = String::new();
        msg.append(label);
        msg.append(" may not be longer than ");
        push_nat_text(&mut msg, max_len as u64);
        msg.append(" bytes.");
        assert(msg@ =~= too_long_message(label@, max_len as nat));
        return Err(msg);
    }
    let cs = chars_of(input);
    assert(input@.subrange(0, input@.len() as int) =~= input@);
    let mut i: usize = 0;
    while i < cs.len()
        invariant
            cs@ == input@,
            i <= cs.len(),
            validation(label@, max_len as nat, input@) == scan_chars(label@, input@),
            scan_chars(label@, input@) == scan_chars(label@, input@.subrange(i as int, input@.len() as int)),
        decreases cs.len() - i,
    {
        let ch = cs[i];
        let ghost rest = input@.subrange(i as int, input@.len() as int);
        assert(rest[0] == ch);
        assert(rest.drop_first() =~= input@.subrange(i + 1, input@.len() as int));
        match verdict_of(ch) {
            CharVerdict::Control => {
                return err_with(label, " may not contain control characters (including newlines).");
            },
            CharVerdict::Invalid => {
                let mut msg = String::new();
                msg.append(label);
                msg.append(" contains an invalid character: \u{2018}");
                push_char(&mut msg, ch);
                msg.append("\u{2019} (U+");
                push_hex4(&mut msg, ch as u32);
                msg.append(") is not allowed.");
                assert(msg@ =~= invalid_message(label@, ch));
                return Err(msg);
            },
            CharVerdict::Allowed => {},
        }
        i = i + 1;
    }
    assert(input@.subrange(i as int, input@.len() as int).len() == 0);
    Ok(())
}

/// How an email is shown: without the configured suffix, when it has it.
pub fn view_email(config: &Config, email: &str) -> (r: String)
    ensures
        r@ == match stripped(email@, config.app.email_suffix@) {
            Some(s) => s,
            None => email@,
        },
{
    match strip_suffix(email, config.app.email_suffix.as_str()) {
        Some(s) => s,
        None => email.to_owned(),
    }
}

} // verus!
