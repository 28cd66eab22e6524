//! Reading and writing `.properties` files (the format of `java.util.Properties`), so a
//! `stored.rules` index can be read and written by other tools that know that format.
//!
//! Properties are held as key/value pairs in increasing order of the keys, each key once,
//! as a `BTreeMap` would hold them.

use vstd::prelude::*;
use vstd::string::*;

use crate::order::{lex_lt, str_lt, strictly_sorted};
use crate::text::{chars_of, decimal, decimal_string, push_char, string_of, views};

verus! {

// ---- lines ----------------------------------------------------------------------------------

/// `line` without one trailing carriage return.
pub open spec fn strip_cr(line: Seq<char>) -> Seq<char> {
    if line.len() > 0 && line.last() == '\r' { line.drop_last() } else { line }
}

/// The lines of `text` from position `i` on (`str::lines`): split at `\n`, a `\r` right
/// before a `\n` dropped, no empty line after a final `\n`.
pub open spec fn lines_from(text: Seq<char>, i: int, current: Seq<char>, acc: Seq<Seq<char>>) -> Seq<Seq<char>>
    decreases text.len() - i,
{
    if i >= text.len() {
        if current.len() > 0 { acc.push(current) } else { acc }
    } else if text[i] == '\n' {
        lines_from(text, i + 1, Seq::empty(), acc.push(strip_cr(current)))
    } else {
        lines_from(text, i + 1, current.push(text[i]), acc)
    }
}

/// The lines of `text` (`str::lines`).
pub open spec fn text_lines(text: Seq<char>) -> Seq<Seq<char>> {
    lines_from(text, 0, Seq::empty(), Seq::empty())
}

/// The lines of `text`.
pub fn lines(text: &str) -> (r: Vec<Vec<char>>)
    ensures
        crate::text::char_views(r@) == text_lines(text@),
{
    let t = chars_of(text);
    let mut r: Vec<Vec<char>> = Vec::new();
    let mut current: Vec<char> = Vec::new();
    let mut i: usize = 0;
    proof {
        assert(crate::text::char_views(r@) =~= Seq::<Seq<char>>::empty());
    }
    while i < t.len()
        invariant
            t@ == text@,
            i <= t@.len(),
            lines_from(t@, 0, Seq::empty(), Seq::empty()) == lines_from(t@, i as int, current@, crate::text::char_views(r@)),
        decreases t@.len() - i,
    {
        if t[i] == '\n' {
            let ghost before = crate::text::char_views(r@);
            let ghost cur = current@;
            if current.len() > 0 && current[current.len() - 1] == '\r' {
                current.pop();
            }
            r.push(current);
            current = Vec::new();
            proof {
                assert(crate::text::char_views(r@) =~= before.push(strip_cr(cur)));
                assert(current@ =~= Seq::<char>::empty());
            }
        } else {
            current.push(t[i]);
        }
        i += 1;
    }
    if current.len() > 0 {
        let ghost before = crate::text::char_views(r@);
        let ghost cur = current@;
        r.push(current);
        proof {
            assert(crate::text::char_views(r@) =~= before.push(cur));
        }
    }
    r
}

// ---- hexadecimal --------------------------------------------------------------------------

/// The value of a hexadecimal digit, if `c` is one.
pub open spec fn hex_digit_value(c: char) -> Option<nat> {
    if '0' <= c && c <= '9' {
        Some((c as nat - '0' as nat) as nat)
    } else if 'a' <= c && c <= 'f' {
        Some((c as nat - 'a' as nat + 10) as nat)
    } else if 'A' <= c && c <= 'F' {
        Some((c as nat - 'A' as nat + 10) as nat)
    } else {
        None
    }
}

/// The value of the hexadecimal digits `s`, if all of them are digits.
pub open spec fn hex_digits_value(s: Seq<char>) -> Option<nat>
    decreases s.len(),
{
    if s.len() == 0 {
        Some(0)
    } else {
        match (hex_digits_value(s.drop_last()), hex_digit_value(s.last())) {
            (Some(a), Some(b)) => Some(a * 16 + b),
            _ => None,
        }
    }
}

/// What `u32::from_str_radix(s, 16)` reads of up to four characters: digits after an
/// optional `+`, at least one of them.
pub open spec fn hex_value(s: Seq<char>) -> Option<nat> {
    let digits = if s.len() > 0 && s[0] == '+' { s.drop_first() } else { s };
    if digits.len() == 0 { None } else { hex_digits_value(digits) }
}

fn hex_digit(c: char) -> (r: Option<u32>)
    ensures
        match hex_digit_value(c) {
            Some(v) => r == Some(v as u32),
            None => r is None,
        },
{
    if '0' <= c && c <= '9' {
        Some((c as u32) - ('0' as u32))
    } else if 'a' <= c && c <= 'f' {
        Some((c as u32) - ('a' as u32) + 10)
    } else if 'A' <= c && c <= 'F' {
        Some((c as u32) - ('A' as u32) + 10)
    } else {
        None
    }
}

/// `16` to the power `n`.
pub open spec fn pow16(n: nat) -> nat
    decreases n,
{
    if n == 0 { 1 } else { 16 * pow16((n - 1) as nat) }
}

proof fn lemma_hex_digits_bound(s: Seq<char>)
    ensures
        hex_digits_value(s) matches Some(v) ==> v < pow16(s.len()),
        s.len() <= 4 ==> pow16(s.len()) <= 65536,
    decreases s.len(),
{
    reveal_with_fuel(pow16, 5);
    if s.len() > 0 {
        lemma_hex_digits_bound(s.drop_last());
        if let (Some(a), Some(b)) = (hex_digits_value(s.drop_last()), hex_digit_value(s.last())) {
            let p = pow16((s.len() - 1) as nat);
            assert(a + 1 <= p);
            assert(a * 16 + b < p * 16) by (nonlinear_arith)
                requires
                    a + 1 <= p,
                    b < 16,
            ;
        }
    }
}

/// Parses up to four hexadecimal characters as `u32::from_str_radix(s, 16)` does.
fn parse_hex(s: &Vec<char>) -> (r: Option<u32>)
    requires
        s@.len() <= 4,
    ensures
        match hex_value(s@) {
            Some(v) => r == Some(v as u32),
            None => r is None,
        },
{
    let mut start: usize = 0;
    if s.len() > 0 && s[0] == '+' {
        start = 1;
    }
    let ghost digits = if s@.len() > 0 && s@[0] == '+' { s@.drop_first() } else { s@ };
    if start == s.len() {
        return None;
    }
    let mut value: u32 = 0;
    let mut i: usize = start;
    proof {
        assert(digits =~= s@.subrange(start as int, s@.len() as int));
        assert(s@.subrange(start as int, start as int) =~= Seq::<char>::empty());
    }
    while i < s.len()
        invariant
            start <= i <= s@.len(),
            s@.len() <= 4,
            digits == s@.subrange(start as int, s@.len() as int),
            digits == (if s@.len() > 0 && s@[0] == '+' { s@.drop_first() } else { s@ }),
            hex_digits_value(s@.subrange(start as int, i as int)) == Some(value as nat),
            value < pow16((i - start) as nat),
        decreases s@.len() - i,
    {
        proof {
            assert(s@.subrange(start as int, i + 1).drop_last() =~= s@.subrange(start as int, i as int));
            assert(s@.subrange(start as int, i + 1).last() == s@[i as int]);
        }
        match hex_digit(s[i]) {
            Some(d) => {
                proof {
                    reveal_with_fuel(pow16, 5);
                    let p = pow16((i - start) as nat);
                    assert(p <= 4096);
                    assert(value * 16 + d < p * 16) by (nonlinear_arith)
                        requires
                            value < p,
                            d < 16,
                    ;
                    assert(pow16((i + 1 - start) as nat) == p * 16);
                }
                value = value * 16 + d;
            },
            None => {
                proof {
                    let prefix = s@.subrange(start as int, i + 1);
                    assert(hex_digits_value(prefix) is None);
                    assert(prefix.is_prefix_of(digits));
                    lemma_hex_none_extends(prefix, digits);
                    assert(digits.len() > 0);
                    assert(hex_digits_value(digits) is None);
                    assert(hex_value(s@) is None);
                }
                return None;
            },
        }
        i += 1;
    }
    Some(value)
}

/// A prefix with a non-digit makes the whole fail.
proof fn lemma_hex_none_extends(prefix: Seq<char>, s: Seq<char>)
    requires
        prefix.is_prefix_of(s),
        hex_digits_value(prefix) is None,
    ensures
        hex_digits_value(s) is None,
    decreases s.len(),
{
    if s.len() > prefix.len() {
        assert(prefix.is_prefix_of(s.drop_last()));
        lemma_hex_none_extends(prefix, s.drop_last());
    } else {
        assert(prefix =~= s);
    }
}

/// Whether `v` is the code of a `char`.
pub open spec fn is_char_code(v: nat) -> bool {
    v <= 0x10FFFF && !(0xD800 <= v && v <= 0xDFFF)
}

/// The character of code `v` (`char::from_u32`): `None` for a surrogate or a value beyond
/// the last code point, else the character of that code.
#[verifier::external_body]
fn char_from_u32(v: u32) -> (r: Option<char>)
    ensures
        r is Some <==> is_char_code(v as nat),
        r matches Some(c) ==> c as u32 == v,
{
    char::from_u32(v)
}

proof fn lemma_char_code_value(c: char, v: nat)
    requires
        (c as u32) as nat == v,
    ensures
        v as char == c,
{
}

/// The uppercase hexadecimal digit of `d`.
pub open spec fn hex_char(d: nat) -> char {
    if d < 10 {
        ('0' as nat + d) as char
    } else {
        ('A' as nat + d - 10) as char
    }
}

/// The uppercase hexadecimal digits of `v`, without leading zeros (`0` for zero).
pub open spec fn hex_text(v: nat) -> Seq<char>
    decreases v,
{
    if v < 16 { seq![hex_char(v)] } else { hex_text(v / 16).push(hex_char(v % 16)) }
}

/// `v` in uppercase hexadecimal, padded with zeros to four digits (`{:04X}`).
pub open spec fn hex4(v: nat) -> Seq<char> {
    let t = hex_text(v);
    if t.len() >= 4 { t } else { Seq::new((4 - t.len()) as nat, |i: int| '0') + t }
}

fn hex_char_of(d: u32) -> (r: char)
    requires
        d < 16,
    ensures
        r == hex_char(d as nat),
{
    if d == 0 { '0' } else if d == 1 { '1' } else if d == 2 { '2' } else if d == 3 { '3' }
    else if d == 4 { '4' } else if d == 5 { '5' } else if d == 6 { '6' } else if d == 7 { '7' }
    else if d == 8 { '8' } else if d == 9 { '9' } else if d == 10 { 'A' } else if d == 11 { 'B' }
    else if d == 12 { 'C' } else if d == 13 { 'D' } else if d == 14 { 'E' } else { 'F' }
}

fn hex_text_of(v: u32) -> (r: Vec<char>)
    ensures
        r@ == hex_text(v as nat),
    decreases v,
{
    if v < 16 {
        let mut r: Vec<char> = Vec::new();
        r.push(hex_char_of(v));
        proof {
            assert(r@ =~= seq![hex_char(v as nat)]);
        }
        r
    } else {
        let mut r = hex_text_of(v / 16);
        r.push(hex_char_of(v % 16));
        r
    }
}

/// Appends `v` as four (or more) uppercase hexadecimal digits.
fn push_hex4(out: &mut Vec<char>, v: u32)
    ensures
        final(out)@ == old(out)@ + hex4(v as nat),
{
    let t = hex_text_of(v);
    let mut k: usize = t.len();
    let ghost start = out@;
    while k < 4
        invariant
            t@ == hex_text(v as nat),
            t@.len() <= k <= 4 || (k == t@.len() && k >= 4),
            out@ == start + Seq::new((k - t@.len()) as nat, |i: int| '0'),
        decreases 4 - k,
    {
        out.push('0');
        proof {
            assert(Seq::new((k + 1 - t@.len()) as nat, |i: int| '0') =~= Seq::new((k - t@.len()) as nat, |i: int| '0').push('0'));
        }
        k += 1;
    }
    let mut j: usize = 0;
    let ghost padded = out@;
    while j < t.len()
        invariant
            j <= t@.len(),
            out@ == padded + t@.take(j as int),
        decreases t@.len() - j,
    {
        out.push(t[j]);
        proof {
            assert(t@.take(j + 1) =~= t@.take(j as int).push(t@[j as int]));
        }
        j += 1;
    }
    proof {
        assert(t@.take(t@.len() as int) =~= t@);
        if t@.len() >= 4 {
            assert(Seq::new((k - t@.len()) as nat, |i: int| '0') =~= Seq::<char>::empty());
        }
        assert(out@ =~= start + hex4(v as nat));
    }
}

// ---- unescaping -----------------------------------------------------------------------------

/// What a backslash followed by `c` (other than `u`) stands for.
pub open spec fn escaped_char(c: char) -> char {
    if c == 't' { '\t' } else if c == 'n' { '\n' } else if c == 'r' { '\r' } else if c == 'f' { '\u{c}' } else { c }
}

/// The up to four characters after `\u` at position `i`.
pub open spec fn hex_after(s: Seq<char>, i: int) -> Seq<char> {
    s.subrange(i + 2, if i + 6 <= s.len() { i + 6 } else { s.len() as int })
}

/// `s` from position `i` on with escapes resolved, appended to `acc`: `\t`, `\n`, `\r`,
/// `\f`, `\uXXXX` (left as written when it is no character), a backslash before any other
/// character stands for that character, and a final lone backslash is dropped.
pub open spec fn unescape_from(s: Seq<char>, i: int, acc: Seq<char>) -> Seq<char>
    decreases s.len() - i,
{
    if i < 0 || i >= s.len() {
        acc
    } else if s[i] != '\\' {
        unescape_from(s, i + 1, acc.push(s[i]))
    } else if i + 1 >= s.len() {
        acc
    } else if s[i + 1] == 'u' {
        let hex = hex_after(s, i);
        match hex_value(hex) {
            Some(v) if is_char_code(v) => unescape_from(s, i + 2 + hex.len(), acc.push(v as char)),
            _ => unescape_from(s, i + 2 + hex.len(), acc + seq!['\\', 'u'] + hex),
        }
    } else {
        unescape_from(s, i + 2, acc.push(escaped_char(s[i + 1])))
    }
}

/// `s` with escapes resolved.
pub open spec fn unescaped(s: Seq<char>) -> Seq<char> {
    unescape_from(s, 0, Seq::empty())
}

fn escaped_char_of(c: char) -> (r: char)
    ensures
        r == escaped_char(c),
{
    if c == 't' { '\t' } else if c == 'n' { '\n' } else if c == 'r' { '\r' } else if c == 'f' { '\u{c}' } else { c }
}

/// `s` with escapes resolved.
pub fn unescape(s: &Vec<char>) -> (r: Vec<char>)
    ensures
        r@ == unescaped(s@),
{
    let mut r: Vec<char> = Vec::new();
    let mut i: usize = 0;
    while i < s.len()
        invariant
            i <= s@.len(),
            unescaped(s@) == unescape_from(s@, i as int, r@),
        decreases s@.len() - i,
    {
        if s[i] != '\\' {
            r.push(s[i]);
            i += 1;
        } else if i + 1 >= s.len() {
            return r;
        } else if s[i + 1] == 'u' {
            let end: usize = if s.len() - i >= 6 { i + 6 } else { s.len() };
            let hex = crate::text::slice_chars(s, i + 2, end);
            proof {
                assert(hex@ == hex_after(s@, i as int));
            }
            let decoded = match parse_hex(&hex) {
                Some(v) => char_from_u32(v),
                None => None,
            };
            match decoded {
                Some(c) => {
                    proof {
                        let v = hex_value(hex@)->Some_0;
                        assert(c as u32 == v as u32);
                        assert(v < 0x10000) by {
                            lemma_hex_digits_bound(if hex@.len() > 0 && hex@[0] == '+' { hex@.drop_first() } else { hex@ });
                        }
                        lemma_char_code_value(c, v);
                    }
                    r.push(c);
                },
                None => {
                    let ghost before = r@;
                    r.push('\\');
                    r.push('u');
                    let mut j: usize = 0;
                    while j < hex.len()
                        invariant
                            j <= hex@.len(),
                            r@ == before + seq!['\\', 'u'] + hex@.take(j as int),
                        decreases hex@.len() - j,
                    {
                        r.push(hex[j]);
                        proof {
                            assert(hex@.take(j + 1) =~= hex@.take(j as int).push(hex@[j as int]));
                        }
                        j += 1;
                    }
                    proof {
                        assert(hex@.take(hex@.len() as int) =~= hex@);
                        if let Some(v) = hex_value(hex@) {
                            assert(v < 0x10000) by {
                                lemma_hex_digits_bound(if hex@.len() > 0 && hex@[0] == '+' { hex@.drop_first() } else { hex@ });
                            }
                            assert(!is_char_code(v));
                        }
                    }
                },
            }
            i = end;
        } else {
            r.push(escaped_char_of(s[i + 1]));
            i += 2;
        }
    }
    r
}

// ---- escaping -------------------------------------------------------------------------------

/// How `c` is written: `first` when it opens the text, `is_key` in a key. Separators,
/// comment marks and backslashes are escaped, a space in a key or at the start, control
/// characters by their escapes, and characters outside `' '..='~'` as `\uXXXX`.
pub open spec fn escaped(c: char, first: bool, is_key: bool) -> Seq<char> {
    if c == ' ' {
        if is_key || first { seq!['\\', ' '] } else { seq![' '] }
    } else if c == '\\' {
        seq!['\\', '\\']
    } else if c == '\t' {
        seq!['\\', 't']
    } else if c == '\n' {
        seq!['\\', 'n']
    } else if c == '\r' {
        seq!['\\', 'r']
    } else if c == '\u{c}' {
        seq!['\\', 'f']
    } else if c == '=' || c == ':' || c == '#' || c == '!' {
        seq!['\\', c]
    } else if (c as u32) < (' ' as u32) || (c as u32) > ('~' as u32) {
        seq!['\\', 'u'] + hex4(c as nat)
    } else {
        seq![c]
    }
}

/// `s` from position `i` on, escaped, appended to `acc`.
pub open spec fn escape_from(s: Seq<char>, i: int, is_key: bool, acc: Seq<char>) -> Seq<char>
    decreases s.len() - i,
{
    if i < 0 || i >= s.len() {
        acc
    } else {
        escape_from(s, i + 1, is_key, acc + escaped(s[i], i == 0, is_key))
    }
}

/// `s` escaped as a key (`is_key`) or a value.
pub open spec fn escaped_text(s: Seq<char>, is_key: bool) -> Seq<char> {
    escape_from(s, 0, is_key, Seq::empty())
}

fn push_all(out: &mut Vec<char>, a: char, b: char)
    ensures
        final(out)@ == old(out)@ + seq![a, b],
{
    out.push(a);
    out.push(b);
    proof {
        assert(out@ =~= old(out)@ + seq![a, b]);
    }
}

/// Appends `c` as written at a position (`first`) of a key or a value.
fn push_escaped(out: &mut Vec<char>, c: char, first: bool, is_key: bool)
    ensures
        final(out)@ == old(out)@ + escaped(c, first, is_key),
{
    if c == ' ' {
        if is_key || first {
            push_all(out, '\\', ' ');
        } else {
            out.push(' ');
        }
    } else if c == '\\' {
        push_all(out, '\\', '\\');
    } else if c == '\t' {
        push_all(out, '\\', 't');
    } else if c == '\n' {
        push_all(out, '\\', 'n');
    } else if c == '\r' {
        push_all(out, '\\', 'r');
    } else if c == '\u{c}' {
        push_all(out, '\\', 'f');
    } else if c == '=' || c == ':' || c == '#' || c == '!' {
        push_all(out, '\\', c);
    } else if (c as u32) < (' ' as u32) || (c as u32) > ('~' as u32) {
        let ghost start = out@;
        out.push('\\');
        out.push('u');
        push_hex4(out, c as u32);
        proof {
            assert(out@ =~= start + (seq!['\\', 'u'] + hex4(c as nat)));
        }
    } else {
        out.push(c);
    }
}

/// `s` escaped as a key (`is_key`) or a value.
pub fn escape(s: &Vec<char>, is_key: bool) -> (r: Vec<char>)
    ensures
        r@ == escaped_text(s@, is_key),
{
    let mut r: Vec<char> = Vec::new();
    let mut i: usize = 0;
    while i < s.len()
        invariant
            i <= s@.len(),
            escaped_text(s@, is_key) == escape_from(s@, i as int, is_key, r@),
        decreases s@.len() - i,
    {
        push_escaped(&mut r, s[i], i == 0, is_key);
        i += 1;
    }
    r
}

// ---- key and value --------------------------------------------------------------------------

/// Blank characters between key and value: space, tab, form feed.
pub open spec fn is_blank_char(c: char) -> bool {
    c == ' ' || c == '\t' || c == '\u{c}'
}

/// Characters that end a key.
pub open spec fn is_separator(c: char) -> bool {
    c == '=' || c == ':' || is_blank_char(c)
}

/// `s` without leading blank characters.
pub open spec fn trim_start(s: Seq<char>) -> Seq<char>
    decreases s.len(),
{
    if s.len() > 0 && is_blank_char(s[0]) { trim_start(s.drop_first()) } else { s }
}

/// The number of backslashes `s` ends with.
pub open spec fn trailing_backslashes(s: Seq<char>) -> nat
    decreases s.len(),
{
    if s.len() > 0 && s.last() == '\\' { 1 + trailing_backslashes(s.drop_last()) } else { 0 }
}

/// The position of the first separator from `i` on that no backslash escapes.
pub open spec fn key_end_from(line: Seq<char>, i: int) -> Option<int>
    decreases line.len() - i + 1,
{
    if i < 0 || i >= line.len() {
        None
    } else if line[i] == '\\' {
        key_end_from(line, i + 2)
    } else if is_separator(line[i]) {
        Some(i)
    } else {
        key_end_from(line, i + 1)
    }
}

/// The first position from `i` on that is not blank.
pub open spec fn skip_blank(line: Seq<char>, i: int) -> int
    decreases line.len() - i,
{
    if 0 <= i < line.len() && is_blank_char(line[i]) { skip_blank(line, i + 1) } else { i }
}

/// Where the value starts after a key ending at `key_end`: blanks, at most one `=` or `:`,
/// blanks.
pub open spec fn value_start(line: Seq<char>, key_end: int) -> int {
    let a = skip_blank(line, key_end);
    let b = if 0 <= a < line.len() && (line[a] == '=' || line[a] == ':') { a + 1 } else { a };
    skip_blank(line, b)
}

/// The raw key and value of a logical line.
pub open spec fn split_line(line: Seq<char>) -> (Seq<char>, Seq<char>) {
    match key_end_from(line, 0) {
        None => (line, Seq::empty()),
        Some(k) => (line.take(k), line.skip(value_start(line, k))),
    }
}

fn is_blank_of(c: char) -> (r: bool)
    ensures
        r == is_blank_char(c),
{
    c == ' ' || c == '\t' || c == '\u{c}'
}

fn skip_blank_of(line: &Vec<char>, i: usize) -> (r: usize)
    requires
        i <= line@.len(),
    ensures
        r == skip_blank(line@, i as int),
        r <= line@.len(),
{
    let mut j = i;
    while j < line.len() && is_blank_of(line[j])
        invariant
            i <= j <= line@.len(),
            skip_blank(line@, i as int) == skip_blank(line@, j as int),
        decreases line@.len() - j,
    {
        j += 1;
    }
    j
}

/// The raw key and value of a logical line.
pub fn split_key_value(line: &Vec<char>) -> (r: (Vec<char>, Vec<char>))
    ensures
        (r.0@, r.1@) == split_line(line@),
{
    let mut i: usize = 0;
    let mut key_end: Option<usize> = None;
    while key_end.is_none() && i < line.len()
        invariant
            i <= line@.len(),
            key_end is None ==> key_end_from(line@, 0) == key_end_from(line@, i as int),
            key_end matches Some(k) ==> key_end_from(line@, 0) == Some(k as int) && k < line@.len(),
        decreases line@.len() - i + (if key_end is None { 1int } else { 0int }),
    {
        if line[i] == '\\' {
            if line.len() - i <= 2 {
                proof {
                    assert(key_end_from(line@, i + 2) is None);
                }
                i = line.len();
            } else {
                i += 2;
            }
        } else if line[i] == '=' || line[i] == ':' || is_blank_of(line[i]) {
            key_end = Some(i);
        } else {
            i += 1;
        }
    }
    match key_end {
        None => {
            proof {
                assert(key_end_from(line@, i as int) is None);
            }
            (crate::text::slice_chars(line, 0, line.len()), Vec::new())
        },
        Some(k) => {
            let a = skip_blank_of(line, k);
            let b = if a < line.len() && (line[a] == '=' || line[a] == ':') { a + 1 } else { a };
            let v = skip_blank_of(line, b);
            let key = crate::text::slice_chars(line, 0, k);
            let value = crate::text::slice_chars(line, v, line.len());
            proof {
                assert(key@ =~= line@.take(k as int));
                assert(value@ =~= line@.skip(v as int));
            }
            (key, value)
        },
    }
}

// ---- properties -----------------------------------------------------------------------------

/// The keys of the pairs.
pub open spec fn keys_of(v: Seq<(String, String)>) -> Seq<Seq<char>> {
    v.map_values(|p: (String, String)| p.0@)
}

/// The pairs as a map from key to value.
pub open spec fn props_map(v: Seq<(String, String)>) -> Map<Seq<char>, Seq<char>> {
    Map::new(
        |k: Seq<char>| exists|i: int| 0 <= i < v.len() && v[i].0@ == k,
        |k: Seq<char>| v[choose|i: int| 0 <= i < v.len() && v[i].0@ == k].1@,
    )
}

/// Increasing keys are distinct.
proof fn lemma_sorted_distinct(v: Seq<(String, String)>, i: int, j: int)
    requires
        strictly_sorted(keys_of(v)),
        0 <= i < v.len(),
        0 <= j < v.len(),
        v[i].0@ == v[j].0@,
    ensures
        i == j,
{
    if i < j {
        assert(lex_lt(keys_of(v)[i], keys_of(v)[j]));
        crate::order::lemma_lex_irreflexive(v[i].0@);
    } else if j < i {
        assert(lex_lt(keys_of(v)[j], keys_of(v)[i]));
        crate::order::lemma_lex_irreflexive(v[i].0@);
    }
}

/// The map the pairs give when set one after the other: a later value of a key replaces an
/// earlier one.
pub open spec fn pairs_map(v: Seq<(String, String)>) -> Map<Seq<char>, Seq<char>>
    decreases v.len(),
{
    if v.len() == 0 {
        Map::empty()
    } else {
        pairs_map(v.drop_last()).insert(v.last().0@, v.last().1@)
    }
}

/// The pairs ordered by key, each key once with the value it is given last.
pub fn ordered_by_key(props: &Vec<(String, String)>) -> (r: Vec<(String, String)>)
    ensures
        strictly_sorted(keys_of(r@)),
        props_map(r@) == pairs_map(props@),
{
    let mut r: Vec<(String, String)> = Vec::new();
    proof {
        assert(keys_of(r@) =~= Seq::<Seq<char>>::empty());
        assert(props_map(r@) =~= Map::<Seq<char>, Seq<char>>::empty());
        assert(props@.take(0) =~= Seq::<(String, String)>::empty());
    }
    let mut i: usize = 0;
    while i < props.len()
        invariant
            i <= props@.len(),
            strictly_sorted(keys_of(r@)),
            props_map(r@) == pairs_map(props@.take(i as int)),
        decreases props@.len() - i,
    {
        proof {
            assert(props@.take(i + 1).drop_last() =~= props@.take(i as int));
            assert(props@.take(i + 1).last() == props@[i as int]);
        }
        put(&mut r, props[i].0.clone(), props[i].1.clone());
        i += 1;
    }
    proof {
        assert(props@.take(props@.len() as int) =~= props@);
    }
    r
}

/// Sets `key` to `value` in the pairs ordered by key, keeping them ordered (`insert`).
pub fn put(props: &mut Vec<(String, String)>, key: String, value: String)
    requires
        strictly_sorted(keys_of(old(props)@)),
    ensures
        strictly_sorted(keys_of(final(props)@)),
        props_map(final(props)@) == props_map(old(props)@).insert(key@, value@),
{
    let mut i: usize = 0;
    while i < props.len() && str_lt(props[i].0.as_str(), key.as_str())
        invariant
            i <= props@.len(),
            forall|j: int| 0 <= j < i ==> lex_lt(#[trigger] props@[j].0@, key@),
        decreases props@.len() - i,
    {
        i += 1;
    }
    let ghost before = props@;
    let ghost k = key@;
    let ghost val = value@;
    if i < props.len() && !str_lt(key.as_str(), props[i].0.as_str()) {
        proof {
            crate::order::lemma_lex_total(k, before[i as int].0@);
        }
        props.set(i, (key, value));
        proof {
            assert(keys_of(props@) =~= keys_of(before));
            assert forall|x: Seq<char>| #[trigger] props_map(props@).contains_key(x) == props_map(before).insert(k, val).contains_key(x) by {
                if props_map(before).contains_key(x) {
                    let j = choose|j: int| 0 <= j < before.len() && before[j].0@ == x;
                    assert(props@[j].0@ == x);
                }
                if x == k {
                    assert(props@[i as int].0@ == x);
                }
                if props_map(props@).contains_key(x) {
                    let j = choose|j: int| 0 <= j < props@.len() && props@[j].0@ == x;
                    assert(before[j].0@ == x);
                }
            }
            assert forall|x: Seq<char>| #[trigger] props_map(props@).contains_key(x) implies props_map(props@)[x] == props_map(before).insert(k, val)[x] by {
                let j = choose|j: int| 0 <= j < props@.len() && props@[j].0@ == x;
                if x == k {
                    lemma_sorted_distinct(props@, j, i as int);
                } else {
                    let m = choose|m: int| 0 <= m < before.len() && before[m].0@ == x;
                    assert(props@[m].0@ == x);
                    lemma_sorted_distinct(props@, j, m);
                    assert(before[j].0@ == x);
                    lemma_sorted_distinct(before, j, m);
                }
            }
            assert(props_map(props@) =~= props_map(before).insert(k, val));
        }
        return;
    }
    proof {
        assert forall|j: int| i <= j < before.len() implies lex_lt(k, #[trigger] before[j].0@) by {
            if j > i {
                assert(lex_lt(keys_of(before)[i as int], keys_of(before)[j]));
                crate::order::lemma_lex_transitive(k, before[i as int].0@, before[j].0@);
            }
        }
    }
    props.insert(i, (key, value));
    proof {
        assert forall|a: int, b: int| 0 <= a < b < props@.len() implies lex_lt(#[trigger] keys_of(props@)[a], #[trigger] keys_of(props@)[b]) by {
            if a < i && b == i {
            } else if a == i && b > i {
                assert(props@[b] == before[b - 1]);
            } else if a < i && b > i {
                assert(props@[b] == before[b - 1]);
                assert(lex_lt(keys_of(before)[a], keys_of(before)[b - 1]));
            } else if a > i {
                assert(props@[b] == before[b - 1]);
                assert(props@[a] == before[a - 1]);
                assert(lex_lt(keys_of(before)[a - 1], keys_of(before)[b - 1]));
            } else {
                assert(lex_lt(keys_of(before)[a], keys_of(before)[b]));
            }
        }
        assert forall|x: Seq<char>| #[trigger] props_map(props@).contains_key(x) == props_map(before).insert(k, val).contains_key(x) by {
            if props_map(before).contains_key(x) {
                let j = choose|j: int| 0 <= j < before.len() && before[j].0@ == x;
                if j < i {
                    assert(props@[j].0@ == x);
                } else {
                    assert(props@[j + 1].0@ == x);
                }
            }
            if x == k {
                assert(props@[i as int].0@ == x);
            }
            if props_map(props@).contains_key(x) {
                let j = choose|j: int| 0 <= j < props@.len() && props@[j].0@ == x;
                if j < i {
                    assert(before[j].0@ == x);
                } else if j > i {
                    assert(before[j - 1].0@ == x);
                }
            }
        }
        assert forall|x: Seq<char>| #[trigger] props_map(props@).contains_key(x) implies props_map(props@)[x] == props_map(before).insert(k, val)[x] by {
            let j = choose|j: int| 0 <= j < props@.len() && props@[j].0@ == x;
            if x == k {
                lemma_sorted_distinct(props@, j, i as int);
            } else {
                let m = choose|m: int| 0 <= m < before.len() && before[m].0@ == x;
                let m2 = if m < i { m } else { m + 1 };
                assert(props@[m2].0@ == x);
                lemma_sorted_distinct(props@, j, m2);
            }
        }
        assert(props_map(props@) =~= props_map(before).insert(k, val));
    }
}

/// The properties read from `lines` from position `i` on, with the logical line `logical`
/// begun and `acc` read so far: blank lines and comment lines (`#`,
/// `!`) are skipped, a line ending in an odd number of backslashes continues on the next
/// one, and each logical line gives a key and a value, escapes resolved; a later key
/// replaces an earlier one.
pub open spec fn load_from(lines: Seq<Seq<char>>, i: int, logical: Seq<char>, acc: Map<Seq<char>, Seq<char>>) -> Map<Seq<char>, Seq<char>>
    decreases lines.len() - i,
{
    if i < 0 || i >= lines.len() {
        acc
    } else {
        let line = trim_start(lines[i]);
        if logical.len() == 0 && (line.len() == 0 || line[0] == '#' || line[0] == '!') {
            load_from(lines, i + 1, logical, acc)
        } else {
            let joined = logical + line;
            let odd = trailing_backslashes(joined) % 2 == 1;
            if odd && i + 1 < lines.len() {
                load_from(lines, i + 1, joined.drop_last(), acc)
            } else {
                let complete = if odd { joined.drop_last() } else { joined };
                let kv = split_line(complete);
                load_from(lines, i + 1, Seq::empty(), acc.insert(unescaped(kv.0), unescaped(kv.1)))
            }
        }
    }
}

/// The properties of `text`.
pub open spec fn loaded(text: Seq<char>) -> Map<Seq<char>, Seq<char>> {
    load_from(text_lines(text), 0, Seq::empty(), Map::empty())
}

fn trim_start_of(s: &Vec<char>) -> (r: Vec<char>)
    ensures
        r@ == trim_start(s@),
{
    let mut i: usize = 0;
    proof {
        assert(s@.skip(0) =~= s@);
    }
    while i < s.len() && is_blank_of(s[i])
        invariant
            i <= s@.len(),
            trim_start(s@) == trim_start(s@.skip(i as int)),
        decreases s@.len() - i,
    {
        proof {
            assert(s@.skip(i as int).drop_first() =~= s@.skip(i + 1));
        }
        i += 1;
    }
    let r = crate::text::slice_chars(s, i, s.len());
    proof {
        assert(r@ =~= s@.skip(i as int));
    }
    r
}

fn trailing_backslashes_of(s: &Vec<char>) -> (r: usize)
    ensures
        r == trailing_backslashes(s@),
{
    let mut n: usize = 0;
    proof {
        assert(s@.take(s@.len() as int) =~= s@);
    }
    while n < s.len() && s[s.len() - 1 - n] == '\\'
        invariant
            n <= s@.len(),
            trailing_backslashes(s@) == n + trailing_backslashes(s@.take(s@.len() - n)),
        decreases s@.len() - n,
    {
        proof {
            assert(s@.take(s@.len() - n).drop_last() =~= s@.take(s@.len() - n - 1));
        }
        n += 1;
    }
    proof {
        if n < s@.len() {
            assert(s@.take(s@.len() - n).last() == s@[s@.len() - 1 - n]);
        } else {
            assert(s@.take(0).len() == 0);
        }
    }
    n
}

/// Reads the properties of `text`, ordered by key.
pub fn load(text: &str) -> (r: Vec<(String, String)>)
    ensures
        strictly_sorted(keys_of(r@)),
        props_map(r@) == loaded(text@),
{
    let all = lines(text);
    let mut result: Vec<(String, String)> = Vec::new();
    let mut logical: Vec<char> = Vec::new();
    let mut i: usize = 0;
    proof {
        assert(keys_of(result@) =~= Seq::<Seq<char>>::empty());
        assert(props_map(result@) =~= Map::<Seq<char>, Seq<char>>::empty());
    }
    while i < all.len()
        invariant
            i <= all@.len(),
            crate::text::char_views(all@) == text_lines(text@),
            strictly_sorted(keys_of(result@)),
            loaded(text@) == load_from(text_lines(text@), i as int, logical@, props_map(result@)),
        decreases all@.len() - i,
    {
        let ghost ls = text_lines(text@);
        proof {
            assert(ls[i as int] == all@[i as int]@);
        }
        let line = trim_start_of(&all[i]);
        if logical.len() == 0 && (line.len() == 0 || line[0] == '#' || line[0] == '!') {
            i += 1;
        } else {
            let mut joined = logical;
            let ghost before_joined = joined@;
            let mut rest = line;
            joined.append(&mut rest);
            let odd = trailing_backslashes_of(&joined) % 2 == 1;
            if odd {
                joined.pop();
            }
            if odd && i + 1 < all.len() {
                logical = joined;
                i += 1;
            } else {
                let (k, v) = split_key_value(&joined);
                let key = string_of(&unescape(&k));
                let value = string_of(&unescape(&v));
                put(&mut result, key, value);
                logical = Vec::new();
                proof {
                    assert(logical@ =~= Seq::<char>::empty());
                }
                i += 1;
            }
        }
    }
    result
}

/// The pairs written one per line as `<key>=<value>`, escaped.
pub open spec fn entries_text(v: Seq<(String, String)>) -> Seq<char>
    decreases v.len(),
{
    if v.len() == 0 {
        Seq::empty()
    } else {
        entries_text(v.drop_last()) + escaped_text(v.last().0@, true) + seq!['='] + escaped_text(v.last().1@, false) + seq!['\n']
    }
}

/// The text of the properties written at `seconds` after the epoch (`Properties.store`
/// with an empty comment): `#`, `#<seconds>`, then one line per pair.
pub open spec fn stored_text(v: Seq<(String, String)>, seconds: nat) -> Seq<char> {
    seq!['#', '\n', '#'] + decimal(seconds) + seq!['\n'] + entries_text(v)
}

/// Writes the properties as they are written `seconds` after the epoch.
pub fn store_at(properties: &Vec<(String, String)>, seconds: u64) -> (r: String)
    ensures
        r@ == stored_text(properties@, seconds as nat),
{
    let mut out: Vec<char> = Vec::new();
    out.push('#');
    out.push('\n');
    out.push('#');
    let digits = chars_of(decimal_string(seconds).as_str());
    let mut d: usize = 0;
    let ghost head = out@;
    while d < digits.len()
        invariant
            d <= digits@.len(),
            out@ == head + digits@.take(d as int),
        decreases digits@.len() - d,
    {
        out.push(digits[d]);
        proof {
            assert(digits@.take(d + 1) =~= digits@.take(d as int).push(digits@[d as int]));
        }
        d += 1;
    }
    out.push('\n');
    proof {
        assert(digits@.take(digits@.len() as int) =~= digits@);
        assert(out@ =~= seq!['#', '\n', '#'] + decimal(seconds as nat) + seq!['\n']);
    }
    let ghost prefix = out@;
    let mut i: usize = 0;
    while i < properties.len()
        invariant
            i <= properties@.len(),
            out@ == prefix + entries_text(properties@.take(i as int)),
        decreases properties@.len() - i,
    {
        let key = escape(&chars_of(properties[i].0.as_str()), true);
        let value = escape(&chars_of(properties[i].1.as_str()), false);
        let ghost start = out@;
        let mut j: usize = 0;
        while j < key.len()
            invariant
                j <= key@.len(),
                out@ == start + key@.take(j as int),
            decreases key@.len() - j,
        {
            out.push(key[j]);
            proof {
                assert(key@.take(j + 1) =~= key@.take(j as int).push(key@[j as int]));
            }
            j += 1;
        }
        out.push('=');
        let ghost mid = out@;
        let mut j: usize = 0;
        while j < value.len()
            invariant
                j <= value@.len(),
                out@ == mid + value@.take(j as int),
            decreases value@.len() - j,
        {
            out.push(value[j]);
            proof {
                assert(value@.take(j + 1) =~= value@.take(j as int).push(value@[j as int]));
            }
            j += 1;
        }
        out.push('\n');
        proof {
            assert(key@.take(key@.len() as int) =~= key@);
            assert(value@.take(value@.len() as int) =~= value@);
            assert(properties@.take(i + 1).drop_last() =~= properties@.take(i as int));
            assert(properties@.take(i + 1).last() == properties@[i as int]);
            assert(out@ =~= prefix + entries_text(properties@.take(i + 1)));
        }
        i += 1;
    }
    proof {
        assert(properties@.take(properties@.len() as int) =~= properties@);
    }
    string_of(&out)
}

/// A point in time of the system clock (`std::time::SystemTime`), carried through opaque.
#[verifier::external_type_specification]
#[verifier::external_body]
pub struct ExSystemTime(std::time::SystemTime);

/// The error of a time before a given one (`std::time::SystemTimeError`), carried through
/// opaque.
#[verifier::external_type_specification]
#[verifier::external_body]
pub struct ExSystemTimeError(std::time::SystemTimeError);

/// `SystemTime::now()`: the current time of the system clock. Nothing is stated of it: it
/// depends on the clock.
#[verifier::external_body]
fn system_time_now() -> (r: std::time::SystemTime) {
    std::time::SystemTime::now()
}

/// `SystemTime::duration_since(UNIX_EPOCH)`: the time elapsed since the epoch, or an error
/// for a time before it. Nothing is stated of it: it depends on the clock's value.
#[verifier::external_body]
fn duration_since_epoch(t: &std::time::SystemTime) -> (r: Result<std::time::Duration, std::time::SystemTimeError>) {
    t.duration_since(std::time::UNIX_EPOCH)
}

/// `Duration::as_secs()`: the whole seconds of a duration. Nothing is stated of it: Verus
/// sees nothing inside a duration.
#[verifier::external_body]
fn whole_seconds(d: &std::time::Duration) -> (r: u64) {
    d.as_secs()
}

/// The seconds since the epoch by the system clock, `0` for a clock before it.
fn seconds_since_epoch() -> (r: u64) {
    let now = system_time_now();
    match duration_since_epoch(&now) {
        Ok(d) => whole_seconds(&d),
        Err(_) => 0,
    }
}

/// Writes the properties, stamped with the current time (`Properties.store` with an empty
/// comment).
pub fn store(properties: &Vec<(String, String)>) -> (r: String)
    ensures
        exists|seconds: nat| r@ == stored_text(properties@, seconds),
{
    let seconds = seconds_since_epoch();
    store_at(properties, seconds)
}

} // verus!
