//! Reading back what was written: properties stored as text load as the same properties.

use vstd::prelude::*;

use super::properties::{
    escape_from, escaped, escaped_char, escaped_text, hex4, hex_after, hex_char, hex_digit_value, hex_digits_value,
    entries_text, hex_text, hex_value, is_blank_char, is_char_code, is_separator, key_end_from, keys_of, lines_from,
    load_from, loaded, props_map, skip_blank, split_line, stored_text, strip_cr, text_lines, trailing_backslashes,
    trim_start, unescape_from, unescaped, value_start,
};
use crate::order::{lemma_lex_irreflexive, lex_lt, strictly_sorted};
use crate::text::decimal;

verus! {

// ---- hexadecimal ----------------------------------------------------------------------------

proof fn lemma_hex_char_value(d: nat)
    requires
        d < 16,
    ensures
        hex_digit_value(hex_char(d)) == Some(d),
{
    if d < 10 {
        assert((('0' as nat + d) as char) as nat == '0' as nat + d);
    } else {
        assert((('A' as nat + d - 10) as char) as nat == 'A' as nat + d - 10);
    }
}

proof fn lemma_hex_text_value(v: nat)
    ensures
        hex_digits_value(hex_text(v)) == Some(v),
        1 <= hex_text(v).len(),
        v < 65536 ==> hex_text(v).len() <= 4,
        v < 4096 ==> hex_text(v).len() <= 3,
        v < 256 ==> hex_text(v).len() <= 2,
        v < 16 ==> hex_text(v).len() <= 1,
    decreases v,
{
    if v < 16 {
        lemma_hex_char_value(v);
        let t = hex_text(v);
        assert(t.drop_last() =~= Seq::<char>::empty());
        assert(t.last() == hex_char(v));
        assert(hex_digits_value(t.drop_last()) == Some(0nat));
    } else {
        lemma_hex_text_value(v / 16);
        lemma_hex_char_value(v % 16);
        let t = hex_text(v);
        assert(t.drop_last() =~= hex_text(v / 16));
        assert(t.last() == hex_char(v % 16));
        assert((v / 16) * 16 + v % 16 == v);
        assert(hex_digits_value(t) == Some(((v / 16) * 16 + v % 16) as nat));
    }
}

proof fn lemma_leading_zeros(n: nat, t: Seq<char>)
    ensures
        hex_digits_value(Seq::new(n, |i: int| '0') + t) == hex_digits_value(t),
    decreases n + t.len(),
{
    let z = Seq::new(n, |i: int| '0');
    if t.len() > 0 {
        lemma_leading_zeros(n, t.drop_last());
        assert((z + t).drop_last() =~= z + t.drop_last());
        assert((z + t).last() == t.last());
    } else if n > 0 {
        assert(z + t =~= z);
        let z1 = Seq::new((n - 1) as nat, |i: int| '0');
        lemma_leading_zeros((n - 1) as nat, t);
        assert(z.drop_last() =~= z1 + t);
        assert(hex_digit_value('0') == Some(0nat));
    } else {
        assert(z + t =~= t);
    }
}

/// Four hexadecimal digits read back as the value they were written for.
proof fn lemma_hex4_value(v: nat)
    requires
        v < 65536,
    ensures
        hex4(v).len() == 4,
        hex4(v)[0] != '+',
        hex_value(hex4(v)) == Some(v),
{
    lemma_hex_text_value(v);
    let t = hex_text(v);
    if t.len() < 4 {
        lemma_leading_zeros((4 - t.len()) as nat, t);
    }
    lemma_hex_chars_not_plus(v);
}

proof fn lemma_hex_chars_not_plus(v: nat)
    ensures
        forall|i: int| 0 <= i < hex_text(v).len() ==> hex_text(v)[i] != '+',
    decreases v,
{
    if v >= 16 {
        lemma_hex_chars_not_plus(v / 16);
        assert forall|i: int| 0 <= i < hex_text(v).len() implies hex_text(v)[i] != '+' by {
            if i < hex_text(v / 16).len() {
                assert(hex_text(v)[i] == hex_text(v / 16)[i]);
            } else {
                lemma_hex_char_value(v % 16);
            }
        }
    } else {
        lemma_hex_char_value(v);
    }
}

// ---- escaping and unescaping ----------------------------------------------------------------

/// Every character of `s` lies in the basic multilingual plane, so four hexadecimal digits
/// write it.
pub open spec fn in_basic_plane(s: Seq<char>) -> bool {
    forall|i: int| 0 <= i < s.len() ==> (#[trigger] s[i] as nat) < 65536
}

proof fn lemma_unescape_shift(p: Seq<char>, r: Seq<char>, j: int, acc: Seq<char>)
    requires
        0 <= j,
    ensures
        unescape_from(p + r, p.len() + j, acc) == unescape_from(r, j, acc),
    decreases r.len() - j,
{
    let s = p + r;
    let i = p.len() + j;
    if j < r.len() {
        assert(s[i] == r[j]);
        if s[i] != '\\' {
            lemma_unescape_shift(p, r, j + 1, acc.push(s[i]));
        } else if j + 1 < r.len() {
            assert(s[i + 1] == r[j + 1]);
            if s[i + 1] == 'u' {
                let hs = hex_after(s, i);
                let hr = hex_after(r, j);
                assert(hs =~= hr);
                lemma_unescape_shift(p, r, j + 2 + hr.len(), acc.push((hex_value(hr)->0) as char));
                lemma_unescape_shift(p, r, j + 2 + hr.len(), acc + seq!['\\', 'u'] + hr);
            } else {
                lemma_unescape_shift(p, r, j + 2, acc.push(escaped_char(s[i + 1])));
            }
        }
    }
}

/// What a character is written as reads back as that character.
proof fn lemma_unescape_escaped(c: char, first: bool, is_key: bool, r: Seq<char>, acc: Seq<char>)
    requires
        (c as nat) < 65536,
    ensures
        unescape_from(escaped(c, first, is_key) + r, 0, acc) == unescape_from(r, 0, acc.push(c)),
{
    let piece = escaped(c, first, is_key);
    let s = piece + r;
    lemma_unescape_shift(piece, r, 0, acc.push(c));
    if piece.len() == 1 {
        assert(s[0] == c);
    } else if piece[1] != 'u' {
        assert(s[0] == '\\' && s[1] == piece[1]);
        assert(escaped_char(piece[1]) == c);
    } else {
        lemma_hex4_value(c as nat);
        assert(s[0] == '\\' && s[1] == 'u');
        assert(hex_after(s, 0) =~= hex4(c as nat));
        assert(is_char_code(c as nat));
        assert((c as nat) as char == c);
    }
}

proof fn lemma_escape_acc(s: Seq<char>, i: int, is_key: bool, acc: Seq<char>)
    requires
        0 <= i,
    ensures
        escape_from(s, i, is_key, acc) == acc + escape_from(s, i, is_key, Seq::empty()),
    decreases s.len() - i,
{
    if i < s.len() {
        let piece = escaped(s[i], i == 0, is_key);
        lemma_escape_acc(s, i + 1, is_key, acc + piece);
        lemma_escape_acc(s, i + 1, is_key, Seq::<char>::empty() + piece);
        assert(Seq::<char>::empty() + piece =~= piece);
        assert(acc + piece + escape_from(s, i + 1, is_key, Seq::empty()) =~= acc + (piece + escape_from(s, i + 1, is_key, Seq::empty())));
    } else {
        assert(acc + Seq::<char>::empty() =~= acc);
    }
}

proof fn lemma_unescape_escape_from(s: Seq<char>, i: int, is_key: bool, acc: Seq<char>)
    requires
        0 <= i <= s.len(),
        in_basic_plane(s),
    ensures
        unescape_from(escape_from(s, i, is_key, Seq::empty()), 0, acc) == acc + s.skip(i),
    decreases s.len() - i,
{
    if i < s.len() {
        let piece = escaped(s[i], i == 0, is_key);
        lemma_escape_acc(s, i + 1, is_key, Seq::<char>::empty() + piece);
        assert(Seq::<char>::empty() + piece =~= piece);
        lemma_unescape_escaped(s[i], i == 0, is_key, escape_from(s, i + 1, is_key, Seq::empty()), acc);
        lemma_unescape_escape_from(s, i + 1, is_key, acc.push(s[i]));
        assert(acc.push(s[i]) + s.skip(i + 1) =~= acc + s.skip(i));
    } else {
        assert(acc + s.skip(i) =~= acc);
    }
}

/// Unescaping what was escaped gives the text back, for characters of the basic plane.
proof fn lemma_unescaped_escaped(s: Seq<char>, is_key: bool)
    requires
        in_basic_plane(s),
    ensures
        unescaped(escaped_text(s, is_key)) == s,
{
    lemma_unescape_escape_from(s, 0, is_key, Seq::empty());
    assert(Seq::<char>::empty() + s.skip(0) =~= s);
}

// ---- the shape of escaped texts -------------------------------------------------------------

/// A hexadecimal digit character.
pub open spec fn is_hex_char(ch: char) -> bool {
    hex_digit_value(ch) is Some
}

proof fn lemma_hex_text_chars(v: nat)
    ensures
        forall|i: int| 0 <= i < hex_text(v).len() ==> is_hex_char(#[trigger] hex_text(v)[i]),
    decreases v,
{
    if v >= 16 {
        lemma_hex_text_chars(v / 16);
        lemma_hex_char_value(v % 16);
        assert forall|i: int| 0 <= i < hex_text(v).len() implies is_hex_char(#[trigger] hex_text(v)[i]) by {
            if i < hex_text(v / 16).len() {
                assert(hex_text(v)[i] == hex_text(v / 16)[i]);
            }
        }
    } else {
        lemma_hex_char_value(v);
    }
}

proof fn lemma_hex4_chars(v: nat)
    ensures
        forall|i: int| 0 <= i < hex4(v).len() ==> is_hex_char(#[trigger] hex4(v)[i]),
{
    lemma_hex_text_chars(v);
    let t = hex_text(v);
    if t.len() < 4 {
        let z = Seq::new((4 - t.len()) as nat, |i: int| '0');
        assert forall|i: int| 0 <= i < hex4(v).len() implies is_hex_char(#[trigger] hex4(v)[i]) by {
            if i < z.len() {
                assert(hex4(v)[i] == '0');
            } else {
                assert(hex4(v)[i] == t[i - z.len()]);
            }
        }
    }
}

/// No character of the written form of `c` breaks a line, and the form does not end in a
/// backslash.
proof fn lemma_escaped_shape(c: char, first: bool, is_key: bool)
    ensures
        forall|i: int| 0 <= i < escaped(c, first, is_key).len() ==> {
            let x = #[trigger] escaped(c, first, is_key)[i];
            x != '\n' && x != '\r'
        },
        escaped(c, first, is_key).len() > 0,
        escaped(c, first, is_key).last() != '\\' || escaped(c, first, is_key) == seq!['\\', '\\'],
{
    let piece = escaped(c, first, is_key);
    if piece.len() > 2 {
        lemma_hex4_chars(c as nat);
        lemma_hex_text_value(c as nat);
        assert forall|i: int| 0 <= i < piece.len() implies {
            let x = #[trigger] piece[i];
            x != '\n' && x != '\r'
        } by {
            if i >= 2 {
                assert(piece[i] == hex4(c as nat)[i - 2]);
                assert(is_hex_char(hex4(c as nat)[i - 2]));
            }
        }
        let h = hex4(c as nat);
        assert(piece.last() == h[h.len() - 1]);
        assert(is_hex_char(h[h.len() - 1]));
    }
}

proof fn lemma_escape_front(s: Seq<char>, i: int, is_key: bool)
    requires
        0 <= i < s.len(),
    ensures
        escape_from(s, i, is_key, Seq::empty()) == escaped(s[i], i == 0, is_key) + escape_from(s, i + 1, is_key, Seq::empty()),
{
    let piece = escaped(s[i], i == 0, is_key);
    lemma_escape_acc(s, i + 1, is_key, Seq::<char>::empty() + piece);
    assert(Seq::<char>::empty() + piece =~= piece);
}

proof fn lemma_escape_back(s: Seq<char>, i: int, is_key: bool, acc: Seq<char>)
    requires
        0 <= i <= s.len() - 1,
    ensures
        escape_from(s, i, is_key, acc) == escape_from(s.drop_last(), i, is_key, acc) + escaped(s.last(), s.len() == 1, is_key),
    decreases s.len() - i,
{
    if i < s.len() - 1 {
        assert(s.drop_last()[i] == s[i]);
        lemma_escape_back(s, i + 1, is_key, acc + escaped(s[i], i == 0, is_key));
    } else {
        assert(s[i] == s.last());
        let piece = escaped(s[i], i == 0, is_key);
        assert(escape_from(s, i + 1, is_key, acc + piece) == acc + piece);
        assert(escape_from(s.drop_last(), i, is_key, acc) == acc);
    }
}

/// No character of an escaped text breaks a line.
proof fn lemma_escaped_no_breaks(s: Seq<char>, i: int, is_key: bool)
    requires
        0 <= i <= s.len(),
    ensures
        forall|j: int| 0 <= j < escape_from(s, i, is_key, Seq::empty()).len() ==> {
            let x = #[trigger] escape_from(s, i, is_key, Seq::empty())[j];
            x != '\n' && x != '\r'
        },
    decreases s.len() - i,
{
    if i < s.len() {
        lemma_escape_front(s, i, is_key);
        lemma_escaped_no_breaks(s, i + 1, is_key);
        lemma_escaped_shape(s[i], i == 0, is_key);
        let piece = escaped(s[i], i == 0, is_key);
        let rest = escape_from(s, i + 1, is_key, Seq::empty());
        assert forall|j: int| 0 <= j < (piece + rest).len() implies {
            let x = #[trigger] (piece + rest)[j];
            x != '\n' && x != '\r'
        } by {
            if j < piece.len() {
                assert((piece + rest)[j] == piece[j]);
            } else {
                assert((piece + rest)[j] == rest[j - piece.len()]);
            }
        }
    }
}

/// An escaped text that follows a text ending in an even number of backslashes ends in an
/// even number of them too.
proof fn lemma_escaped_trailing(p: Seq<char>, s: Seq<char>, is_key: bool)
    requires
        trailing_backslashes(p) % 2 == 0,
    ensures
        trailing_backslashes(p + escaped_text(s, is_key)) % 2 == 0,
    decreases s.len(),
{
    if s.len() == 0 {
        assert(p + escaped_text(s, is_key) =~= p);
    } else {
        lemma_escape_back(s, 0, is_key, Seq::empty());
        lemma_escaped_trailing(p, s.drop_last(), is_key);
        let front = p + escaped_text(s.drop_last(), is_key);
        let piece = escaped(s.last(), s.len() == 1, is_key);
        lemma_escaped_shape(s.last(), s.len() == 1, is_key);
        let t = p + escaped_text(s, is_key);
        assert(t =~= front + piece);
        if piece == seq!['\\', '\\'] {
            assert(t.drop_last().drop_last() =~= front);
            assert(t.last() == '\\');
            assert(t.drop_last().last() == '\\');
            assert(trailing_backslashes(t) == 1 + trailing_backslashes(t.drop_last()));
            assert(trailing_backslashes(t.drop_last()) == 1 + trailing_backslashes(t.drop_last().drop_last()));
        } else {
            assert(t.last() == piece.last());
        }
    }
}

proof fn lemma_key_end_shift(p: Seq<char>, r: Seq<char>, j: int)
    requires
        0 <= j,
    ensures
        key_end_from(p + r, p.len() + j) == match key_end_from(r, j) {
            Some(x) => Some(x + p.len()),
            None => None::<int>,
        },
    decreases r.len() - j + 1,
{
    let s = p + r;
    if j < r.len() {
        assert(s[p.len() + j] == r[j]);
        if r[j] == '\\' {
            lemma_key_end_shift(p, r, j + 2);
        } else if !is_separator(r[j]) {
            lemma_key_end_shift(p, r, j + 1);
        }
    }
}

/// The key of a line written as `<escaped key>=..` ends right before the `=`.
proof fn lemma_escaped_key_end(s: Seq<char>, i: int, r: Seq<char>)
    requires
        0 <= i <= s.len(),
        in_basic_plane(s),
    ensures
        key_end_from(escape_from(s, i, true, Seq::empty()) + r, 0) == match key_end_from(r, 0) {
            Some(x) => Some(x + escape_from(s, i, true, Seq::empty()).len()),
            None => None::<int>,
        },
    decreases s.len() - i,
{
    let t = escape_from(s, i, true, Seq::empty());
    if i < s.len() {
        lemma_escape_front(s, i, true);
        let piece = escaped(s[i], i == 0, true);
        let rest = escape_from(s, i + 1, true, Seq::empty());
        lemma_escaped_key_end(s, i + 1, r);
        lemma_key_end_shift(piece, rest + r, 0);
        let u = piece + (rest + r);
        assert(t + r =~= u);
        let c = s[i];
        if piece.len() == 1 {
            assert(u[0] == c);
            assert(!is_separator(c) && c != '\\');
        } else if piece.len() == 2 {
            assert(u[0] == '\\');
        } else {
            lemma_hex4_chars(c as nat);
            lemma_hex4_value(c as nat);
            assert(u[0] == '\\');
            assert forall|k: int| 2 <= k < 6 implies #[trigger] u[k] == hex4(c as nat)[k - 2] by {}
            assert(is_hex_char(u[2]) && is_hex_char(u[3]) && is_hex_char(u[4]) && is_hex_char(u[5]));
            assert(key_end_from(u, 2) == key_end_from(u, 3));
            assert(key_end_from(u, 3) == key_end_from(u, 4));
            assert(key_end_from(u, 4) == key_end_from(u, 5));
            assert(key_end_from(u, 5) == key_end_from(u, 6));
        }
    } else {
        assert(t =~= Seq::<char>::empty());
        assert(t + r =~= r);
    }
}

// ---- lines ----------------------------------------------------------------------------------

/// The lines, each followed by a line break.
pub open spec fn joined_lines(ls: Seq<Seq<char>>) -> Seq<char>
    decreases ls.len(),
{
    if ls.len() == 0 {
        Seq::empty()
    } else {
        joined_lines(ls.drop_last()) + ls.last() + seq!['\n']
    }
}

/// No character of `l` breaks a line.
pub open spec fn unbroken(l: Seq<char>) -> bool {
    forall|i: int| 0 <= i < l.len() ==> #[trigger] l[i] != '\n' && l[i] != '\r'
}

proof fn lemma_lines_shift(p: Seq<char>, r: Seq<char>, j: int, cur: Seq<char>, acc: Seq<Seq<char>>)
    requires
        0 <= j,
    ensures
        lines_from(p + r, p.len() + j, cur, acc) == lines_from(r, j, cur, acc),
    decreases r.len() - j,
{
    if j < r.len() {
        assert((p + r)[p.len() + j] == r[j]);
        if r[j] == '\n' {
            lemma_lines_shift(p, r, j + 1, Seq::empty(), acc.push(strip_cr(cur)));
        } else {
            lemma_lines_shift(p, r, j + 1, cur.push(r[j]), acc);
        }
    }
}

proof fn lemma_one_line(l: Seq<char>, r: Seq<char>, j: int, acc: Seq<Seq<char>>)
    requires
        0 <= j <= l.len(),
        unbroken(l),
    ensures
        lines_from(l + seq!['\n'] + r, j, l.take(j), acc) == lines_from(r, 0, Seq::empty(), acc.push(l)),
    decreases l.len() - j,
{
    let t = l + seq!['\n'] + r;
    if j < l.len() {
        assert(t[j] == l[j]);
        assert(l.take(j).push(l[j]) =~= l.take(j + 1));
        lemma_one_line(l, r, j + 1, acc);
    } else {
        assert(t[j] == '\n');
        assert(l.take(j) =~= l);
        if l.len() > 0 {
            assert(l.last() == l[l.len() - 1]);
        }
        assert(strip_cr(l) == l);
        assert(t =~= (l + seq!['\n']) + r);
        lemma_lines_shift(l + seq!['\n'], r, 0, Seq::empty(), acc.push(l));
    }
}

proof fn lemma_joined_lines(ls: Seq<Seq<char>>, r: Seq<char>, acc: Seq<Seq<char>>)
    requires
        forall|i: int| 0 <= i < ls.len() ==> unbroken(#[trigger] ls[i]),
    ensures
        lines_from(joined_lines(ls) + r, 0, Seq::empty(), acc) == lines_from(r, 0, Seq::empty(), acc + ls),
    decreases ls.len(),
{
    if ls.len() == 0 {
        assert(joined_lines(ls) + r =~= r);
        assert(acc + ls =~= acc);
    } else {
        let front = ls.drop_last();
        let l = ls.last();
        assert(unbroken(ls[ls.len() - 1]));
        let r2 = l + seq!['\n'] + r;
        assert(joined_lines(ls) + r =~= joined_lines(front) + r2);
        lemma_joined_lines(front, r2, acc);
        assert(l.take(0) =~= Seq::<char>::empty());
        lemma_one_line(l, r, 0, acc + front);
        assert((acc + front).push(l) =~= acc + ls);
    }
}

/// The lines of joined lines are those lines.
proof fn lemma_lines_of_joined(ls: Seq<Seq<char>>)
    requires
        forall|i: int| 0 <= i < ls.len() ==> unbroken(#[trigger] ls[i]),
    ensures
        text_lines(joined_lines(ls)) == ls,
{
    lemma_joined_lines(ls, Seq::empty(), Seq::empty());
    assert(joined_lines(ls) + Seq::<char>::empty() =~= joined_lines(ls));
    assert(Seq::<Seq<char>>::empty() + ls =~= ls);
}

proof fn lemma_joined_concat(a: Seq<Seq<char>>, b: Seq<Seq<char>>)
    ensures
        joined_lines(a + b) == joined_lines(a) + joined_lines(b),
    decreases b.len(),
{
    if b.len() == 0 {
        assert(a + b =~= a);
        assert(joined_lines(a) + joined_lines(b) =~= joined_lines(a));
    } else {
        lemma_joined_concat(a, b.drop_last());
        assert((a + b).drop_last() =~= a + b.drop_last());
        assert((a + b).last() == b.last());
        assert(joined_lines(a) + joined_lines(b) =~= joined_lines(a) + joined_lines(b.drop_last()) + b.last() + seq!['\n']);
    }
}

proof fn lemma_decimal_unbroken(n: nat)
    ensures
        unbroken(decimal(n)),
    decreases n,
{
    if n >= 10 {
        lemma_decimal_unbroken(n / 10);
        assert forall|i: int| 0 <= i < decimal(n).len() implies #[trigger] decimal(n)[i] != '\n' && decimal(n)[i] != '\r' by {
            if i < decimal(n / 10).len() {
                assert(decimal(n)[i] == decimal(n / 10)[i]);
            }
        }
    }
}

// ---- stored properties read back ------------------------------------------------------------

/// The line a pair is written as: `<escaped key>=<escaped value>`.
pub open spec fn entry_line(p: (String, String)) -> Seq<char> {
    escaped_text(p.0@, true) + seq!['='] + escaped_text(p.1@, false)
}

/// The lines the pairs are written as.
pub open spec fn entry_lines(v: Seq<(String, String)>) -> Seq<Seq<char>> {
    v.map_values(|p: (String, String)| entry_line(p))
}

/// The pairs put into a map one after the other, a later key replacing an earlier one.
pub open spec fn put_all(v: Seq<(String, String)>) -> Map<Seq<char>, Seq<char>>
    decreases v.len(),
{
    if v.len() == 0 {
        Map::empty()
    } else {
        put_all(v.drop_last()).insert(v.last().0@, v.last().1@)
    }
}

proof fn lemma_entries_joined(v: Seq<(String, String)>)
    ensures
        entries_text(v) == joined_lines(entry_lines(v)),
    decreases v.len(),
{
    if v.len() > 0 {
        lemma_entries_joined(v.drop_last());
        assert(entry_lines(v).drop_last() =~= entry_lines(v.drop_last()));
        assert(entry_lines(v).last() == entry_line(v.last()));
    }
}

/// The first character of a written text is a backslash or the character itself, which then
/// is neither blank nor a comment mark.
proof fn lemma_escaped_first(c: char, is_key: bool)
    ensures
        escaped(c, true, is_key)[0] == '\\' || (escaped(c, true, is_key)[0] == c && !is_blank_char(c) && c != '#' && c != '!'
            && c != '='),
{
}

proof fn lemma_escaped_text_first(s: Seq<char>, is_key: bool)
    requires
        s.len() > 0,
    ensures
        escaped_text(s, is_key).len() > 0,
        ({
            let x = escaped_text(s, is_key)[0];
            !is_blank_char(x) && x != '#' && x != '!' && x != '='
        }),
{
    lemma_escape_front(s, 0, is_key);
    lemma_escaped_first(s[0], is_key);
    lemma_escaped_shape(s[0], true, is_key);
}

proof fn lemma_trim_start_kept(l: Seq<char>)
    requires
        l.len() > 0,
        !is_blank_char(l[0]),
    ensures
        trim_start(l) == l,
{
}

/// A written line gives its pair back.
proof fn lemma_entry_line_reads(p: (String, String))
    requires
        in_basic_plane(p.0@),
        in_basic_plane(p.1@),
    ensures
        ({
            let l = entry_line(p);
            &&& unbroken(l)
            &&& l.len() > 0
            &&& trim_start(l) == l
            &&& l[0] != '#' && l[0] != '!'
            &&& trailing_backslashes(l) % 2 == 0
            &&& unescaped(split_line(l).0) == p.0@
            &&& unescaped(split_line(l).1) == p.1@
        }),
{
    let ek = escaped_text(p.0@, true);
    let ev = escaped_text(p.1@, false);
    let l = entry_line(p);
    assert(l =~= ek + (seq!['='] + ev));
    lemma_escaped_no_breaks(p.0@, 0, true);
    lemma_escaped_no_breaks(p.1@, 0, false);
    assert forall|i: int| 0 <= i < l.len() implies #[trigger] l[i] != '\n' && l[i] != '\r' by {
        if i < ek.len() {
            assert(l[i] == ek[i]);
        } else if i > ek.len() {
            assert(l[i] == ev[i - ek.len() - 1]);
        }
    }
    if p.0@.len() > 0 {
        lemma_escaped_text_first(p.0@, true);
        assert(l[0] == ek[0]);
    } else {
        assert(ek =~= Seq::<char>::empty());
        assert(l[0] == '=');
    }
    lemma_trim_start_kept(l);
    assert(trailing_backslashes(ek + seq!['=']) == 0);
    lemma_escaped_trailing(ek + seq!['='], p.1@, false);
    assert(ek + seq!['='] + ev =~= l);
    lemma_escaped_key_end(p.0@, 0, seq!['='] + ev);
    assert(key_end_from(seq!['='] + ev, 0) == Some(0int));
    let k = ek.len() as int;
    assert(key_end_from(l, 0) == Some(k));
    assert(l[k] == '=');
    assert(skip_blank(l, k) == k);
    if p.1@.len() > 0 {
        lemma_escaped_text_first(p.1@, false);
        assert(l[k + 1] == ev[0]);
    }
    assert(skip_blank(l, k + 1) == k + 1);
    assert(value_start(l, k) == k + 1);
    assert(l.take(k) =~= ek);
    assert(l.skip(k + 1) =~= ev);
    lemma_unescaped_escaped(p.0@, true);
    lemma_unescaped_escaped(p.1@, false);
}

proof fn lemma_load_entries(lines: Seq<Seq<char>>, v: Seq<(String, String)>, j: int)
    requires
        lines.len() == v.len() + 2,
        0 <= j <= v.len(),
        forall|i: int| 0 <= i < v.len() ==> lines[i + 2] == entry_line(#[trigger] v[i]),
        forall|i: int| 0 <= i < v.len() ==> in_basic_plane(#[trigger] v[i].0@) && in_basic_plane(v[i].1@),
    ensures
        load_from(lines, j + 2, Seq::empty(), put_all(v.take(j))) == put_all(v),
    decreases v.len() - j,
{
    if j < v.len() {
        let p = v[j];
        lemma_entry_line_reads(p);
        let l = lines[j + 2];
        assert(l == entry_line(v[j]));
        assert(Seq::<char>::empty() + l =~= l);
        assert(v.take(j + 1).drop_last() =~= v.take(j));
        assert(v.take(j + 1).last() == p);
        lemma_load_entries(lines, v, j + 1);
    } else {
        assert(v.take(j) =~= v);
    }
}

proof fn lemma_put_all_is_map(v: Seq<(String, String)>)
    requires
        forall|i: int, j: int| 0 <= i < j < v.len() ==> (#[trigger] v[i]).0@ != (#[trigger] v[j]).0@,
    ensures
        put_all(v) == props_map(v),
    decreases v.len(),
{
    if v.len() > 0 {
        let front = v.drop_last();
        assert forall|i: int, j: int| 0 <= i < j < front.len() implies (#[trigger] front[i]).0@ != (#[trigger] front[j]).0@ by {
            assert(front[i] == v[i] && front[j] == v[j]);
        }
        lemma_put_all_is_map(front);
        let m = props_map(v);
        let n = put_all(v);
        assert forall|k: Seq<char>| #[trigger] n.contains_key(k) == m.contains_key(k) by {
            if m.contains_key(k) {
                let i = choose|i: int| 0 <= i < v.len() && v[i].0@ == k;
                if i < front.len() {
                    assert(front[i].0@ == k);
                }
            }
            if n.contains_key(k) && k != v.last().0@ {
                let i = choose|i: int| 0 <= i < front.len() && front[i].0@ == k;
                assert(v[i].0@ == k);
            }
            if k == v.last().0@ {
                assert(v[v.len() - 1].0@ == k);
            }
        }
        assert forall|k: Seq<char>| #[trigger] n.contains_key(k) implies n[k] == m[k] by {
            let i = choose|i: int| 0 <= i < v.len() && v[i].0@ == k;
            if k == v.last().0@ {
                if i != v.len() - 1 {
                    assert(v[i].0@ != v[v.len() - 1].0@);
                }
            } else {
                assert(i < v.len() - 1);
                assert(front[i].0@ == k);
                let i2 = choose|i2: int| 0 <= i2 < front.len() && front[i2].0@ == k;
                if i2 != i {
                    if i < i2 {
                        assert(v[i].0@ != v[i2].0@);
                    } else {
                        assert(v[i2].0@ != v[i].0@);
                    }
                }
            }
        }
        assert(n =~= m);
    } else {
        assert(put_all(v) =~= props_map(v));
    }
}

/// Properties written as text load as the same properties (`Properties.store` followed by
/// `Properties.load`), whenever each key occurs once, as in a sorted map, and every character
/// of the keys and values lies in the basic multilingual plane (four hexadecimal digits write
/// it).
pub proof fn lemma_stored_properties_load_back(v: Seq<(String, String)>, seconds: nat)
    requires
        strictly_sorted(keys_of(v)),
        forall|i: int| 0 <= i < v.len() ==> in_basic_plane(#[trigger] v[i].0@) && in_basic_plane(v[i].1@),
    ensures
        loaded(stored_text(v, seconds)) == props_map(v),
{
    let head = seq![seq!['#'], seq!['#'] + decimal(seconds)];
    let ls = head + entry_lines(v);
    lemma_entries_joined(v);
    lemma_joined_concat(head, entry_lines(v));
    assert(joined_lines(head) =~= seq!['#', '\n', '#'] + decimal(seconds) + seq!['\n']) by {
        let one = seq![seq!['#']];
        assert(head.drop_last() =~= one);
        assert(one.drop_last() =~= Seq::<Seq<char>>::empty());
        assert(one.last() == seq!['#']);
        assert(joined_lines(one.drop_last()) =~= Seq::<char>::empty());
        assert(joined_lines(one) == joined_lines(one.drop_last()) + one.last() + seq!['\n']);
        assert(joined_lines(one) =~= seq!['#', '\n']);
        assert(head.last() == seq!['#'] + decimal(seconds));
        assert(joined_lines(head) == joined_lines(one) + (seq!['#'] + decimal(seconds)) + seq!['\n']);
    }
    assert(stored_text(v, seconds) =~= joined_lines(ls));
    lemma_decimal_unbroken(seconds);
    assert forall|i: int| 0 <= i < ls.len() implies unbroken(#[trigger] ls[i]) by {
        if i >= 2 {
            assert(ls[i] == entry_line(v[i - 2]));
            lemma_entry_line_reads(v[i - 2]);
        } else if i == 1 {
            assert forall|k: int| 0 <= k < ls[1].len() implies #[trigger] ls[1][k] != '\n' && ls[1][k] != '\r' by {
                if k > 0 {
                    assert(ls[1][k] == decimal(seconds)[k - 1]);
                }
            }
        }
    }
    lemma_lines_of_joined(ls);
    assert forall|i: int| 0 <= i < v.len() implies ls[i + 2] == entry_line(#[trigger] v[i]) by {}
    lemma_load_entries(ls, v, 0);
    assert(v.take(0) =~= Seq::<(String, String)>::empty());
    assert(ls[0] == seq!['#']);
    assert(ls[1][0] == '#');
    lemma_trim_start_kept(ls[0]);
    lemma_trim_start_kept(ls[1]);
    assert(load_from(ls, 0, Seq::empty(), Map::empty()) == load_from(ls, 1, Seq::empty(), Map::empty()));
    assert(load_from(ls, 1, Seq::empty(), Map::empty()) == load_from(ls, 2, Seq::empty(), Map::empty()));
    assert(loaded(stored_text(v, seconds)) == load_from(ls, 2, Seq::empty(), Map::empty()));
    assert forall|i: int, j: int| 0 <= i < j < v.len() implies (#[trigger] v[i]).0@ != (#[trigger] v[j]).0@ by {
        assert(lex_lt(keys_of(v)[i], keys_of(v)[j]));
        if v[i].0@ == v[j].0@ {
            lemma_lex_irreflexive(v[i].0@);
        }
    }
    lemma_put_all_is_map(v);
}

} // verus!
