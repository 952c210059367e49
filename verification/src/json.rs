//! The persisted form of the mapping: one JSON object whose keys are the
//! item names and whose values are booleans.
//!
//! The writer emits a canonical text: no spacing, `"` and `\` escaped with a
//! backslash, control characters as `\u00XX`, everything else raw. The
//! reader accepts any JSON object of string-to-boolean fields: insignificant
//! whitespace around the structural characters, the standard escapes (`\"`
//! `\\` `\/` `\b` `\f` `\n` `\r` `\t`), `\uXXXX` for code points outside the
//! surrogate range, and surrogate pairs for characters beyond the basic
//! plane. A text whose names are empty or repeat is refused: names are
//! unique map keys and never empty.

use vstd::prelude::*;
use vstd::string::StrSliceExecFns;
use crate::model::{valid_name, wf_entries, entry_views};
use crate::store::check_name;

verus! {

// ---------------------------------------------------------------------------
// What the writer produces
// ---------------------------------------------------------------------------

/// The character for one hexadecimal digit, in lower case.
pub open spec fn hex_digit_char(v: int) -> char {
    if v < 10 {
        (48 + v) as char
    } else {
        (87 + v) as char
    }
}

/// The characters that stand for one name character: quote and backslash are
/// escaped with a backslash, a control character as `\u00XX`, and everything
/// else stands as itself.
pub open spec fn esc_char(c: char) -> Seq<char> {
    if c == '"' {
        seq!['\\', '"']
    } else if c == '\\' {
        seq!['\\', '\\']
    } else if (c as u32) < 32 {
        seq![
            '\\',
            'u',
            '0',
            '0',
            hex_digit_char((c as u32) as int / 16),
            hex_digit_char((c as u32) as int % 16),
        ]
    } else {
        seq![c]
    }
}

/// The characters that stand for the name characters from position `j` on.
pub open spec fn esc_from(s: Seq<char>, j: int) -> Seq<char>
    decreases s.len() - j,
{
    if j < 0 || j >= s.len() {
        Seq::empty()
    } else {
        esc_char(s[j]) + esc_from(s, j + 1)
    }
}

/// The characters that stand for a completion flag.
pub open spec fn ser_bool(b: bool) -> Seq<char> {
    if b {
        seq!['t', 'r', 'u', 'e']
    } else {
        seq!['f', 'a', 'l', 's', 'e']
    }
}

/// The characters that stand for one member: the quoted, escaped name, a
/// colon, and the flag.
pub open spec fn ser_entry(name: Seq<char>, b: bool) -> Seq<char> {
    seq!['"'] + esc_from(name, 0) + seq!['"', ':'] + ser_bool(b)
}

/// The members from position `k` on, separated by commas.
pub open spec fn ser_from(es: Seq<(Seq<char>, bool)>, k: int) -> Seq<char>
    decreases es.len() - k,
{
    if k < 0 || k >= es.len() {
        Seq::empty()
    } else if k == es.len() - 1 {
        ser_entry(es[k].0, es[k].1)
    } else {
        ser_entry(es[k].0, es[k].1) + seq![','] + ser_from(es, k + 1)
    }
}

/// The whole text: the members between braces.
pub open spec fn spec_serialize(es: Seq<(Seq<char>, bool)>) -> Seq<char> {
    seq!['{'] + ser_from(es, 0) + seq!['}']
}

// ---------------------------------------------------------------------------
// What the reader accepts
// ---------------------------------------------------------------------------

/// JSON insignificant whitespace.
pub open spec fn is_ws(c: char) -> bool {
    c == ' ' || c == '\t' || c == '\n' || c == '\r'
}

/// The first position at or after `i` that holds no whitespace, or the end.
pub open spec fn skip_ws(t: Seq<char>, i: int) -> int
    decreases t.len() - i,
{
    if 0 <= i < t.len() && is_ws(t[i]) {
        skip_ws(t, i + 1)
    } else {
        i
    }
}

/// The character a one-letter escape stands for, if the letter is one.
pub open spec fn short_escape(e: char) -> Option<char> {
    if e == '"' {
        Some('"')
    } else if e == '\\' {
        Some('\\')
    } else if e == '/' {
        Some('/')
    } else if e == 'b' {
        Some('\u{8}')
    } else if e == 'f' {
        Some('\u{c}')
    } else if e == 'n' {
        Some('\n')
    } else if e == 'r' {
        Some('\r')
    } else if e == 't' {
        Some('\t')
    } else {
        None
    }
}

/// The value of one hexadecimal digit, or -1.
pub open spec fn hex_val(c: char) -> int {
    let v = c as u32;
    if 48 <= v <= 57 {
        v as int - 48
    } else if 97 <= v <= 102 {
        v as int - 87
    } else if 65 <= v <= 70 {
        v as int - 55
    } else {
        -1
    }
}

/// The code point that the four hexadecimal digits at `i` denote, or -1.
pub open spec fn hex4_val(t: Seq<char>, i: int) -> int {
    if hex_val(t[i]) >= 0 && hex_val(t[i + 1]) >= 0 && hex_val(t[i + 2]) >= 0 && hex_val(
        t[i + 3],
    ) >= 0 {
        4096 * hex_val(t[i]) + 256 * hex_val(t[i + 1]) + 16 * hex_val(t[i + 2]) + hex_val(t[i + 3])
    } else {
        -1
    }
}

/// Whether `v` is a code point that one `\uXXXX` may denote: in range and no
/// surrogate.
pub open spec fn scalar_code(v: int) -> bool {
    0 <= v < 0xD800 || 0xE000 <= v < 0x110000
}

/// The leading half of a surrogate pair.
pub open spec fn high_surrogate(v: int) -> bool {
    0xD800 <= v < 0xDC00
}

/// The trailing half of a surrogate pair.
pub open spec fn low_surrogate(v: int) -> bool {
    0xDC00 <= v < 0xE000
}

/// The code point beyond the basic plane that a surrogate pair denotes.
pub open spec fn pair_code(hi: int, lo: int) -> int {
    0x10000 + (hi - 0xD800) * 0x400 + (lo - 0xDC00)
}

/// Reads a name from position `i`, just past the opening quote, up to and
/// past the closing quote. Raw control characters are refused; the standard
/// escapes are understood.
pub open spec fn parse_string_body(t: Seq<char>, i: int) -> Option<(Seq<char>, int)>
    decreases t.len() - i,
{
    if i < 0 || i >= t.len() {
        None
    } else if t[i] == '"' {
        Some((Seq::empty(), i + 1))
    } else if t[i] == '\\' {
        if i + 1 >= t.len() {
            None
        } else {
            match short_escape(t[i + 1]) {
                Some(c) => match parse_string_body(t, i + 2) {
                    Some((s, j)) => Some((seq![c] + s, j)),
                    None => None,
                },
                None => if t[i + 1] == 'u' && i + 5 < t.len() && scalar_code(hex4_val(t, i + 2)) {
                    match parse_string_body(t, i + 6) {
                        Some((s, j)) => Some((seq![hex4_val(t, i + 2) as char] + s, j)),
                        None => None,
                    }
                } else if t[i + 1] == 'u' && i + 11 < t.len() && high_surrogate(hex4_val(t, i + 2))
                    && t[i + 6] == '\\' && t[i + 7] == 'u' && low_surrogate(hex4_val(t, i + 8)) {
                    match parse_string_body(t, i + 12) {
                        Some((s, j)) => Some(
                            (seq![pair_code(hex4_val(t, i + 2), hex4_val(t, i + 8)) as char] + s, j),
                        ),
                        None => None,
                    }
                } else {
                    None
                },
            }
        }
    } else if (t[i] as u32) < 32 {
        None
    } else {
        match parse_string_body(t, i + 1) {
            Some((s, j)) => Some((seq![t[i]] + s, j)),
            None => None,
        }
    }
}

/// Reads a completion flag at position `i`.
pub open spec fn parse_bool(t: Seq<char>, i: int) -> Option<(bool, int)> {
    if 0 <= i && i + 4 <= t.len() && t[i] == 't' && t[i + 1] == 'r' && t[i + 2] == 'u' && t[i + 3]
        == 'e' {
        Some((true, i + 4))
    } else if 0 <= i && i + 5 <= t.len() && t[i] == 'f' && t[i + 1] == 'a' && t[i + 2] == 'l' && t[i
        + 3] == 's' && t[i + 4] == 'e' {
        Some((false, i + 5))
    } else {
        None
    }
}

/// Reads one member from position `i`: a quoted name, a colon, a flag, with
/// whitespace allowed around them.
pub open spec fn parse_member(t: Seq<char>, i: int) -> Option<((Seq<char>, bool), int)> {
    let a = skip_ws(t, i);
    if 0 <= a < t.len() && t[a] == '"' {
        match parse_string_body(t, a + 1) {
            Some((name, j)) => {
                let b = skip_ws(t, j);
                if b < t.len() && t[b] == ':' {
                    match parse_bool(t, skip_ws(t, b + 1)) {
                        Some((v, k)) => Some(((name, v), k)),
                        None => None,
                    }
                } else {
                    None
                }
            },
            None => None,
        }
    } else {
        None
    }
}

/// Reads the members from position `i` up to and past the closing brace.
pub open spec fn parse_members(t: Seq<char>, i: int) -> Option<(Seq<(Seq<char>, bool)>, int)>
    decreases t.len() - i,
{
    match parse_member(t, i) {
        Some((e, j)) => {
            let a = skip_ws(t, j);
            if a < t.len() && t[a] == ',' {
                if i < a {
                    match parse_members(t, a + 1) {
                        Some((es, k)) => Some((seq![e] + es, k)),
                        None => None,
                    }
                } else {
                    None
                }
            } else if a < t.len() && t[a] == '}' {
                Some((seq![e], a + 1))
            } else {
                None
            }
        },
        None => None,
    }
}

/// The texts the reader accepts, and the entries each one denotes: a JSON
/// object of string-to-boolean fields whose names are usable and distinct,
/// with nothing but whitespace around it.
pub open spec fn spec_parse(t: Seq<char>) -> Option<Seq<(Seq<char>, bool)>> {
    let s0 = skip_ws(t, 0);
    if s0 < t.len() && t[s0] == '{' {
        let s1 = skip_ws(t, s0 + 1);
        if s1 < t.len() && t[s1] == '}' {
            if skip_ws(t, s1 + 1) == t.len() {
                Some(Seq::empty())
            } else {
                None
            }
        } else {
            match parse_members(t, s0 + 1) {
                Some((es, j)) => if skip_ws(t, j) == t.len() && wf_entries(es) {
                    Some(es)
                } else {
                    None
                },
                None => None,
            }
        }
    } else {
        None
    }
}

// ---------------------------------------------------------------------------
// The writer
// ---------------------------------------------------------------------------

/// Relies on `String: FromIterator<char>`: collecting characters yields the
/// string whose characters are exactly those, in order.
#[verifier::external_body]
pub(crate) fn chars_to_string(v: Vec<char>) -> (s: String)
    ensures
        s@ == v@,
{
    v.into_iter().collect()
}

/// Appends the characters that stand for a completion flag.
fn push_ser_bool(out: &mut Vec<char>, b: bool)
    ensures
        final(out)@ == old(out)@ + ser_bool(b),
{
    if b {
        out.push('t');
        out.push('r');
        out.push('u');
        out.push('e');
    } else {
        out.push('f');
        out.push('a');
        out.push('l');
        out.push('s');
        out.push('e');
    }
    proof {
        assert(out@ =~= old(out)@ + ser_bool(b));
    }
}

/// The character for one hexadecimal digit, in lower case.
fn hex_digit_char_exec(v: u32) -> (c: char)
    requires
        v < 16,
    ensures
        c == hex_digit_char(v as int),
{
    if v == 0 {
        '0'
    } else if v == 1 {
        '1'
    } else if v == 2 {
        '2'
    } else if v == 3 {
        '3'
    } else if v == 4 {
        '4'
    } else if v == 5 {
        '5'
    } else if v == 6 {
        '6'
    } else if v == 7 {
        '7'
    } else if v == 8 {
        '8'
    } else if v == 9 {
        '9'
    } else if v == 10 {
        'a'
    } else if v == 11 {
        'b'
    } else if v == 12 {
        'c'
    } else if v == 13 {
        'd'
    } else if v == 14 {
        'e'
    } else {
        'f'
    }
}

/// Appends the escaped form of a name.
fn push_escaped(out: &mut Vec<char>, name: &str, n: usize)
    requires
        n == name@.len(),
    ensures
        final(out)@ == old(out)@ + esc_from(name@, 0),
{
    let mut j: usize = 0;
    while j < n
        invariant
            j <= n,
            n == name@.len(),
            out@ + esc_from(name@, j as int) == old(out)@ + esc_from(name@, 0),
        decreases n - j,
    {
        let c = name.get_char(j);
        let ghost pre = out@;
        if c == '"' {
            out.push('\\');
            out.push('"');
        } else if c == '\\' {
            out.push('\\');
            out.push('\\');
        } else if (c as u32) < 32 {
            let v = c as u32;
            out.push('\\');
            out.push('u');
            out.push('0');
            out.push('0');
            out.push(hex_digit_char_exec(v / 16));
            out.push(hex_digit_char_exec(v % 16));
        } else {
            out.push(c);
        }
        proof {
            assert(out@ =~= pre + esc_char(name@[j as int]));
            assert(out@ + esc_from(name@, j + 1) =~= pre + esc_from(name@, j as int));
        }
        j += 1;
    }
    proof {
        assert(out@ + esc_from(name@, n as int) =~= out@);
    }
}

/// The canonical text for a snapshot of entries, as characters.
pub(crate) fn serialize_entries(items: &Vec<(String, bool)>) -> (r: Vec<char>)
    ensures
        r@ == spec_serialize(entry_views(items@)),
{
    let ghost ev = entry_views(items@);
    let mut out: Vec<char> = Vec::new();
    out.push('{');
    proof {
        assert(out@ + ser_from(ev, 0) + seq!['}'] =~= spec_serialize(ev));
    }
    let mut k: usize = 0;
    while k < items.len()
        invariant
            k <= items@.len(),
            ev == entry_views(items@),
            out@ + ser_from(ev, k as int) + seq!['}'] == spec_serialize(ev),
        decreases items@.len() - k,
    {
        let ghost pre = out@;
        out.push('"');
        let n = items[k].0.as_str().unicode_len();
        push_escaped(&mut out, items[k].0.as_str(), n);
        out.push('"');
        out.push(':');
        push_ser_bool(&mut out, items[k].1);
        if k + 1 < items.len() {
            out.push(',');
            proof {
                assert(out@ =~= pre + (ser_entry(ev[k as int].0, ev[k as int].1) + seq![',']));
            }
        } else {
            proof {
                assert(out@ =~= pre + ser_entry(ev[k as int].0, ev[k as int].1));
            }
        }
        proof {
            assert(out@ + ser_from(ev, k + 1) + seq!['}'] =~= pre + ser_from(ev, k as int)
                + seq!['}']);
        }
        k += 1;
    }
    out.push('}');
    proof {
        assert(out@ =~= spec_serialize(ev));
    }
    out
}

// ---------------------------------------------------------------------------
// The reader
// ---------------------------------------------------------------------------

/// Relies on char::from_u32: a valid Unicode scalar value converts to the
/// character with exactly that code point.
#[verifier::external_body]
fn char_from_code(v: u32) -> (r: char)
    requires
        v < 0xD800 || (0xE000 <= v && v < 0x110000),
    ensures
        r == v as char,
{
    char::from_u32(v).unwrap()
}

/// Moves past whitespace at `i`.
fn skip_ws_exec(t: &str, n: usize, i: usize) -> (r: usize)
    requires
        n == t@.len(),
        i <= n,
    ensures
        r as int == skip_ws(t@, i as int),
        i <= r <= n,
{
    let mut cur: usize = i;
    loop
        invariant
            n == t@.len(),
            i <= cur <= n,
            skip_ws(t@, i as int) == skip_ws(t@, cur as int),
        decreases n - cur,
    {
        if cur >= n {
            return cur;
        }
        let c = t.get_char(cur);
        if !(c == ' ' || c == '\t' || c == '\n' || c == '\r') {
            return cur;
        }
        cur += 1;
    }
}

/// The character a one-letter escape stands for, if the letter is one.
fn short_escape_exec(e: char) -> (r: Option<char>)
    ensures
        r == short_escape(e),
{
    if e == '"' {
        Some('"')
    } else if e == '\\' {
        Some('\\')
    } else if e == '/' {
        Some('/')
    } else if e == 'b' {
        Some('\u{8}')
    } else if e == 'f' {
        Some('\u{c}')
    } else if e == 'n' {
        Some('\n')
    } else if e == 'r' {
        Some('\r')
    } else if e == 't' {
        Some('\t')
    } else {
        None
    }
}

/// The value of one hexadecimal digit.
fn hex_digit_exec(c: char) -> (r: Option<u32>)
    ensures
        match r {
            Some(v) => hex_val(c) == v as int && v <= 15,
            None => hex_val(c) < 0,
        },
{
    let v = c as u32;
    if 48 <= v && v <= 57 {
        Some(v - 48)
    } else if 97 <= v && v <= 102 {
        Some(v - 87)
    } else if 65 <= v && v <= 70 {
        Some(v - 55)
    } else {
        None
    }
}

/// The code point the four hexadecimal digits at `i` denote.
fn hex4_exec(t: &str, n: usize, i: usize) -> (r: Option<u32>)
    requires
        n == t@.len(),
        i + 4 <= n,
    ensures
        match r {
            Some(v) => hex4_val(t@, i as int) == v as int && v <= 0xFFFF,
            None => hex4_val(t@, i as int) < 0,
        },
{
    let d0 = hex_digit_exec(t.get_char(i));
    let d1 = hex_digit_exec(t.get_char(i + 1));
    let d2 = hex_digit_exec(t.get_char(i + 2));
    let d3 = hex_digit_exec(t.get_char(i + 3));
    match (d0, d1, d2, d3) {
        (Some(v0), Some(v1), Some(v2), Some(v3)) => Some(4096 * v0 + 256 * v1 + 16 * v2 + v3),
        _ => None,
    }
}

/// Reads a name from `i`, just past the opening quote.
fn parse_string_body_exec(t: &str, n: usize, i: usize) -> (r: Option<(Vec<char>, usize)>)
    requires
        n == t@.len(),
        i <= n,
    ensures
        match r {
            Some((s, j)) => parse_string_body(t@, i as int) == Some((s@, j as int)) && i < j <= n,
            None => parse_string_body(t@, i as int) is None,
        },
{
    let mut acc: Vec<char> = Vec::new();
    let mut cur: usize = i;
    loop
        invariant
            n == t@.len(),
            i <= cur <= n,
            (match parse_string_body(t@, cur as int) {
                Some((s, j)) => parse_string_body(t@, i as int) == Some((acc@ + s, j)),
                None => parse_string_body(t@, i as int) is None,
            }),
        decreases n - cur,
    {
        if cur >= n {
            return None;
        }
        let c = t.get_char(cur);
        if c == '"' {
            proof {
                assert(acc@ + Seq::<char>::empty() =~= acc@);
            }
            return Some((acc, cur + 1));
        }
        if c == '\\' {
            if cur + 1 >= n {
                return None;
            }
            let c2 = t.get_char(cur + 1);
            match short_escape_exec(c2) {
                Some(c3) => {
                    let ghost pre = acc@;
                    acc.push(c3);
                    proof {
                        if let Some((s2, j2)) = parse_string_body(t@, cur as int + 2) {
                            assert(parse_string_body(t@, cur as int) == Some((seq![c3] + s2, j2)));
                            assert(acc@ + s2 =~= pre + (seq![c3] + s2));
                        }
                    }
                    cur += 2;
                },
                None => {
                    if c2 == 'u' && n >= 6 && cur <= n - 6 {
                        match hex4_exec(t, n, cur + 2) {
                            Some(val) => {
                                if val < 0xD800 || val >= 0xE000 {
                                    let c4 = char_from_code(val);
                                    let ghost pre = acc@;
                                    acc.push(c4);
                                    proof {
                                        assert(c4 == hex4_val(t@, cur as int + 2) as char);
                                        if let Some((s2, j2)) = parse_string_body(
                                            t@,
                                            cur as int + 6,
                                        ) {
                                            assert(parse_string_body(t@, cur as int) == Some(
                                                (seq![c4] + s2, j2),
                                            ));
                                            assert(acc@ + s2 =~= pre + (seq![c4] + s2));
                                        }
                                    }
                                    cur += 6;
                                } else if val < 0xDC00 && n >= 12 && cur <= n - 12 && t.get_char(
                                    cur + 6,
                                ) == '\\' && t.get_char(cur + 7) == 'u' {
                                    match hex4_exec(t, n, cur + 8) {
                                        Some(lo) => {
                                            if 0xDC00 <= lo && lo < 0xE000 {
                                                let code = 0x10000 + (val - 0xD800) * 0x400 + (lo
                                                    - 0xDC00);
                                                let c4 = char_from_code(code);
                                                let ghost pre = acc@;
                                                acc.push(c4);
                                                proof {
                                                    let ghost pc = pair_code(
                                                        hex4_val(t@, cur as int + 2),
                                                        hex4_val(t@, cur as int + 8),
                                                    );
                                                    assert(code as int == pc);
                                                    assert(c4 == pc as char);
                                                    if let Some((s2, j2)) = parse_string_body(
                                                        t@,
                                                        cur as int + 12,
                                                    ) {
                                                        assert(parse_string_body(t@, cur as int)
                                                            == Some((seq![pc as char] + s2, j2)));
                                                        assert(acc@ + s2 =~= pre + (seq![
                                                            pc as char,
                                                        ] + s2));
                                                    }
                                                }
                                                cur += 12;
                                            } else {
                                                return None;
                                            }
                                        },
                                        None => {
                                            return None;
                                        },
                                    }
                                } else {
                                    return None;
                                }
                            },
                            None => {
                                return None;
                            },
                        }
                    } else {
                        return None;
                    }
                },
            }
        } else if (c as u32) < 32 {
            return None;
        } else {
            let ghost pre = acc@;
            acc.push(c);
            proof {
                if let Some((s2, j2)) = parse_string_body(t@, cur as int + 1) {
                    assert(parse_string_body(t@, cur as int) == Some((seq![c] + s2, j2)));
                    assert(acc@ + s2 =~= pre + (seq![c] + s2));
                }
            }
            cur += 1;
        }
    }
}

/// Reads a completion flag at `i`.
fn parse_bool_exec(t: &str, n: usize, i: usize) -> (r: Option<(bool, usize)>)
    requires
        n == t@.len(),
        i <= n,
    ensures
        match r {
            Some((b, j)) => parse_bool(t@, i as int) == Some((b, j as int)) && i < j <= n,
            None => parse_bool(t@, i as int) is None,
        },
{
    if n >= 4 && i <= n - 4 && t.get_char(i) == 't' && t.get_char(i + 1) == 'r' && t.get_char(
        i + 2,
    ) == 'u' && t.get_char(i + 3) == 'e' {
        Some((true, i + 4))
    } else if n >= 5 && i <= n - 5 && t.get_char(i) == 'f' && t.get_char(i + 1) == 'a'
        && t.get_char(i + 2) == 'l' && t.get_char(i + 3) == 's' && t.get_char(i + 4) == 'e' {
        Some((false, i + 5))
    } else {
        None
    }
}

/// Reads one member at `i`.
fn parse_member_exec(t: &str, n: usize, i: usize) -> (r: Option<(String, bool, usize)>)
    requires
        n == t@.len(),
        i <= n,
    ensures
        match r {
            Some((name, b, j)) => parse_member(t@, i as int) == Some(((name@, b), j as int)) && i
                < j <= n,
            None => parse_member(t@, i as int) is None,
        },
{
    let a = skip_ws_exec(t, n, i);
    if a >= n {
        return None;
    }
    if t.get_char(a) != '"' {
        return None;
    }
    match parse_string_body_exec(t, n, a + 1) {
        Some((chars, j)) => {
            let b = skip_ws_exec(t, n, j);
            if b < n && t.get_char(b) == ':' {
                let c = skip_ws_exec(t, n, b + 1);
                match parse_bool_exec(t, n, c) {
                    Some((v, k)) => {
                        let name = chars_to_string(chars);
                        Some((name, v, k))
                    },
                    None => None,
                }
            } else {
                None
            }
        },
        None => None,
    }
}

/// Reads the members from `i` up to and past the closing brace.
fn parse_members_exec(t: &str, n: usize, i: usize) -> (r: Option<(Vec<(String, bool)>, usize)>)
    requires
        n == t@.len(),
        i <= n,
    ensures
        match r {
            Some((v, j)) => parse_members(t@, i as int) == Some((entry_views(v@), j as int)) && i
                < j <= n,
            None => parse_members(t@, i as int) is None,
        },
{
    let mut acc: Vec<(String, bool)> = Vec::new();
    let mut cur: usize = i;
    proof {
        assert(entry_views(acc@) =~= Seq::<(Seq<char>, bool)>::empty());
    }
    loop
        invariant
            n == t@.len(),
            i <= cur <= n,
            (match parse_members(t@, cur as int) {
                Some((es, j)) => parse_members(t@, i as int) == Some((entry_views(acc@) + es, j)),
                None => parse_members(t@, i as int) is None,
            }),
        decreases n - cur,
    {
        match parse_member_exec(t, n, cur) {
            Some((name, bval, j)) => {
                let a = skip_ws_exec(t, n, j);
                if a < n && t.get_char(a) == ',' {
                    let ghost pre = acc@;
                    acc.push((name, bval));
                    proof {
                        assert(entry_views(acc@) =~= entry_views(pre).push((name@, bval)));
                        if let Some((es2, k2)) = parse_members(t@, a as int + 1) {
                            assert(parse_members(t@, cur as int) == Some(
                                (seq![(name@, bval)] + es2, k2),
                            ));
                            assert(entry_views(acc@) + es2 =~= entry_views(pre) + (seq![
                                (name@, bval),
                            ] + es2));
                        }
                    }
                    cur = a + 1;
                } else if a < n && t.get_char(a) == '}' {
                    let ghost pre = acc@;
                    acc.push((name, bval));
                    proof {
                        assert(entry_views(acc@) =~= entry_views(pre).push((name@, bval)));
                        assert(parse_members(t@, cur as int) == Some(
                            (seq![(name@, bval)], a as int + 1),
                        ));
                        assert(entry_views(acc@) =~= entry_views(pre) + seq![(name@, bval)]);
                    }
                    return Some((acc, a + 1));
                } else {
                    return None;
                }
            },
            None => {
                return None;
            },
        }
    }
}

/// Whether every name of the snapshot is usable and none repeats.
fn names_ok(v: &Vec<(String, bool)>) -> (r: bool)
    ensures
        r == wf_entries(entry_views(v@)),
{
    let ghost ev = entry_views(v@);
    let mut q: usize = 0;
    while q < v.len()
        invariant
            q <= v@.len(),
            ev == entry_views(v@),
            forall|a: int| 0 <= a < q ==> valid_name((#[trigger] ev[a]).0),
            forall|a: int, b: int| 0 <= a < b < q ==> ev[a].0 != ev[b].0,
        decreases v@.len() - q,
    {
        if !check_name(&v[q].0) {
            proof {
                assert(!valid_name(ev[q as int].0));
                assert(!wf_entries(ev));
            }
            return false;
        }
        let mut p: usize = 0;
        while p < q
            invariant
                p <= q < v@.len(),
                ev == entry_views(v@),
                forall|a: int| 0 <= a < p ==> ev[a].0 != ev[q as int].0,
            decreases q - p,
        {
            if v[p].0 == v[q].0 {
                proof {
                    assert(ev[p as int].0 == ev[q as int].0);
                    assert(!wf_entries(ev));
                }
                return false;
            }
            p += 1;
        }
        q += 1;
    }
    proof {
        assert(wf_entries(ev));
    }
    true
}

/// Reads a whole persisted text; yields the entries it denotes, or nothing
/// where the text is not a well-formed persisted mapping.
pub(crate) fn parse_text(t: &str) -> (r: Option<Vec<(String, bool)>>)
    ensures
        match r {
            Some(v) => spec_parse(t@) == Some(entry_views(v@)),
            None => spec_parse(t@) is None,
        },
{
    let n = t.unicode_len();
    let s0 = skip_ws_exec(t, n, 0);
    if s0 >= n {
        return None;
    }
    if t.get_char(s0) != '{' {
        return None;
    }
    let s1 = skip_ws_exec(t, n, s0 + 1);
    if s1 < n && t.get_char(s1) == '}' {
        if skip_ws_exec(t, n, s1 + 1) == n {
            let v: Vec<(String, bool)> = Vec::new();
            proof {
                assert(entry_views(v@) =~= Seq::<(Seq<char>, bool)>::empty());
            }
            return Some(v);
        } else {
            return None;
        }
    }
    match parse_members_exec(t, n, s0 + 1) {
        Some((v, j)) => {
            if skip_ws_exec(t, n, j) != n {
                return None;
            }
            if !names_ok(&v) {
                return None;
            }
            Some(v)
        },
        None => None,
    }
}

// ---------------------------------------------------------------------------
// Round trip: the reader accepts what the writer produces
// ---------------------------------------------------------------------------

/// A written hexadecimal digit reads back as its value.
proof fn lemma_hex_digit_char(v: int)
    requires
        0 <= v < 16,
    ensures
        hex_val(hex_digit_char(v)) == v,
{
    if v < 10 {
        assert(((48 + v) as char) as u32 == 48 + v);
    } else {
        assert(((87 + v) as char) as u32 == 87 + v);
    }
}

/// Reading an escaped name back: where the text from `i` holds the escaped
/// form of the name from `j` on and then a closing quote, the reader yields
/// exactly those name characters and stops just past the quote.
proof fn lemma_parse_esc(t: Seq<char>, name: Seq<char>, j: int, i: int)
    requires
        0 <= j <= name.len(),
        0 <= i,
        i + esc_from(name, j).len() + 1 <= t.len(),
        t.subrange(i, i + esc_from(name, j).len()) == esc_from(name, j),
        t[i + esc_from(name, j).len()] == '"',
    ensures
        parse_string_body(t, i) == Some(
            (name.subrange(j, name.len() as int), i + esc_from(name, j).len() + 1),
        ),
    decreases name.len() - j,
{
    let full = esc_from(name, j);
    assert forall|m: int| 0 <= m < full.len() implies t[i + m] == full[m] by {
        assert(t.subrange(i, i + full.len())[m] == t[i + m]);
    }
    if j == name.len() {
        assert(full.len() == 0);
        assert(name.subrange(j, name.len() as int) =~= Seq::<char>::empty());
    } else {
        let c = name[j];
        let e1 = esc_char(c);
        let rest = esc_from(name, j + 1);
        let l1 = e1.len() as int;
        assert(full == e1 + rest);
        assert(t.subrange(i + l1, i + l1 + rest.len()) =~= rest) by {
            assert forall|m: int| 0 <= m < rest.len() implies t.subrange(
                i + l1,
                i + l1 + rest.len(),
            )[m] == rest[m] by {
                assert((e1 + rest)[l1 + m] == rest[m]);
                assert(t[i + (l1 + m)] == full[l1 + m]);
            }
        }
        assert(t[i + l1 + rest.len()] == '"');
        lemma_parse_esc(t, name, j + 1, i + l1);
        if c == '"' {
            assert(full[0] == '\\' && full[1] == '"');
            assert(t[i + 0] == full[0] && t[i + 1] == full[1]);
            assert(short_escape(t[i + 1]) == Some('"'));
            assert(seq![c] + name.subrange(j + 1, name.len() as int) =~= name.subrange(
                j,
                name.len() as int,
            ));
        } else if c == '\\' {
            assert(full[0] == '\\' && full[1] == '\\');
            assert(t[i + 0] == full[0] && t[i + 1] == full[1]);
            assert(short_escape(t[i + 1]) == Some('\\'));
            assert(seq![c] + name.subrange(j + 1, name.len() as int) =~= name.subrange(
                j,
                name.len() as int,
            ));
        } else if (c as u32) < 32 {
            let code = (c as u32) as int;
            let h1 = hex_digit_char(code / 16);
            let h0 = hex_digit_char(code % 16);
            assert(full[0] == '\\' && full[1] == 'u' && full[2] == '0' && full[3] == '0' && full[4]
                == h1 && full[5] == h0);
            assert(t[i + 0] == full[0] && t[i + 1] == full[1] && t[i + 2] == full[2] && t[i + 3]
                == full[3] && t[i + 4] == full[4] && t[i + 5] == full[5]);
            assert(short_escape('u') is None);
            lemma_hex_digit_char(code / 16);
            lemma_hex_digit_char(code % 16);
            assert(hex_val('0') == 0) by {
                assert('0' as u32 == 48);
            }
            assert(hex4_val(t, i + 2) == 16 * (code / 16) + code % 16);
            assert(hex4_val(t, i + 2) == code);
            assert(scalar_code(code));
            let cu: u32 = c as u32;
            vstd::utf8::char_u32_cast(c, cu);
            assert((cu as char) == c);
            assert(code as char == c);
            assert(hex4_val(t, i + 2) as char == c);
            assert(seq![c] + name.subrange(j + 1, name.len() as int) =~= name.subrange(
                j,
                name.len() as int,
            ));
        } else {
            assert(full[0] == c);
            assert(t[i + 0] == full[0]);
            assert(seq![c] + name.subrange(j + 1, name.len() as int) =~= name.subrange(
                j,
                name.len() as int,
            ));
        }
    }
}

/// Reading a flag back: where the text from `i` holds the written flag, the
/// reader yields that flag.
proof fn lemma_parse_bool_ser(t: Seq<char>, i: int, b: bool)
    requires
        0 <= i,
        i + ser_bool(b).len() <= t.len(),
        t.subrange(i, i + ser_bool(b).len()) == ser_bool(b),
    ensures
        parse_bool(t, i) == Some((b, i + ser_bool(b).len())),
{
    let w = ser_bool(b);
    assert forall|m: int| 0 <= m < w.len() implies t[i + m] == w[m] by {
        assert(t.subrange(i, i + w.len())[m] == t[i + m]);
    }
    assert(t[i] == w[0]);
}

/// Reading a member back: where the text from `i` holds one written member,
/// the reader yields exactly that member.
proof fn lemma_parse_member_ser(t: Seq<char>, i: int, name: Seq<char>, b: bool)
    requires
        valid_name(name),
        0 <= i,
        i + ser_entry(name, b).len() <= t.len(),
        t.subrange(i, i + ser_entry(name, b).len()) == ser_entry(name, b),
    ensures
        parse_member(t, i) == Some(((name, b), i + ser_entry(name, b).len())),
{
    let w = ser_entry(name, b);
    let el = esc_from(name, 0).len() as int;
    let bl = ser_bool(b).len() as int;
    assert(w.len() == 3 + el + bl);
    assert forall|m: int| 0 <= m < w.len() implies t[i + m] == w[m] by {
        assert(t.subrange(i, i + w.len())[m] == t[i + m]);
    }
    assert(w[0] == '"');
    assert(t[i + 0] == w[0]);
    assert(skip_ws(t, i) == i);
    assert(t.subrange(i + 1, i + 1 + el) =~= esc_from(name, 0)) by {
        assert forall|m: int| 0 <= m < el implies t.subrange(i + 1, i + 1 + el)[m] == esc_from(
            name,
            0,
        )[m] by {
            assert(t[i + (1 + m)] == w[1 + m]);
            assert(w[1 + m] == esc_from(name, 0)[m]);
        }
    }
    assert(t[i + 1 + el] == w[1 + el] && w[1 + el] == '"');
    lemma_parse_esc(t, name, 0, i + 1);
    assert(name.subrange(0, name.len() as int) =~= name);
    assert(t[i + 2 + el] == w[2 + el] && w[2 + el] == ':');
    assert(skip_ws(t, i + 2 + el) == i + 2 + el);
    assert(t.subrange(i + 3 + el, i + 3 + el + bl) =~= ser_bool(b)) by {
        assert forall|m: int| 0 <= m < bl implies t.subrange(i + 3 + el, i + 3 + el + bl)[m]
            == ser_bool(b)[m] by {
            assert(t[i + (3 + el + m)] == w[3 + el + m]);
            assert(w[3 + el + m] == ser_bool(b)[m]);
        }
    }
    assert(t[i + 3 + el] == w[3 + el] && w[3 + el] == ser_bool(b)[0]);
    assert(skip_ws(t, i + 3 + el) == i + 3 + el);
    lemma_parse_bool_ser(t, i + 3 + el, b);
}

/// Reading the members back: where the text from `i` holds the written
/// members from `k` on and then the closing brace at the very end, the
/// reader yields exactly those entries and consumes the whole text.
proof fn lemma_parse_members_ser(t: Seq<char>, es: Seq<(Seq<char>, bool)>, k: int, i: int)
    requires
        forall|m: int| 0 <= m < es.len() ==> valid_name((#[trigger] es[m]).0),
        0 <= k < es.len(),
        0 <= i,
        i + ser_from(es, k).len() + 1 == t.len(),
        t.subrange(i, i + ser_from(es, k).len()) == ser_from(es, k),
        t[t.len() - 1] == '}',
    ensures
        parse_members(t, i) == Some((es.subrange(k, es.len() as int), t.len() as int)),
    decreases es.len() - k,
{
    let w = ser_from(es, k);
    let se = ser_entry(es[k].0, es[k].1);
    let el = esc_from(es[k].0, 0).len() as int;
    let bl = ser_bool(es[k].1).len() as int;
    assert(se.len() == 3 + el + bl);
    assert forall|m: int| 0 <= m < w.len() implies t[i + m] == w[m] by {
        assert(t.subrange(i, i + w.len())[m] == t[i + m]);
    }
    if k == es.len() - 1 {
        assert(w == se);
        lemma_parse_member_ser(t, i, es[k].0, es[k].1);
        let j = i + se.len();
        assert(j == t.len() - 1);
        assert(t[j] == '}');
        assert(skip_ws(t, j) == j);
        assert((es[k].0, es[k].1) == es[k]);
        assert(seq![es[k]] =~= es.subrange(k, es.len() as int));
    } else {
        let rest = ser_from(es, k + 1);
        assert(w == se + seq![','] + rest);
        assert(t.subrange(i, i + se.len()) =~= se) by {
            assert forall|m: int| 0 <= m < se.len() implies t.subrange(i, i + se.len())[m]
                == se[m] by {
                assert(t[i + m] == w[m]);
                assert(w[m] == se[m]);
            }
        }
        lemma_parse_member_ser(t, i, es[k].0, es[k].1);
        let j = i + se.len();
        assert(t[j] == w[se.len() as int] && w[se.len() as int] == ',');
        assert(skip_ws(t, j) == j);
        assert(t.subrange(j + 1, j + 1 + rest.len()) =~= rest) by {
            assert forall|m: int| 0 <= m < rest.len() implies t.subrange(
                j + 1,
                j + 1 + rest.len(),
            )[m] == rest[m] by {
                assert(t[i + (se.len() + 1 + m)] == w[se.len() + 1 + m]);
                assert(w[se.len() + 1 + m] == rest[m]);
            }
        }
        lemma_parse_members_ser(t, es, k + 1, j + 1);
        assert((es[k].0, es[k].1) == es[k]);
        assert(seq![es[k]] + es.subrange(k + 1, es.len() as int) =~= es.subrange(
            k,
            es.len() as int,
        ));
    }
}

/// Round trip: the reader accepts every text the writer produces and yields
/// exactly the entries that were written.
pub proof fn lemma_round_trip(es: Seq<(Seq<char>, bool)>)
    requires
        wf_entries(es),
    ensures
        spec_parse(spec_serialize(es)) == Some(es),
{
    let t = spec_serialize(es);
    if es.len() == 0 {
        assert(ser_from(es, 0) =~= Seq::<char>::empty());
        assert(t =~= seq!['{', '}']);
        assert(t[0] == '{' && t[1] == '}');
        assert(skip_ws(t, 0) == 0);
        assert(skip_ws(t, 1) == 1);
        assert(skip_ws(t, 2) == 2);
        assert(es =~= Seq::<(Seq<char>, bool)>::empty());
    } else {
        let w = ser_from(es, 0);
        let se = ser_entry(es[0].0, es[0].1);
        assert(se.len() == 3 + esc_from(es[0].0, 0).len() + ser_bool(es[0].1).len());
        assert(w.len() >= se.len());
        assert(t.len() == 2 + w.len());
        assert(t[0] == '{');
        assert(skip_ws(t, 0) == 0);
        assert(t[t.len() - 1] == '}');
        assert(t.subrange(1, 1 + w.len() as int) =~= w) by {
            assert forall|m: int| 0 <= m < w.len() implies t.subrange(1, 1 + w.len() as int)[m]
                == w[m] by {
                assert(t[1 + m] == (seq!['{'] + w + seq!['}'])[1 + m]);
            }
        }
        assert(se[0] == '"' && w[0] == se[0]);
        assert(t[1] == w[0]);
        assert(skip_ws(t, 1) == 1);
        assert(t[1] != '}');
        lemma_parse_members_ser(t, es, 0, 1);
        assert(skip_ws(t, t.len() as int) == t.len());
        assert(es.subrange(0, es.len() as int) =~= es);
    }
}

} // verus!
