use vstd::prelude::*;

use crate::event::{Event, EventModel};
use crate::ext::push_char;

verus! {

// ------------------------------------------------------------------
// The record grammar.
//
// A persisted record is one line of text: an object in braces holding
// the three fields `id` (an integer), `name` and `time` (strings), in
// any order, possibly alongside unknown fields with primitive values,
// which are ignored. The writer always emits the canonical form
// produced by `spec_serialize`.
// ------------------------------------------------------------------

pub open spec fn dchar(d: int) -> char {
    ((48 + d) as u8) as char
}

pub open spec fn hchar(d: int) -> char {
    if d < 10 {
        ((48 + d) as u8) as char
    } else {
        ((87 + d) as u8) as char
    }
}

pub open spec fn is_digit(c: char) -> bool {
    48 <= c as u32 && c as u32 <= 57
}

pub open spec fn digit_val(c: char) -> int {
    c as u32 - 48
}

/// How one character of a field value is written inside a quoted string.
pub open spec fn escape_char(c: char) -> Seq<char> {
    if c == '"' {
        seq!['\\', '"']
    } else if c == '\\' {
        seq!['\\', '\\']
    } else if c == '\n' {
        seq!['\\', 'n']
    } else if c == '\r' {
        seq!['\\', 'r']
    } else if c == '\t' {
        seq!['\\', 't']
    } else if c as u32 == 8 {
        seq!['\\', 'b']
    } else if c as u32 == 12 {
        seq!['\\', 'f']
    } else if (c as u32) < 32 {
        seq!['\\', 'u', '0', '0', hchar(c as u32 as int / 16), hchar(c as u32 as int % 16)]
    } else {
        seq![c]
    }
}

pub open spec fn escape_seq(s: Seq<char>) -> Seq<char>
    decreases s.len(),
{
    if s.len() == 0 {
        Seq::empty()
    } else {
        escape_char(s[0]) + escape_seq(s.drop_first())
    }
}

/// Decimal digits of a non-negative integer, most significant first.
pub open spec fn dec_rep(n: nat) -> Seq<char>
    decreases n,
{
    if n < 10 {
        seq![dchar(n as int)]
    } else {
        dec_rep(n / 10).push(dchar((n % 10) as int))
    }
}

pub open spec fn int_rep(v: int) -> Seq<char> {
    if v < 0 {
        seq!['-'] + dec_rep((-v) as nat)
    } else {
        dec_rep(v as nat)
    }
}

/// The canonical serialized form of an event: exactly the line the
/// writer appends to the log (without the line terminator).
pub open spec fn spec_serialize(e: EventModel) -> Seq<char> {
    seq!['{', '"', 'i', 'd', '"', ':'] + int_rep(e.id) + seq![',', '"', 'n', 'a', 'm', 'e', '"', ':', '"'] + escape_seq(e.name) + seq!['"', ',', '"', 't', 'i', 'm', 'e', '"', ':', '"'] + escape_seq(e.time) + seq!['"', '}']
}

// ------------------------------------------------------------------
// Serialization (executable).
// ------------------------------------------------------------------

proof fn lemma_escape_seq_snoc(s: Seq<char>, c: char)
    ensures
        escape_seq(s.push(c)) == escape_seq(s) + escape_char(c),
    decreases s.len(),
{
    if s.len() == 0 {
        assert(s.push(c)[0] == c);
        assert(s.push(c).drop_first() =~= Seq::<char>::empty());
        assert(escape_seq(Seq::<char>::empty()) == Seq::<char>::empty());
        assert(escape_seq(s.push(c)) == escape_char(c) + escape_seq(Seq::<char>::empty()));
        assert(escape_seq(s.push(c)) =~= escape_char(c));
        assert(escape_seq(s) + escape_char(c) =~= escape_char(c));
    } else {
        assert(s.push(c).drop_first() =~= s.drop_first().push(c));
        lemma_escape_seq_snoc(s.drop_first(), c);
        assert(escape_seq(s.push(c)) =~= escape_seq(s) + escape_char(c));
    }
}

fn push_escaped(out: &mut String, s: &str)
    ensures
        final(out)@ == old(out)@ + escape_seq(s@),
{
    let n: usize = s.unicode_len();
    let mut i: usize = 0;
    proof {
        assert(s@.take(0) =~= Seq::<char>::empty());
        assert(out@ + escape_seq(s@.take(0)) =~= out@);
    }
    while i < n
        invariant
            i <= n,
            n == s@.len(),
            out@ == old(out)@ + escape_seq(s@.take(i as int)),
        decreases n - i,
    {
        let c: char = s.get_char(i);
        let cu: u32 = c as u32;
        if c == '"' {
            push_char(out, '\\');
            push_char(out, '"');
        } else if c == '\\' {
            push_char(out, '\\');
            push_char(out, '\\');
        } else if c == '\n' {
            push_char(out, '\\');
            push_char(out, 'n');
        } else if c == '\r' {
            push_char(out, '\\');
            push_char(out, 'r');
        } else if c == '\t' {
            push_char(out, '\\');
            push_char(out, 't');
        } else if cu == 8 {
            push_char(out, '\\');
            push_char(out, 'b');
        } else if cu == 12 {
            push_char(out, '\\');
            push_char(out, 'f');
        } else if cu < 32 {
            push_char(out, '\\');
            push_char(out, 'u');
            push_char(out, '0');
            push_char(out, '0');
            let hi: u32 = cu / 16;
            let lo: u32 = cu % 16;
            let hc: char = if hi < 10 {
                ((48 + hi) as u8) as char
            } else {
                ((87 + hi) as u8) as char
            };
            let lc: char = if lo < 10 {
                ((48 + lo) as u8) as char
            } else {
                ((87 + lo) as u8) as char
            };
            push_char(out, hc);
            push_char(out, lc);
        } else {
            push_char(out, c);
        }
        proof {
            lemma_escape_seq_snoc(s@.take(i as int), s@[i as int]);
            assert(s@.take(i + 1) =~= s@.take(i as int).push(s@[i as int]));
            assert(out@ =~= old(out)@ + escape_seq(s@.take(i + 1)));
        }
        i = i + 1;
    }
    proof {
        assert(s@.take(n as int) =~= s@);
    }
}

fn push_dec(out: &mut String, n: u64)
    ensures
        final(out)@ == old(out)@ + dec_rep(n as nat),
    decreases n,
{
    if n < 10 {
        let c: char = ((48 + n) as u8) as char;
        push_char(out, c);
        proof {
            assert(out@ =~= old(out)@ + dec_rep(n as nat));
        }
    } else {
        push_dec(out, n / 10);
        let c: char = ((48 + n % 10) as u8) as char;
        push_char(out, c);
        proof {
            assert(out@ =~= old(out)@ + dec_rep(n as nat));
        }
    }
}

fn push_int(out: &mut String, v: i32)
    ensures
        final(out)@ == old(out)@ + int_rep(v as int),
{
    if v < 0 {
        push_char(out, '-');
        let mag: u64 = (-(v as i64)) as u64;
        assert(mag as nat == (-(v as int)) as nat);
        push_dec(out, mag);
        proof {
            assert(out@ =~= old(out)@ + int_rep(v as int));
        }
    } else {
        push_dec(out, v as u64);
    }
}

/// Serialize an event to its one-line persisted form.
pub fn serialize_event(e: &Event) -> (r: String)
    ensures
        r@ == spec_serialize(e@),
{
    let mut out = String::new();
    push_char(&mut out, '{');
    push_char(&mut out, '"');
    push_char(&mut out, 'i');
    push_char(&mut out, 'd');
    push_char(&mut out, '"');
    push_char(&mut out, ':');
    push_int(&mut out, e.id);
    push_char(&mut out, ',');
    push_char(&mut out, '"');
    push_char(&mut out, 'n');
    push_char(&mut out, 'a');
    push_char(&mut out, 'm');
    push_char(&mut out, 'e');
    push_char(&mut out, '"');
    push_char(&mut out, ':');
    push_char(&mut out, '"');
    push_escaped(&mut out, e.name.as_str());
    push_char(&mut out, '"');
    push_char(&mut out, ',');
    push_char(&mut out, '"');
    push_char(&mut out, 't');
    push_char(&mut out, 'i');
    push_char(&mut out, 'm');
    push_char(&mut out, 'e');
    push_char(&mut out, '"');
    push_char(&mut out, ':');
    push_char(&mut out, '"');
    push_escaped(&mut out, e.time.as_str());
    push_char(&mut out, '"');
    push_char(&mut out, '}');
    proof {
        assert(out@ =~= spec_serialize(e@));
    }
    out
}

} // verus!

use crate::ext::char_from_u32;

verus! {

// ------------------------------------------------------------------
// Parsing: the grammar as spec functions over character sequences.
// Each parser consumes a prefix and yields the remaining suffix.
// ------------------------------------------------------------------

pub open spec fn is_ws(c: char) -> bool {
    c == ' ' || c == '\t' || c == '\r'
}

pub open spec fn skip_ws(s: Seq<char>) -> Seq<char>
    decreases s.len(),
{
    if s.len() > 0 && is_ws(s[0]) {
        skip_ws(s.drop_first())
    } else {
        s
    }
}

pub open spec fn hex_val(c: char) -> Option<u32> {
    if 48 <= c as u32 && c as u32 <= 57 {
        Some((c as u32 - 48) as u32)
    } else if 97 <= c as u32 && c as u32 <= 102 {
        Some((c as u32 - 87) as u32)
    } else if 65 <= c as u32 && c as u32 <= 70 {
        Some((c as u32 - 55) as u32)
    } else {
        None
    }
}

pub open spec fn valid_scalar(u: u32) -> bool {
    u < 0xD800 || (0xE000 <= u && u <= 0x10FFFF)
}

/// Parse the body of a quoted string, the opening quote already
/// consumed; `acc` holds the characters decoded so far.
pub open spec fn parse_str_body(s: Seq<char>, acc: Seq<char>) -> Option<(Seq<char>, Seq<char>)>
    decreases s.len(),
{
    if s.len() == 0 {
        None
    } else if s[0] == '"' {
        Some((acc, s.drop_first()))
    } else if s[0] == '\\' {
        if s.len() < 2 {
            None
        } else {
            let e = s[1];
            if e == '"' {
                parse_str_body(s.skip(2), acc.push('"'))
            } else if e == '\\' {
                parse_str_body(s.skip(2), acc.push('\\'))
            } else if e == '/' {
                parse_str_body(s.skip(2), acc.push('/'))
            } else if e == 'n' {
                parse_str_body(s.skip(2), acc.push('\n'))
            } else if e == 'r' {
                parse_str_body(s.skip(2), acc.push('\r'))
            } else if e == 't' {
                parse_str_body(s.skip(2), acc.push('\t'))
            } else if e == 'b' {
                parse_str_body(s.skip(2), acc.push('\u{0008}'))
            } else if e == 'f' {
                parse_str_body(s.skip(2), acc.push('\u{000C}'))
            } else if e == 'u' {
                if s.len() < 6 {
                    None
                } else {
                    match (hex_val(s[2]), hex_val(s[3]), hex_val(s[4]), hex_val(s[5])) {
                        (Some(h0), Some(h1), Some(h2), Some(h3)) => {
                            let u = (h0 * 4096 + h1 * 256 + h2 * 16 + h3) as u32;
                            if valid_scalar(u) {
                                parse_str_body(s.skip(6), acc.push(u as char))
                            } else if 0xD800 <= u && u < 0xDC00 {
                                // a high surrogate: a low surrogate
                                // escape must follow, the pair naming
                                // one supplementary character
                                if s.len() < 12 || s[6] != '\\' || s[7] != 'u' {
                                    None
                                } else {
                                    match (hex_val(s[8]), hex_val(s[9]), hex_val(s[10]), hex_val(
                                        s[11],
                                    )) {
                                        (Some(g0), Some(g1), Some(g2), Some(g3)) => {
                                            let u2 = (g0 * 4096 + g1 * 256 + g2 * 16 + g3) as u32;
                                            if 0xDC00 <= u2 && u2 < 0xE000 {
                                                let cp = (0x10000 + (u - 0xD800) * 0x400 + (u2
                                                    - 0xDC00)) as u32;
                                                parse_str_body(s.skip(12), acc.push(cp as char))
                                            } else {
                                                None
                                            }
                                        },
                                        _ => None,
                                    }
                                }
                            } else {
                                None
                            }
                        },
                        _ => None,
                    }
                }
            } else {
                None
            }
        }
    } else if 32 <= s[0] as u32 {
        parse_str_body(s.drop_first(), acc.push(s[0]))
    } else {
        None
    }
}

/// Accumulate decimal digits; fails once the magnitude leaves the
/// range a 32-bit id can carry.
pub open spec fn parse_digits(s: Seq<char>, acc: int) -> Option<(int, Seq<char>)>
    decreases s.len(),
{
    if s.len() > 0 && is_digit(s[0]) {
        let acc2 = acc * 10 + digit_val(s[0]);
        if acc2 > 2147483648 {
            None
        } else {
            parse_digits(s.drop_first(), acc2)
        }
    } else {
        Some((acc, s))
    }
}

/// A JSON integer: an optional minus sign and digits without a
/// leading zero (a lone `0` is the only number starting with `0`).
pub open spec fn parse_int(s: Seq<char>) -> Option<(int, Seq<char>)> {
    if s.len() > 0 && s[0] == '-' {
        let t = s.drop_first();
        if t.len() > 0 && is_digit(t[0]) {
            if t[0] == '0' {
                if t.len() >= 2 && is_digit(t[1]) {
                    None
                } else {
                    Some((0, t.drop_first()))
                }
            } else {
                match parse_digits(t, 0) {
                    Some(p) => Some((-p.0, p.1)),
                    None => None,
                }
            }
        } else {
            None
        }
    } else if s.len() > 0 && is_digit(s[0]) {
        if s[0] == '0' {
            if s.len() >= 2 && is_digit(s[1]) {
                None
            } else {
                Some((0, s.drop_first()))
            }
        } else {
            match parse_digits(s, 0) {
                Some(p) => if p.0 <= 2147483647 {
                    Some(p)
                } else {
                    None
                },
                None => None,
            }
        }
    } else {
        None
    }
}

pub open spec fn is_numchar(c: char) -> bool {
    is_digit(c) || c == '-' || c == '+' || c == '.' || c == 'e' || c == 'E'
}

pub open spec fn skip_numchars(s: Seq<char>) -> Seq<char>
    decreases s.len(),
{
    if s.len() > 0 && is_numchar(s[0]) {
        skip_numchars(s.drop_first())
    } else {
        s
    }
}

/// How deep an unknown field's value may nest. A reader must bound
/// its recursion on hostile input; a line nesting deeper is treated
/// as malformed.
pub const MAX_NESTING: u64 = 64;

/// Pass over the value of an unknown field: a string, a number, a
/// bare literal, or an object or array nested up to `d` levels. The
/// fuel only bounds the recursion; one unit is spent per nested value
/// or member, each of which consumes input, so fuel at least the
/// input length is enough.
#[verifier::opaque]
pub open spec fn skip_value(s: Seq<char>, d: nat, fuel: nat) -> Option<Seq<char>>
    decreases fuel,
{
    if fuel == 0 {
        None
    } else if s.len() == 0 {
        None
    } else if s[0] == '"' {
        match parse_str_body(s.drop_first(), Seq::empty()) {
            Some(p) => Some(p.1),
            None => None,
        }
    } else if s[0] == '-' || is_digit(s[0]) {
        Some(skip_numchars(s))
    } else if s.len() >= 4 && s[0] == 't' && s[1] == 'r' && s[2] == 'u' && s[3] == 'e' {
        Some(s.skip(4))
    } else if s.len() >= 5 && s[0] == 'f' && s[1] == 'a' && s[2] == 'l' && s[3] == 's'
        && s[4] == 'e' {
        Some(s.skip(5))
    } else if s.len() >= 4 && s[0] == 'n' && s[1] == 'u' && s[2] == 'l' && s[3] == 'l' {
        Some(s.skip(4))
    } else if s[0] == '{' {
        if d == 0 {
            None
        } else {
            let t = skip_ws(s.drop_first());
            if t.len() > 0 && t[0] == '}' {
                Some(t.drop_first())
            } else {
                skip_object(t, (d - 1) as nat, (fuel - 1) as nat)
            }
        }
    } else if s[0] == '[' {
        if d == 0 {
            None
        } else {
            let t = skip_ws(s.drop_first());
            if t.len() > 0 && t[0] == ']' {
                Some(t.drop_first())
            } else {
                skip_array(t, (d - 1) as nat, (fuel - 1) as nat)
            }
        }
    } else {
        None
    }
}

/// Pass over the members of an unknown object, from the first
/// character of a key to just after the closing brace.
#[verifier::opaque]
pub open spec fn skip_object(s: Seq<char>, d: nat, fuel: nat) -> Option<Seq<char>>
    decreases fuel,
{
    if fuel == 0 {
        None
    } else if s.len() == 0 || s[0] != '"' {
        None
    } else {
        match parse_str_body(s.drop_first(), Seq::empty()) {
            None => None,
            Some(kp) => {
                let s3 = skip_ws(kp.1);
                if s3.len() == 0 || s3[0] != ':' {
                    None
                } else {
                    let s4 = skip_ws(s3.drop_first());
                    match skip_value(s4, d, (fuel - 1) as nat) {
                        None => None,
                        Some(r) => {
                            let w = skip_ws(r);
                            if w.len() == 0 {
                                None
                            } else if w[0] == ',' {
                                skip_object(skip_ws(w.drop_first()), d, (fuel - 1) as nat)
                            } else if w[0] == '}' {
                                Some(w.drop_first())
                            } else {
                                None
                            }
                        },
                    }
                }
            },
        }
    }
}

/// Pass over the elements of an unknown array, from the first
/// character of an element to just after the closing bracket.
#[verifier::opaque]
pub open spec fn skip_array(s: Seq<char>, d: nat, fuel: nat) -> Option<Seq<char>>
    decreases fuel,
{
    if fuel == 0 {
        None
    } else {
        match skip_value(s, d, (fuel - 1) as nat) {
            None => None,
            Some(r) => {
                let w = skip_ws(r);
                if w.len() == 0 {
                    None
                } else if w[0] == ',' {
                    skip_array(skip_ws(w.drop_first()), d, (fuel - 1) as nat)
                } else if w[0] == ']' {
                    Some(w.drop_first())
                } else {
                    None
                }
            },
        }
    }
}

/// The three fields as gathered so far while walking the members of a
/// record object.
#[verifier::ext_equal]
pub ghost struct FieldsModel {
    pub id: Option<int>,
    pub name: Option<Seq<char>>,
    pub time: Option<Seq<char>>,
}

pub open spec fn no_fields() -> FieldsModel {
    FieldsModel { id: None, name: None, time: None }
}

pub open spec fn key_id() -> Seq<char> {
    seq!['i', 'd']
}

pub open spec fn key_name() -> Seq<char> {
    seq!['n', 'a', 'm', 'e']
}

pub open spec fn key_time() -> Seq<char> {
    seq!['t', 'i', 'm', 'e']
}

/// Consume the value of one member. A known key takes its typed value
/// and may not repeat; an unknown key's value is skipped.
pub open spec fn member_update(key: Seq<char>, s: Seq<char>, f: FieldsModel, fuel: nat) -> Option<(
    FieldsModel,
    Seq<char>,
)> {
    if key == key_id() {
        if f.id is Some {
            None
        } else {
            match parse_int(s) {
                Some(p) => Some((FieldsModel { id: Some(p.0), ..f }, p.1)),
                None => None,
            }
        }
    } else if key == key_name() {
        if f.name is Some {
            None
        } else if s.len() > 0 && s[0] == '"' {
            match parse_str_body(s.drop_first(), Seq::empty()) {
                Some(p) => Some((FieldsModel { name: Some(p.0), ..f }, p.1)),
                None => None,
            }
        } else {
            None
        }
    } else if key == key_time() {
        if f.time is Some {
            None
        } else if s.len() > 0 && s[0] == '"' {
            match parse_str_body(s.drop_first(), Seq::empty()) {
                Some(p) => Some((FieldsModel { time: Some(p.0), ..f }, p.1)),
                None => None,
            }
        } else {
            None
        }
    } else {
        match skip_value(s, MAX_NESTING as nat, fuel) {
            Some(r) => Some((f, r)),
            None => None,
        }
    }
}

/// Walk the members of the object, from just after `{` or `,` to just
/// after the closing `}`. The fuel only bounds the recursion; one unit
/// is spent per member, and every member consumes input, so any fuel
/// of at least the input length is enough.
pub open spec fn parse_members(s: Seq<char>, f: FieldsModel, fuel: nat) -> Option<(
    EventModel,
    Seq<char>,
)>
    decreases fuel,
{
    if fuel == 0 {
        None
    } else {
        let s1 = skip_ws(s);
        if s1.len() == 0 || s1[0] != '"' {
            None
        } else {
            match parse_str_body(s1.drop_first(), Seq::empty()) {
                None => None,
                Some(kp) => {
                    let s3 = skip_ws(kp.1);
                    if s3.len() == 0 || s3[0] != ':' {
                        None
                    } else {
                        let s4 = skip_ws(s3.drop_first());
                        match member_update(kp.0, s4, f, fuel) {
                            None => None,
                            Some(fp) => {
                                let s6 = skip_ws(fp.1);
                                if s6.len() == 0 {
                                    None
                                } else if s6[0] == ',' {
                                    parse_members(s6.drop_first(), fp.0, (fuel - 1) as nat)
                                } else if s6[0] == '}' {
                                    match (fp.0.id, fp.0.name, fp.0.time) {
                                        (Some(i), Some(n), Some(t)) => Some(
                                            (EventModel { id: i, name: n, time: t }, s6.drop_first()),
                                        ),
                                        _ => None,
                                    }
                                } else {
                                    None
                                }
                            },
                        }
                    }
                },
            }
        }
    }
}

/// What one line of the log means: an event, or nothing if the line is
/// malformed.
pub open spec fn spec_parse_event(s: Seq<char>) -> Option<EventModel> {
    let s1 = skip_ws(s);
    if s1.len() == 0 || s1[0] != '{' {
        None
    } else {
        match parse_members(s1.drop_first(), no_fields(), s.len()) {
            None => None,
            Some(p) => if skip_ws(p.1).len() == 0 {
                Some(p.0)
            } else {
                None
            },
        }
    }
}

} // verus!

verus! {

// ------------------------------------------------------------------
// Parsing (executable). Each function walks the line by character
// index and is proved to agree with the spec parser on the
// corresponding suffix.
// ------------------------------------------------------------------

fn is_digit_x(c: char) -> (b: bool)
    ensures
        b == is_digit(c),
{
    let cu: u32 = c as u32;
    48 <= cu && cu <= 57
}

fn is_ws_x(c: char) -> (b: bool)
    ensures
        b == is_ws(c),
{
    c == ' ' || c == '\t' || c == '\r'
}

fn hex_val_x(c: char) -> (r: Option<u32>)
    ensures
        r == hex_val(c),
{
    let cu: u32 = c as u32;
    if 48 <= cu && cu <= 57 {
        Some(cu - 48)
    } else if 97 <= cu && cu <= 102 {
        Some(cu - 87)
    } else if 65 <= cu && cu <= 70 {
        Some(cu - 55)
    } else {
        None
    }
}

fn skip_ws_x(s: &str, i: usize) -> (j: usize)
    requires
        i <= s@.len(),
    ensures
        i <= j <= s@.len(),
        s@.skip(j as int) == skip_ws(s@.skip(i as int)),
{
    let n: usize = s.unicode_len();
    let mut j: usize = i;
    loop
        invariant
            i <= j <= n,
            n == s@.len(),
            skip_ws(s@.skip(i as int)) == skip_ws(s@.skip(j as int)),
        decreases n - j,
    {
        if j >= n {
            proof {
                assert(s@.skip(j as int) =~= Seq::<char>::empty());
            }
            return j;
        }
        let c: char = s.get_char(j);
        proof {
            assert(s@.skip(j as int)[0] == s@[j as int]);
        }
        if !is_ws_x(c) {
            return j;
        }
        proof {
            assert(s@.skip(j as int).drop_first() =~= s@.skip(j + 1));
        }
        j = j + 1;
    }
}

fn skip_numchars_x(s: &str, i: usize) -> (j: usize)
    requires
        i <= s@.len(),
    ensures
        i <= j <= s@.len(),
        s@.skip(j as int) == skip_numchars(s@.skip(i as int)),
{
    let n: usize = s.unicode_len();
    let mut j: usize = i;
    loop
        invariant
            i <= j <= n,
            n == s@.len(),
            skip_numchars(s@.skip(i as int)) == skip_numchars(s@.skip(j as int)),
        decreases n - j,
    {
        if j >= n {
            proof {
                assert(s@.skip(j as int) =~= Seq::<char>::empty());
            }
            return j;
        }
        let c: char = s.get_char(j);
        proof {
            assert(s@.skip(j as int)[0] == s@[j as int]);
        }
        if !(is_digit_x(c) || c == '-' || c == '+' || c == '.' || c == 'e' || c == 'E') {
            return j;
        }
        proof {
            assert(s@.skip(j as int).drop_first() =~= s@.skip(j + 1));
        }
        j = j + 1;
    }
}

#[verifier::rlimit(100)]
fn parse_str_body_x(s: &str, i: usize, acc: String) -> (r: Option<(String, usize)>)
    requires
        i <= s@.len(),
    ensures
        match r {
            Some(p) => i < p.1 <= s@.len() && parse_str_body(s@.skip(i as int), acc@) == Some(
                (p.0@, s@.skip(p.1 as int)),
            ),
            None => parse_str_body(s@.skip(i as int), acc@) is None,
        },
{
    let n: usize = s.unicode_len();
    let mut j: usize = i;
    let mut cur: String = acc;
    loop
        invariant
            i <= j <= n,
            n == s@.len(),
            parse_str_body(s@.skip(i as int), acc@) == parse_str_body(s@.skip(j as int), cur@),
        decreases n - j,
    {
        if j >= n {
            proof {
                assert(s@.skip(j as int) =~= Seq::<char>::empty());
            }
            return None;
        }
        let c: char = s.get_char(j);
        proof {
            assert(s@.skip(j as int)[0] == s@[j as int]);
        }
        if c == '"' {
            proof {
                assert(s@.skip(j as int).drop_first() =~= s@.skip(j + 1));
            }
            return Some((cur, j + 1));
        } else if c == '\\' {
            if j + 1 >= n {
                return None;
            }
            let e: char = s.get_char(j + 1);
            proof {
                assert(s@.skip(j as int)[1] == s@[j + 1]);
                assert(s@.skip(j as int).skip(2) =~= s@.skip(j + 2));
            }
            let short: Option<char> = if e == '"' {
                Some('"')
            } else if e == '\\' {
                Some('\\')
            } else if e == '/' {
                Some('/')
            } else if e == 'n' {
                Some('\n')
            } else if e == 'r' {
                Some('\r')
            } else if e == 't' {
                Some('\t')
            } else if e == 'b' {
                Some('\u{0008}')
            } else if e == 'f' {
                Some('\u{000C}')
            } else {
                None
            };
            if let Some(d) = short {
                push_char(&mut cur, d);
                j = j + 2;
            } else if e == 'u' {
                if n - j < 6 {
                    return None;
                }
                let h0 = hex_val_x(s.get_char(j + 2));
                let h1 = hex_val_x(s.get_char(j + 3));
                let h2 = hex_val_x(s.get_char(j + 4));
                let h3 = hex_val_x(s.get_char(j + 5));
                proof {
                    assert(s@.skip(j as int)[2] == s@[j + 2]);
                    assert(s@.skip(j as int)[3] == s@[j + 3]);
                    assert(s@.skip(j as int)[4] == s@[j + 4]);
                    assert(s@.skip(j as int)[5] == s@[j + 5]);
                    assert(s@.skip(j as int).skip(6) =~= s@.skip(j + 6));
                }
                match (h0, h1, h2, h3) {
                    (Some(v0), Some(v1), Some(v2), Some(v3)) => {
                        let u: u32 = v0 * 4096 + v1 * 256 + v2 * 16 + v3;
                        if u < 0xD800 || u >= 0xE000 {
                            match char_from_u32(u) {
                                Some(d) => {
                                    push_char(&mut cur, d);
                                    j = j + 6;
                                },
                                None => {
                                    return None;
                                },
                            }
                        } else if u < 0xDC00 {
                            if n - j < 12 {
                                return None;
                            }
                            proof {
                                assert(s@.skip(j as int)[6] == s@[j + 6]);
                                assert(s@.skip(j as int)[7] == s@[j + 7]);
                                assert(s@.skip(j as int)[8] == s@[j + 8]);
                                assert(s@.skip(j as int)[9] == s@[j + 9]);
                                assert(s@.skip(j as int)[10] == s@[j + 10]);
                                assert(s@.skip(j as int)[11] == s@[j + 11]);
                                assert(s@.skip(j as int).skip(12) =~= s@.skip(j + 12));
                            }
                            if !(s.get_char(j + 6) == '\\' && s.get_char(j + 7) == 'u') {
                                return None;
                            }
                            let g0 = hex_val_x(s.get_char(j + 8));
                            let g1 = hex_val_x(s.get_char(j + 9));
                            let g2 = hex_val_x(s.get_char(j + 10));
                            let g3 = hex_val_x(s.get_char(j + 11));
                            match (g0, g1, g2, g3) {
                                (Some(w0), Some(w1), Some(w2), Some(w3)) => {
                                    let u2: u32 = w0 * 4096 + w1 * 256 + w2 * 16 + w3;
                                    if 0xDC00 <= u2 && u2 < 0xE000 {
                                        let cp: u32 = 0x10000 + (u - 0xD800) * 0x400 + (u2
                                            - 0xDC00);
                                        match char_from_u32(cp) {
                                            Some(d) => {
                                                push_char(&mut cur, d);
                                                j = j + 12;
                                            },
                                            None => {
                                                return None;
                                            },
                                        }
                                    } else {
                                        return None;
                                    }
                                },
                                _ => {
                                    return None;
                                },
                            }
                        } else {
                            return None;
                        }
                    },
                    _ => {
                        return None;
                    },
                }
            } else {
                return None;
            }
        } else if (c as u32) >= 32 {
            proof {
                assert(s@.skip(j as int).drop_first() =~= s@.skip(j + 1));
            }
            push_char(&mut cur, c);
            j = j + 1;
        } else {
            return None;
        }
    }
}

fn parse_digits_x(s: &str, i: usize, acc0: u64) -> (r: Option<(u64, usize)>)
    requires
        i <= s@.len(),
        acc0 <= 2147483648,
    ensures
        match r {
            Some(p) => p.0 <= 2147483648 && p.1 <= s@.len() && parse_digits(
                s@.skip(i as int),
                acc0 as int,
            ) == Some((p.0 as int, s@.skip(p.1 as int))),
            None => parse_digits(s@.skip(i as int), acc0 as int) is None,
        },
    decreases s@.len() - i,
{
    let n: usize = s.unicode_len();
    if i < n {
        let c: char = s.get_char(i);
        proof {
            assert(s@.skip(i as int)[0] == s@[i as int]);
        }
        if is_digit_x(c) {
            let cu: u32 = c as u32;
            let acc2: u64 = acc0 * 10 + ((cu - 48) as u64);
            if acc2 > 2147483648 {
                None
            } else {
                proof {
                    assert(s@.skip(i as int).drop_first() =~= s@.skip(i + 1));
                }
                parse_digits_x(s, i + 1, acc2)
            }
        } else {
            Some((acc0, i))
        }
    } else {
        proof {
            assert(s@.skip(i as int) =~= Seq::<char>::empty());
        }
        Some((acc0, i))
    }
}

fn parse_int_x(s: &str, i: usize) -> (r: Option<(i32, usize)>)
    requires
        i <= s@.len(),
    ensures
        match r {
            Some(p) => p.1 <= s@.len() && parse_int(s@.skip(i as int)) == Some(
                (p.0 as int, s@.skip(p.1 as int)),
            ),
            None => parse_int(s@.skip(i as int)) is None,
        },
{
    let n: usize = s.unicode_len();
    if i >= n {
        proof {
            assert(s@.skip(i as int) =~= Seq::<char>::empty());
        }
        return None;
    }
    let c: char = s.get_char(i);
    proof {
        assert(s@.skip(i as int)[0] == s@[i as int]);
    }
    if c == '-' {
        proof {
            assert(s@.skip(i as int).drop_first() =~= s@.skip(i + 1));
        }
        if i + 1 < n {
            let d: char = s.get_char(i + 1);
            proof {
                assert(s@.skip(i + 1)[0] == s@[i + 1]);
            }
            if d == '0' {
                proof {
                    let t = s@.skip(i + 1);
                    if t.len() > 1 {
                        assert(t[1] == s@[i + 2]);
                    }
                    assert(t.drop_first() =~= s@.skip(i + 2));
                }
                if i + 2 < n && is_digit_x(s.get_char(i + 2)) {
                    None
                } else {
                    Some((0, i + 2))
                }
            } else if is_digit_x(d) {
                match parse_digits_x(s, i + 1, 0) {
                    Some(p) => {
                        let v: i32 = (-(p.0 as i64)) as i32;
                        proof {
                            assert(v as int == -(p.0 as int));
                        }
                        Some((v, p.1))
                    },
                    None => None,
                }
            } else {
                None
            }
        } else {
            None
        }
    } else if c == '0' {
        proof {
            let t = s@.skip(i as int);
            if t.len() > 1 {
                assert(t[1] == s@[i + 1]);
            }
            assert(t.drop_first() =~= s@.skip(i + 1));
        }
        if i + 1 < n && is_digit_x(s.get_char(i + 1)) {
            None
        } else {
            Some((0, i + 1))
        }
    } else if is_digit_x(c) {
        match parse_digits_x(s, i, 0) {
            Some(p) => {
                if p.0 <= 2147483647 {
                    Some((p.0 as i32, p.1))
                } else {
                    None
                }
            },
            None => None,
        }
    } else {
        None
    }
}

#[verifier::rlimit(100)]
fn skip_value_x(s: &str, i: usize, d: u64, fuel: usize) -> (r: Option<usize>)
    requires
        i <= s@.len(),
    ensures
        match r {
            Some(j) => j <= s@.len() && skip_value(s@.skip(i as int), d as nat, fuel as nat)
                == Some(s@.skip(j as int)),
            None => skip_value(s@.skip(i as int), d as nat, fuel as nat) is None,
        },
    decreases fuel,
{
    proof {
        reveal(skip_value);
        reveal(skip_object);
        reveal(skip_array);
    }
    if fuel == 0 {
        return None;
    }
    let n: usize = s.unicode_len();
    if i >= n {
        proof {
            assert(s@.skip(i as int) =~= Seq::<char>::empty());
        }
        return None;
    }
    let c: char = s.get_char(i);
    proof {
        assert(s@.skip(i as int)[0] == s@[i as int]);
        assert(s@.skip(i as int).len() == s@.len() - i);
    }
    if c == '"' {
        proof {
            assert(s@.skip(i as int).drop_first() =~= s@.skip(i + 1));
        }
        match parse_str_body_x(s, i + 1, String::new()) {
            Some(p) => Some(p.1),
            None => None,
        }
    } else if c == '-' || is_digit_x(c) {
        Some(skip_numchars_x(s, i))
    } else if c == 't' || c == 'f' || c == 'n' {
        proof {
            let t = s@.skip(i as int);
            if t.len() > 1 {
                assert(t[1] == s@[i + 1]);
            }
            if t.len() > 2 {
                assert(t[2] == s@[i + 2]);
            }
            if t.len() > 3 {
                assert(t[3] == s@[i + 3]);
            }
            if t.len() > 4 {
                assert(t[4] == s@[i + 4]);
            }
        }
        if c == 't' {
            if n - i >= 4 && s.get_char(i + 1) == 'r' && s.get_char(i + 2) == 'u' && s.get_char(
                i + 3,
            ) == 'e' {
                proof {
                    assert(s@.skip(i as int).skip(4) =~= s@.skip(i + 4));
                }
                Some(i + 4)
            } else {
                None
            }
        } else if c == 'f' {
            if n - i >= 5 && s.get_char(i + 1) == 'a' && s.get_char(i + 2) == 'l' && s.get_char(
                i + 3,
            ) == 's' && s.get_char(i + 4) == 'e' {
                proof {
                    assert(s@.skip(i as int).skip(5) =~= s@.skip(i + 5));
                }
                Some(i + 5)
            } else {
                None
            }
        } else {
            if n - i >= 4 && s.get_char(i + 1) == 'u' && s.get_char(i + 2) == 'l' && s.get_char(
                i + 3,
            ) == 'l' {
                proof {
                    assert(s@.skip(i as int).skip(4) =~= s@.skip(i + 4));
                }
                Some(i + 4)
            } else {
                None
            }
        }
    } else if c == '{' {
        if d == 0 {
            return None;
        }
        proof {
            assert(s@.skip(i as int).drop_first() =~= s@.skip(i + 1));
        }
        let t: usize = skip_ws_x(s, i + 1);
        if t < n {
            proof {
                assert(s@.skip(t as int)[0] == s@[t as int]);
                assert(s@.skip(t as int).drop_first() =~= s@.skip(t + 1));
            }
            if s.get_char(t) == '}' {
                return Some(t + 1);
            }
        } else {
            proof {
                assert(s@.skip(t as int).len() == 0);
            }
        }
        skip_object_x(s, t, d - 1, fuel - 1)
    } else if c == '[' {
        if d == 0 {
            return None;
        }
        proof {
            assert(s@.skip(i as int).drop_first() =~= s@.skip(i + 1));
        }
        let t: usize = skip_ws_x(s, i + 1);
        if t < n {
            proof {
                assert(s@.skip(t as int)[0] == s@[t as int]);
                assert(s@.skip(t as int).drop_first() =~= s@.skip(t + 1));
            }
            if s.get_char(t) == ']' {
                return Some(t + 1);
            }
        } else {
            proof {
                assert(s@.skip(t as int).len() == 0);
            }
        }
        skip_array_x(s, t, d - 1, fuel - 1)
    } else {
        None
    }
}

#[verifier::rlimit(100)]
fn skip_object_x(s: &str, i: usize, d: u64, fuel: usize) -> (r: Option<usize>)
    requires
        i <= s@.len(),
    ensures
        match r {
            Some(j) => j <= s@.len() && skip_object(s@.skip(i as int), d as nat, fuel as nat)
                == Some(s@.skip(j as int)),
            None => skip_object(s@.skip(i as int), d as nat, fuel as nat) is None,
        },
    decreases fuel,
{
    let n: usize = s.unicode_len();
    let mut pos: usize = i;
    let mut fuel_left: usize = fuel;
    loop
        invariant
            pos <= n,
            n == s@.len(),
            fuel_left <= fuel,
            skip_object(s@.skip(i as int), d as nat, fuel as nat) == skip_object(
                s@.skip(pos as int),
                d as nat,
                fuel_left as nat,
            ),
        decreases fuel_left,
    {
        proof {
            reveal(skip_value);
            reveal(skip_object);
        }
        if fuel_left == 0 {
            return None;
        }
        if pos >= n {
            proof {
                assert(s@.skip(pos as int) =~= Seq::<char>::empty());
            }
            return None;
        }
        let c: char = s.get_char(pos);
        proof {
            assert(s@.skip(pos as int)[0] == s@[pos as int]);
        }
        if c != '"' {
            return None;
        }
        proof {
            assert(s@.skip(pos as int).drop_first() =~= s@.skip(pos + 1));
        }
        let kp = parse_str_body_x(s, pos + 1, String::new());
        let j1: usize = match kp {
            Some(v) => v.1,
            None => {
                return None;
            },
        };
        let j3: usize = skip_ws_x(s, j1);
        if j3 >= n {
            proof {
                assert(skip_ws(s@.skip(j1 as int)).len() == 0);
            }
            return None;
        }
        let cc: char = s.get_char(j3);
        proof {
            assert(s@.skip(j3 as int)[0] == s@[j3 as int]);
        }
        if cc != ':' {
            return None;
        }
        proof {
            assert(s@.skip(j3 as int).drop_first() =~= s@.skip(j3 + 1));
        }
        let j4: usize = skip_ws_x(s, j3 + 1);
        let j5: usize = match skip_value_x(s, j4, d, fuel_left - 1) {
            Some(j) => j,
            None => {
                return None;
            },
        };
        let j6: usize = skip_ws_x(s, j5);
        if j6 >= n {
            proof {
                assert(skip_ws(s@.skip(j5 as int)).len() == 0);
            }
            return None;
        }
        let c6: char = s.get_char(j6);
        proof {
            assert(s@.skip(j6 as int)[0] == s@[j6 as int]);
            assert(s@.skip(j6 as int).drop_first() =~= s@.skip(j6 + 1));
        }
        if c6 == ',' {
            let j7: usize = skip_ws_x(s, j6 + 1);
            pos = j7;
            fuel_left = fuel_left - 1;
        } else if c6 == '}' {
            return Some(j6 + 1);
        } else {
            return None;
        }
    }
}

#[verifier::rlimit(100)]
fn skip_array_x(s: &str, i: usize, d: u64, fuel: usize) -> (r: Option<usize>)
    requires
        i <= s@.len(),
    ensures
        match r {
            Some(j) => j <= s@.len() && skip_array(s@.skip(i as int), d as nat, fuel as nat)
                == Some(s@.skip(j as int)),
            None => skip_array(s@.skip(i as int), d as nat, fuel as nat) is None,
        },
    decreases fuel,
{
    let n: usize = s.unicode_len();
    let mut pos: usize = i;
    let mut fuel_left: usize = fuel;
    loop
        invariant
            pos <= n,
            n == s@.len(),
            fuel_left <= fuel,
            skip_array(s@.skip(i as int), d as nat, fuel as nat) == skip_array(
                s@.skip(pos as int),
                d as nat,
                fuel_left as nat,
            ),
        decreases fuel_left,
    {
        proof {
            reveal(skip_value);
            reveal(skip_array);
        }
        if fuel_left == 0 {
            return None;
        }
        let j5: usize = match skip_value_x(s, pos, d, fuel_left - 1) {
            Some(j) => j,
            None => {
                return None;
            },
        };
        let j6: usize = skip_ws_x(s, j5);
        if j6 >= n {
            proof {
                assert(skip_ws(s@.skip(j5 as int)).len() == 0);
            }
            return None;
        }
        let c6: char = s.get_char(j6);
        proof {
            assert(s@.skip(j6 as int)[0] == s@[j6 as int]);
            assert(s@.skip(j6 as int).drop_first() =~= s@.skip(j6 + 1));
        }
        if c6 == ',' {
            let j7: usize = skip_ws_x(s, j6 + 1);
            pos = j7;
            fuel_left = fuel_left - 1;
        } else if c6 == ']' {
            return Some(j6 + 1);
        } else {
            return None;
        }
    }
}

pub open spec fn opt_id_view(o: Option<i32>) -> Option<int> {
    match o {
        Some(v) => Some(v as int),
        None => None,
    }
}

pub open spec fn opt_str_view(o: Option<String>) -> Option<Seq<char>> {
    match o {
        Some(v) => Some(v@),
        None => None,
    }
}

pub open spec fn fields_view(id: Option<i32>, name: Option<String>, time: Option<String>) -> FieldsModel {
    FieldsModel { id: opt_id_view(id), name: opt_str_view(name), time: opt_str_view(time) }
}

#[verifier::rlimit(100)]
fn parse_members_x(
    s: &str,
    i: usize,
    f_id: Option<i32>,
    f_name: Option<String>,
    f_time: Option<String>,
    fuel: usize,
) -> (r: Option<(Event, usize)>)
    requires
        i <= s@.len(),
    ensures
        match r {
            Some(p) => p.1 <= s@.len() && parse_members(
                s@.skip(i as int),
                fields_view(f_id, f_name, f_time),
                fuel as nat,
            ) == Some((p.0@, s@.skip(p.1 as int))),
            None => parse_members(s@.skip(i as int), fields_view(f_id, f_name, f_time), fuel as nat)
                is None,
        },
{
    let n: usize = s.unicode_len();
    let mut pos: usize = i;
    let mut g_id: Option<i32> = f_id;
    let mut g_name: Option<String> = f_name;
    let mut g_time: Option<String> = f_time;
    let mut fuel_left: usize = fuel;
    loop
        invariant
            pos <= n,
            n == s@.len(),
            parse_members(s@.skip(i as int), fields_view(f_id, f_name, f_time), fuel as nat)
                == parse_members(
                s@.skip(pos as int),
                fields_view(g_id, g_name, g_time),
                fuel_left as nat,
            ),
        decreases fuel_left,
    {
        if fuel_left == 0 {
            return None;
        }
        let i1: usize = skip_ws_x(s, pos);
        if i1 >= n {
            proof {
                assert(skip_ws(s@.skip(pos as int)).len() == 0);
            }
            return None;
        }
        let c: char = s.get_char(i1);
        proof {
            assert(s@.skip(i1 as int)[0] == s@[i1 as int]);
        }
        if c != '"' {
            return None;
        }
        proof {
            assert(s@.skip(i1 as int).drop_first() =~= s@.skip(i1 + 1));
        }
        let kp = parse_str_body_x(s, i1 + 1, String::new());
        let kpv = match kp {
            Some(v) => v,
            None => {
                return None;
            },
        };
        let (key, j1): (String, usize) = kpv;
        let j3: usize = skip_ws_x(s, j1);
        if j3 >= n {
            proof {
                assert(skip_ws(s@.skip(j1 as int)).len() == 0);
            }
            return None;
        }
        let cc: char = s.get_char(j3);
        proof {
            assert(s@.skip(j3 as int)[0] == s@[j3 as int]);
        }
        if cc != ':' {
            return None;
        }
        proof {
            assert(s@.skip(j3 as int).drop_first() =~= s@.skip(j3 + 1));
        }
        let j4: usize = skip_ws_x(s, j3 + 1);
        // the value, by key
        let id_key: bool = str_eq(key.as_str(), "id");
        let name_key: bool = str_eq(key.as_str(), "name");
        let time_key: bool = str_eq(key.as_str(), "time");
        proof {
            reveal_strlit("id");
            reveal_strlit("name");
            reveal_strlit("time");
            assert("id"@ =~= key_id());
            assert("name"@ =~= key_name());
            assert("time"@ =~= key_time());
        }
        let upd: Option<(Option<i32>, Option<String>, Option<String>, usize)> = if id_key {
            if g_id.is_some() {
                None
            } else {
                match parse_int_x(s, j4) {
                    Some(p) => Some((Some(p.0), g_name, g_time, p.1)),
                    None => None,
                }
            }
        } else if name_key {
            if g_name.is_some() {
                None
            } else {
                let cv: char = if j4 < n {
                    s.get_char(j4)
                } else {
                    ' '
                };
                proof {
                    if j4 < s@.len() {
                        assert(s@.skip(j4 as int)[0] == s@[j4 as int]);
                        assert(s@.skip(j4 as int).drop_first() =~= s@.skip(j4 + 1));
                    }
                }
                if j4 < n && cv == '"' {
                    match parse_str_body_x(s, j4 + 1, String::new()) {
                        Some(p) => Some((g_id, Some(p.0), g_time, p.1)),
                        None => None,
                    }
                } else {
                    None
                }
            }
        } else if time_key {
            if g_time.is_some() {
                None
            } else {
                let cv: char = if j4 < n {
                    s.get_char(j4)
                } else {
                    ' '
                };
                proof {
                    if j4 < s@.len() {
                        assert(s@.skip(j4 as int)[0] == s@[j4 as int]);
                        assert(s@.skip(j4 as int).drop_first() =~= s@.skip(j4 + 1));
                    }
                }
                if j4 < n && cv == '"' {
                    match parse_str_body_x(s, j4 + 1, String::new()) {
                        Some(p) => Some((g_id, g_name, Some(p.0), p.1)),
                        None => None,
                    }
                } else {
                    None
                }
            }
        } else {
            match skip_value_x(s, j4, MAX_NESTING, fuel_left) {
                Some(j) => Some((g_id, g_name, g_time, j)),
                None => None,
            }
        };
        let up = match upd {
            Some(v) => v,
            None => {
                return None;
            },
        };
        let (h_id, h_name, h_time, j5): (Option<i32>, Option<String>, Option<String>, usize) = up;
        let j6: usize = skip_ws_x(s, j5);
        if j6 >= n {
            proof {
                assert(skip_ws(s@.skip(j5 as int)).len() == 0);
            }
            return None;
        }
        let c6: char = s.get_char(j6);
        proof {
            assert(s@.skip(j6 as int)[0] == s@[j6 as int]);
            assert(s@.skip(j6 as int).drop_first() =~= s@.skip(j6 + 1));
        }
        if c6 == ',' {
            g_id = h_id;
            g_name = h_name;
            g_time = h_time;
            pos = j6 + 1;
            fuel_left = fuel_left - 1;
        } else if c6 == '}' {
            match (h_id, h_name, h_time) {
                (Some(vi), Some(vn), Some(vt)) => {
                    return Some((Event { id: vi, name: vn, time: vt }, j6 + 1));
                },
                _ => {
                    return None;
                },
            }
        } else {
            return None;
        }
    }
}

fn str_eq(a: &str, b: &str) -> (r: bool)
    ensures
        r == (a@ == b@),
{
    let sa = a.to_owned();
    let sb = b.to_owned();
    sa == sb
}

/// Parse one line of the log. Returns the event the line encodes, or
/// None if the line is malformed.
pub fn parse_event(line: &str) -> (r: Option<Event>)
    ensures
        match r {
            Some(e) => spec_parse_event(line@) == Some(e@),
            None => spec_parse_event(line@) is None,
        },
{
    let n: usize = line.unicode_len();
    proof {
        assert(line@.skip(0) =~= line@);
    }
    let i1: usize = skip_ws_x(line, 0);
    if i1 >= n {
        proof {
            assert(skip_ws(line@).len() == 0);
        }
        return None;
    }
    let c: char = line.get_char(i1);
    proof {
        assert(line@.skip(i1 as int)[0] == line@[i1 as int]);
    }
    if c != '{' {
        return None;
    }
    proof {
        assert(line@.skip(i1 as int).drop_first() =~= line@.skip(i1 + 1));
    }
    match parse_members_x(line, i1 + 1, None, None, None, n) {
        None => {
            proof {
                assert(fields_view(None, None, None) =~= no_fields());
            }
            None
        },
        Some(p) => {
            proof {
                assert(fields_view(None, None, None) =~= no_fields());
            }
            let j: usize = skip_ws_x(line, p.1);
            if j >= n {
                proof {
                    assert(skip_ws(line@.skip(p.1 as int)).len() == 0);
                }
                Some(p.0)
            } else {
                None
            }
        },
    }
}

} // verus!

verus! {

// ------------------------------------------------------------------
// Laws of the codec.
// ------------------------------------------------------------------

/// A character the writer emits unescaped.
pub open spec fn plain_char(c: char) -> bool {
    c != '"' && c != '\\' && c as u32 >= 32
}

pub open spec fn has_no_newline(s: Seq<char>) -> bool {
    forall|k: int| 0 <= k < s.len() ==> s[k] != '\n'
}

proof fn lemma_escape_plain(v: Seq<char>)
    requires
        forall|k: int| 0 <= k < v.len() ==> plain_char(#[trigger] v[k]),
    ensures
        escape_seq(v) == v,
    decreases v.len(),
{
    if v.len() == 0 {
        assert(escape_seq(v) =~= v);
    } else {
        assert(plain_char(v[0]));
        assert(escape_char(v[0]) == seq![v[0]]);
        lemma_escape_plain(v.drop_first());
        assert(escape_seq(v) =~= v);
    }
}

/// Parsing a string body that was produced by escaping `v`, followed
/// by the closing quote and anything after it, recovers `v` exactly.
#[verifier::rlimit(100)]
proof fn lemma_parse_escaped(v: Seq<char>, rest: Seq<char>, acc: Seq<char>)
    ensures
        parse_str_body(escape_seq(v) + seq!['"'] + rest, acc) == Some((acc + v, rest)),
    decreases v.len(),
{
    let s = escape_seq(v) + seq!['"'] + rest;
    if v.len() == 0 {
        assert(escape_seq(v) == Seq::<char>::empty());
        assert(s =~= seq!['"'] + rest);
        assert(s[0] == '"');
        assert(s.drop_first() =~= rest);
        assert(acc + v =~= acc);
    } else {
        let c = v[0];
        let v1 = v.drop_first();
        let s1 = escape_seq(v1) + seq!['"'] + rest;
        assert(escape_seq(v) == escape_char(c) + escape_seq(v1));
        assert(s =~= escape_char(c) + s1);
        lemma_parse_escaped(v1, rest, acc.push(c));
        assert(acc.push(c) + v1 =~= acc + v);
        let cu = c as u32;
        if c == '"' {
            assert(s[0] == '\\' && s[1] == '"');
            assert(s.skip(2) =~= s1);
        } else if c == '\\' {
            assert(s[0] == '\\' && s[1] == '\\');
            assert(s.skip(2) =~= s1);
        } else if c == '\n' {
            assert(s[0] == '\\' && s[1] == 'n');
            assert(s.skip(2) =~= s1);
        } else if c == '\r' {
            assert(s[0] == '\\' && s[1] == 'r');
            assert(s.skip(2) =~= s1);
        } else if c == '\t' {
            assert(s[0] == '\\' && s[1] == 't');
            assert(s.skip(2) =~= s1);
        } else if cu == 8 {
            assert(s[0] == '\\' && s[1] == 'b');
            assert(s.skip(2) =~= s1);
            vstd::utf8::char_u32_cast(c, 8);
            vstd::utf8::char_u32_cast('\u{0008}', 8);
            assert(acc.push('\u{0008}') == acc.push(c));
        } else if cu == 12 {
            assert(s[0] == '\\' && s[1] == 'f');
            assert(s.skip(2) =~= s1);
            vstd::utf8::char_u32_cast(c, 12);
            vstd::utf8::char_u32_cast('\u{000C}', 12);
            assert(acc.push('\u{000C}') == acc.push(c));
        } else if cu < 32 {
            let hi = cu as int / 16;
            let lo = cu as int % 16;
            assert(s[0] == '\\' && s[1] == 'u' && s[2] == '0' && s[3] == '0');
            assert(s[4] == hchar(hi) && s[5] == hchar(lo));
            assert(hex_val('0') == Some(0u32));
            assert(0 <= hi < 2);
            assert(0 <= lo < 16);
            assert(hchar(hi) as u32 == 48 + hi);
            assert(hex_val(hchar(hi)) == Some((48 + hi - 48) as u32));
            if lo < 10 {
                assert(hchar(lo) as u32 == 48 + lo);
                assert(hex_val(hchar(lo)) == Some((48 + lo - 48) as u32));
            } else {
                assert(hchar(lo) as u32 == 87 + lo);
                assert(hex_val(hchar(lo)) == Some((87 + lo - 87) as u32));
            }
            let u = (0 * 4096 + 0 * 256 + (hi as u32) * 16 + (lo as u32)) as u32;
            assert(u == cu);
            assert(valid_scalar(u));
            vstd::utf8::char_u32_cast(c, u);
            assert((u as char) == c);
            assert(s.skip(6) =~= s1);
        } else {
            // plain character
            assert(escape_char(c) == seq![c]);
            assert(s[0] == c);
            assert(s.drop_first() =~= s1);
        }
    }
}

// ---- decimal representations parse back -------------------------

spec fn vd(acc: int, ds: Seq<char>) -> int
    decreases ds.len(),
{
    if ds.len() == 0 {
        acc
    } else {
        vd(acc * 10 + digit_val(ds[0]), ds.drop_first())
    }
}

spec fn all_digits(ds: Seq<char>) -> bool {
    forall|k: int| 0 <= k < ds.len() ==> is_digit(#[trigger] ds[k])
}

proof fn lemma_vd_lower(acc: int, ds: Seq<char>)
    requires
        0 <= acc,
        all_digits(ds),
    ensures
        vd(acc, ds) >= acc,
    decreases ds.len(),
{
    if ds.len() == 0 {
    } else {
        assert(is_digit(ds[0]));
        assert(acc * 10 + digit_val(ds[0]) >= acc);
        lemma_vd_lower(acc * 10 + digit_val(ds[0]), ds.drop_first());
    }
}

proof fn lemma_parse_digits_of(ds: Seq<char>, rest: Seq<char>, acc: int)
    requires
        0 <= acc,
        all_digits(ds),
        rest.len() == 0 || !is_digit(rest[0]),
        vd(acc, ds) <= 2147483648,
    ensures
        parse_digits(ds + rest, acc) == Some((vd(acc, ds), rest)),
    decreases ds.len(),
{
    let s = ds + rest;
    if ds.len() == 0 {
        assert(s =~= rest);
    } else {
        assert(is_digit(ds[0]));
        assert(s[0] == ds[0]);
        let acc2 = acc * 10 + digit_val(ds[0]);
        assert(all_digits(ds.drop_first())) by {
            assert(forall|k: int|
                0 <= k < ds.drop_first().len() ==> #[trigger] ds.drop_first()[k] == ds[k + 1]);
        }
        lemma_vd_lower(acc2, ds.drop_first());
        assert(acc2 <= 2147483648);
        assert(s.drop_first() =~= ds.drop_first() + rest);
        lemma_parse_digits_of(ds.drop_first(), rest, acc2);
    }
}

proof fn lemma_vd_snoc(acc: int, ds: Seq<char>, c: char)
    ensures
        vd(acc, ds.push(c)) == vd(acc, ds) * 10 + digit_val(c),
    decreases ds.len(),
{
    if ds.len() == 0 {
        assert(ds.push(c)[0] == c);
        assert(ds.push(c).drop_first() =~= Seq::<char>::empty());
        assert(vd(acc, ds) == acc);
        assert(vd(acc * 10 + digit_val(c), Seq::<char>::empty()) == acc * 10 + digit_val(c));
        assert(vd(acc, ds.push(c)) == acc * 10 + digit_val(c));
    } else {
        assert(ds.push(c)[0] == ds[0]);
        assert(ds.push(c).drop_first() =~= ds.drop_first().push(c));
        lemma_vd_snoc(acc * 10 + digit_val(ds[0]), ds.drop_first(), c);
        assert(vd(acc, ds.push(c)) == vd(acc * 10 + digit_val(ds[0]), ds.drop_first().push(c)));
        assert(vd(acc, ds) == vd(acc * 10 + digit_val(ds[0]), ds.drop_first()));
    }
}

proof fn lemma_dec_rep_digits(n: nat)
    ensures
        dec_rep(n).len() >= 1,
        all_digits(dec_rep(n)),
        vd(0, dec_rep(n)) == n,
        n > 0 ==> dec_rep(n)[0] != '0',
    decreases n,
{
    assert('0' as u32 == 48);
    if n < 10 {
        assert(dchar(n as int) as u32 == 48 + n);
        assert(is_digit(dchar(n as int)));
        assert(vd(0, seq![dchar(n as int)]) == vd(0 * 10 + digit_val(dchar(n as int)), seq![
            dchar(n as int),
        ].drop_first()));
        assert(seq![dchar(n as int)].drop_first() =~= Seq::<char>::empty());
        assert(vd(0, dec_rep(n)) == n);
    } else {
        lemma_dec_rep_digits(n / 10);
        let c = dchar((n % 10) as int);
        assert(0 <= n % 10 < 10);
        assert(c as u32 == 48 + n % 10);
        assert(is_digit(c));
        assert(all_digits(dec_rep(n / 10).push(c))) by {
            let p = dec_rep(n / 10).push(c);
            assert(forall|k: int|
                0 <= k < p.len() - 1 ==> #[trigger] p[k] == dec_rep(n / 10)[k]);
            assert(p[p.len() - 1] == c);
        }
        lemma_vd_snoc(0, dec_rep(n / 10), c);
        assert(vd(0, dec_rep(n)) == (n / 10) * 10 + n % 10);
        assert((n / 10) * 10 + n % 10 == n);
        assert(dec_rep(n)[0] == dec_rep(n / 10)[0]);
    }
}

/// The decimal form of any 32-bit id parses back to the same value.
proof fn lemma_parse_int_rep(v: int, rest: Seq<char>)
    requires
        -2147483648 <= v <= 2147483647,
        rest.len() == 0 || !is_digit(rest[0]),
    ensures
        parse_int(int_rep(v) + rest) == Some((v, rest)),
{
    if v == 0 {
        let s = int_rep(v) + rest;
        lemma_dec_rep_digits(0);
        assert(int_rep(0) == dec_rep(0));
        assert(dec_rep(0) =~= seq![dchar(0)]);
        assert(dchar(0) as u32 == 48);
        vstd::utf8::char_u32_cast(dchar(0), 48);
        vstd::utf8::char_u32_cast('0', 48);
        assert(dchar(0) == '0');
        assert(s[0] == '0');
        assert(s[0] != '-');
        assert(is_digit(s[0]));
        assert(s.drop_first() =~= rest);
        if rest.len() > 0 {
            assert(s[1] == rest[0]);
        }
    } else if v < 0 {
        let m = (-v) as nat;
        lemma_dec_rep_digits(m);
        let s = int_rep(v) + rest;
        assert(int_rep(v) == seq!['-'] + dec_rep(m));
        assert(s[0] == '-');
        assert(!is_digit('-'));
        assert(s.drop_first() =~= dec_rep(m) + rest);
        assert((dec_rep(m) + rest)[0] == dec_rep(m)[0]);
        assert(dec_rep(m)[0] != '0');
        lemma_parse_digits_of(dec_rep(m), rest, 0);
        assert(parse_digits(dec_rep(m) + rest, 0) == Some((m as int, rest)));
    } else {
        let m = v as nat;
        lemma_dec_rep_digits(m);
        let s = int_rep(v) + rest;
        assert(int_rep(v) == dec_rep(m));
        assert(s[0] == dec_rep(m)[0]);
        assert(is_digit(s[0]));
        assert(s[0] != '-');
        assert(s[0] != '0');
        lemma_parse_digits_of(dec_rep(m), rest, 0);
    }
}

} // verus!

verus! {

// The serialized line, member by member. Each `memK_text` is the
// text from the start of the K-th member to the end of the line.

spec fn mem3_text(timev: Seq<char>) -> Seq<char> {
    seq!['"'] + key_time() + seq!['"', ':', '"'] + escape_seq(timev) + seq!['"', '}']
}

spec fn mem2_text(namev: Seq<char>, timev: Seq<char>) -> Seq<char> {
    seq!['"'] + key_name() + seq!['"', ':', '"'] + escape_seq(namev) + seq!['"', ','] + mem3_text(
        timev,
    )
}

spec fn mem1_text(idv: int, namev: Seq<char>, timev: Seq<char>) -> Seq<char> {
    seq!['"'] + key_id() + seq!['"', ':'] + int_rep(idv) + seq![','] + mem2_text(namev, timev)
}

#[verifier::rlimit(100)]
proof fn lemma_member_time(idv: int, namev: Seq<char>, timev: Seq<char>, fuel: nat)
    requires
        fuel >= 1,
    ensures
        parse_members(
            mem3_text(timev),
            FieldsModel { id: Some(idv), name: Some(namev), time: None },
            fuel,
        ) == Some((EventModel { id: idv, name: namev, time: timev }, Seq::<char>::empty())),
{
    let s = mem3_text(timev);
    let et = escape_seq(timev);
    let r5 = seq![':', '"'] + et + seq!['"', '}'];
    assert(s[0] == '"' && !is_ws('"'));
    assert(skip_ws(s) == s);
    assert(plain_char('t') && plain_char('i') && plain_char('m') && plain_char('e'));
    lemma_escape_plain(key_time());
    assert(escape_seq(key_time()) == key_time());
    assert(s.drop_first() =~= escape_seq(key_time()) + seq!['"'] + r5);
    lemma_parse_escaped(key_time(), r5, Seq::empty());
    assert(Seq::empty() + key_time() =~= key_time());
    assert(parse_str_body(s.drop_first(), Seq::empty()) == Some((key_time(), r5)));

    assert(r5[0] == ':' && !is_ws(':'));
    assert(skip_ws(r5) == r5);
    let v3 = seq!['"'] + et + seq!['"', '}'];
    assert(r5.drop_first() =~= v3);
    assert(v3[0] == '"');
    assert(skip_ws(v3) == v3);
    assert(key_time().len() == 4 && key_id().len() == 2);
    assert(key_time() != key_id());
    assert(key_time()[0] == 't' && key_name()[0] == 'n');
    assert(key_time() != key_name());
    assert(v3.drop_first() =~= et + seq!['"'] + seq!['}']);
    lemma_parse_escaped(timev, seq!['}'], Seq::empty());
    assert(Seq::empty() + timev =~= timev);
    let f2 = FieldsModel { id: Some(idv), name: Some(namev), time: None };
    let f3 = FieldsModel { id: Some(idv), name: Some(namev), time: Some(timev) };
    assert(member_update(key_time(), v3, f2, fuel) == Some((f3, seq!['}'])));

    assert(!is_ws('}'));
    assert(skip_ws(seq!['}']) == seq!['}']);
    assert(seq!['}'].drop_first() =~= Seq::<char>::empty());
}

#[verifier::rlimit(100)]
proof fn lemma_member_name(idv: int, namev: Seq<char>, timev: Seq<char>, fuel: nat)
    requires
        fuel >= 2,
    ensures
        parse_members(
            mem2_text(namev, timev),
            FieldsModel { id: Some(idv), name: None, time: None },
            fuel,
        ) == Some((EventModel { id: idv, name: namev, time: timev }, Seq::<char>::empty())),
{
    let s = mem2_text(namev, timev);
    let en = escape_seq(namev);
    let r3 = seq![':', '"'] + en + seq!['"', ','] + mem3_text(timev);
    assert(s[0] == '"' && !is_ws('"'));
    assert(skip_ws(s) == s);
    assert(plain_char('n') && plain_char('a') && plain_char('m') && plain_char('e'));
    lemma_escape_plain(key_name());
    assert(escape_seq(key_name()) == key_name());
    assert(s.drop_first() =~= escape_seq(key_name()) + seq!['"'] + r3);
    lemma_parse_escaped(key_name(), r3, Seq::empty());
    assert(Seq::empty() + key_name() =~= key_name());
    assert(parse_str_body(s.drop_first(), Seq::empty()) == Some((key_name(), r3)));

    assert(r3[0] == ':' && !is_ws(':'));
    assert(skip_ws(r3) == r3);
    let r4 = seq![','] + mem3_text(timev);
    let v2 = seq!['"'] + en + seq!['"'] + r4;
    assert(r3.drop_first() =~= v2);
    assert(v2[0] == '"');
    assert(skip_ws(v2) == v2);
    assert(key_name().len() == 4 && key_id().len() == 2);
    assert(key_name() != key_id());
    assert(v2.drop_first() =~= en + seq!['"'] + r4);
    lemma_parse_escaped(namev, r4, Seq::empty());
    assert(Seq::empty() + namev =~= namev);
    let f1 = FieldsModel { id: Some(idv), name: None, time: None };
    let f2 = FieldsModel { id: Some(idv), name: Some(namev), time: None };
    assert(member_update(key_name(), v2, f1, fuel) == Some((f2, r4)));

    assert(r4[0] == ',' && !is_ws(','));
    assert(skip_ws(r4) == r4);
    assert(r4.drop_first() =~= mem3_text(timev));
    lemma_member_time(idv, namev, timev, (fuel - 1) as nat);
}

#[verifier::rlimit(100)]
proof fn lemma_member_id(idv: int, namev: Seq<char>, timev: Seq<char>, fuel: nat)
    requires
        fuel >= 3,
        -2147483648 <= idv <= 2147483647,
    ensures
        parse_members(mem1_text(idv, namev, timev), no_fields(), fuel) == Some(
            (EventModel { id: idv, name: namev, time: timev }, Seq::<char>::empty()),
        ),
{
    let s = mem1_text(idv, namev, timev);
    let iid = int_rep(idv);
    let r1 = seq![':'] + iid + seq![','] + mem2_text(namev, timev);
    assert(s[0] == '"' && !is_ws('"'));
    assert(skip_ws(s) == s);
    assert(plain_char('i') && plain_char('d'));
    lemma_escape_plain(key_id());
    assert(escape_seq(key_id()) == key_id());
    assert(s.drop_first() =~= escape_seq(key_id()) + seq!['"'] + r1);
    lemma_parse_escaped(key_id(), r1, Seq::empty());
    assert(Seq::empty() + key_id() =~= key_id());
    assert(parse_str_body(s.drop_first(), Seq::empty()) == Some((key_id(), r1)));

    assert(r1[0] == ':' && !is_ws(':'));
    assert(skip_ws(r1) == r1);
    lemma_dec_rep_digits(if idv < 0 {
        (-idv) as nat
    } else {
        idv as nat
    });
    assert(iid.len() >= 1);
    assert(!is_ws(iid[0])) by {
        if idv < 0 {
            assert(iid[0] == '-');
        } else {
            assert(is_digit(iid[0]));
        }
    }
    let r2 = seq![','] + mem2_text(namev, timev);
    assert(r1.drop_first() =~= iid + r2);
    assert((iid + r2)[0] == iid[0]);
    assert(skip_ws(iid + r2) == iid + r2);
    assert(r2[0] == ',');
    assert(!is_digit(','));
    lemma_parse_int_rep(idv, r2);
    assert(parse_int(iid + r2) == Some((idv, r2)));
    let f1 = FieldsModel { id: Some(idv), name: None, time: None };
    assert(member_update(key_id(), iid + r2, no_fields(), fuel) == Some((f1, r2)));

    assert(!is_ws(','));
    assert(skip_ws(r2) == r2);
    assert(r2.drop_first() =~= mem2_text(namev, timev));
    lemma_member_name(idv, namev, timev, (fuel - 1) as nat);
}

proof fn lemma_serialize_shape(e: EventModel)
    ensures
        spec_serialize(e) == seq!['{'] + mem1_text(e.id, e.name, e.time),
{
    assert(spec_serialize(e) =~= seq!['{'] + mem1_text(e.id, e.name, e.time));
}

/// Round trip: serializing any event and parsing the resulting line
/// yields the event back, equal in all three fields.
#[verifier::rlimit(100)]
pub proof fn lemma_round_trip(e: EventModel)
    requires
        -2147483648 <= e.id <= 2147483647,
    ensures
        spec_parse_event(spec_serialize(e)) == Some(e),
{
    let s = spec_serialize(e);
    let t1 = mem1_text(e.id, e.name, e.time);
    lemma_serialize_shape(e);
    assert(s[0] == '{' && !is_ws('{'));
    assert(skip_ws(s) == s);
    assert(s.drop_first() =~= t1);
    assert(s.len() == t1.len() + 1);
    assert(t1.len() >= 27) by {
        assert(int_rep(e.id).len() >= 1) by {
            lemma_dec_rep_digits(if e.id < 0 {
                (-e.id) as nat
            } else {
                e.id as nat
            });
        }
    }
    lemma_member_id(e.id, e.name, e.time, s.len());
    assert(parse_members(t1, no_fields(), s.len()) == Some(
        (EventModel { id: e.id, name: e.name, time: e.time }, Seq::<char>::empty()),
    ));
    assert(EventModel { id: e.id, name: e.name, time: e.time } =~= e);
    assert(skip_ws(Seq::<char>::empty()).len() == 0);
}

/// No serialized record contains a line break: one record is always
/// exactly one line of the log.
pub proof fn lemma_serialize_no_newline(e: EventModel)
    ensures
        has_no_newline(spec_serialize(e)),
{
    lemma_escape_no_newline(e.name);
    lemma_escape_no_newline(e.time);
    lemma_int_rep_no_newline(e.id);
    let s = spec_serialize(e);
    assert forall|k: int| 0 <= k < s.len() implies s[k] != '\n' by {
        assert(s[k] != '\n');
    }
}

proof fn lemma_escape_char_no_newline(c: char)
    ensures
        has_no_newline(escape_char(c)),
{
    let r = escape_char(c);
    if c == '"' || c == '\\' || c == '\n' || c == '\r' || c == '\t' || c as u32 == 8 || c as u32
        == 12 {
        assert(forall|k: int| 0 <= k < r.len() ==> r[k] != '\n');
    } else if (c as u32) < 32 {
        let hi = c as u32 as int / 16;
        let lo = c as u32 as int % 16;
        assert(hchar(hi) as u32 != 10 && hchar(lo) as u32 != 10);
        assert(hchar(hi) != '\n' && hchar(lo) != '\n');
        assert(forall|k: int| 0 <= k < r.len() ==> r[k] != '\n');
    } else {
        assert(c as u32 >= 32 && '\n' as u32 == 10);
        assert(c != '\n');
        assert(forall|k: int| 0 <= k < r.len() ==> r[k] != '\n');
    }
}

proof fn lemma_escape_no_newline(v: Seq<char>)
    ensures
        has_no_newline(escape_seq(v)),
    decreases v.len(),
{
    if v.len() == 0 {
    } else {
        lemma_escape_char_no_newline(v[0]);
        lemma_escape_no_newline(v.drop_first());
        let r = escape_char(v[0]) + escape_seq(v.drop_first());
        assert(escape_seq(v) == r);
        assert forall|k: int| 0 <= k < r.len() implies r[k] != '\n' by {
            if k < escape_char(v[0]).len() {
                assert(r[k] == escape_char(v[0])[k]);
            } else {
                assert(r[k] == escape_seq(v.drop_first())[k - escape_char(v[0]).len()]);
            }
        }
    }
}

proof fn lemma_dec_rep_no_newline(n: nat)
    ensures
        has_no_newline(dec_rep(n)),
{
    lemma_dec_rep_digits(n);
    let r = dec_rep(n);
    assert forall|k: int| 0 <= k < r.len() implies r[k] != '\n' by {
        assert(is_digit(r[k]));
        assert('\n' as u32 == 10);
    }
}

proof fn lemma_int_rep_no_newline(v: int)
    ensures
        has_no_newline(int_rep(v)),
{
    if v < 0 {
        lemma_dec_rep_no_newline((-v) as nat);
        let r = seq!['-'] + dec_rep((-v) as nat);
        assert forall|k: int| 0 <= k < r.len() implies r[k] != '\n' by {
            if k == 0 {
                assert(r[0] == '-');
            } else {
                assert(r[k] == dec_rep((-v) as nat)[k - 1]);
            }
        }
    } else {
        lemma_dec_rep_no_newline(v as nat);
    }
}

} // verus!
