//! A minimal JSON value model: objects keep insertion order (a vector of
//! pairs, not a map) so a merge preserves on-disk key order and unknown
//! fields, and numbers keep their literal text so large integers round-trip
//! exactly. A pretty printer and a recursive-descent parser go with it.

use vstd::prelude::*;

use crate::text::{dec, json_quote, push_char, push_dec, push_json_str, push_str, to_chars};

verus! {

/// A JSON value.
#[derive(Debug, PartialEq)]
pub enum Json {
    Null,
    Bool(bool),
    Num(String),
    Str(String),
    Arr(Vec<Json>),
    Obj(Vec<(String, Json)>),
}

/// The mathematical value of a [`Json`]: strings as character sequences.
pub enum JsonV {
    Null,
    Bool(bool),
    Num(Seq<char>),
    Str(Seq<char>),
    Arr(Seq<JsonV>),
    Obj(Seq<(Seq<char>, JsonV)>),
}

/// The values of the first `n` items.
pub open spec fn items_view(items: Seq<Json>, n: nat) -> Seq<JsonV>
    decreases items, n,
{
    if n == 0 || n > items.len() {
        Seq::empty()
    } else {
        items_view(items, (n - 1) as nat).push(json_view(items[n - 1]))
    }
}

/// The values of the first `n` members.
pub open spec fn pairs_view(pairs: Seq<(String, Json)>, n: nat) -> Seq<(Seq<char>, JsonV)>
    decreases pairs, n,
{
    if n == 0 || n > pairs.len() {
        Seq::empty()
    } else {
        pairs_view(pairs, (n - 1) as nat).push((pairs[n - 1].0@, json_view(pairs[n - 1].1)))
    }
}

/// The value of a [`Json`].
pub open spec fn json_view(j: Json) -> JsonV
    decreases j, 0nat,
{
    match j {
        Json::Null => JsonV::Null,
        Json::Bool(b) => JsonV::Bool(b),
        Json::Num(n) => JsonV::Num(n@),
        Json::Str(s) => JsonV::Str(s@),
        Json::Arr(items) => JsonV::Arr(items_view(items@, items@.len())),
        Json::Obj(pairs) => JsonV::Obj(pairs_view(pairs@, pairs@.len())),
    }
}

impl View for Json {
    type V = JsonV;

    open spec fn view(&self) -> JsonV {
        json_view(*self)
    }
}

// ---------------------------------------------------------------------
// Pretty printing
// ---------------------------------------------------------------------

/// `2 * n` spaces.
pub open spec fn indent_text(n: nat) -> Seq<char> {
    Seq::new(2 * n, |i: int| ' ')
}

/// The lines of the first `n` items of an array at depth `d`.
pub open spec fn arr_lines(items: Seq<JsonV>, n: nat, d: nat) -> Seq<char>
    decreases items, n,
{
    if n == 0 || n > items.len() {
        Seq::empty()
    } else {
        arr_lines(items, (n - 1) as nat, d) + indent_text(d + 1) + pretty(items[n - 1], d + 1) + (
        if n < items.len() {
            seq![',']
        } else {
            Seq::empty()
        }) + seq!['\n']
    }
}

/// The lines of the first `n` members of an object at depth `d`.
pub open spec fn obj_lines(pairs: Seq<(Seq<char>, JsonV)>, n: nat, d: nat) -> Seq<char>
    decreases pairs, n,
{
    if n == 0 || n > pairs.len() {
        Seq::empty()
    } else {
        obj_lines(pairs, (n - 1) as nat, d) + indent_text(d + 1) + json_quote(pairs[n - 1].0) + seq![
            ':',
            ' ',
        ] + pretty(pairs[n - 1].1, d + 1) + (if n < pairs.len() {
            seq![',']
        } else {
            Seq::empty()
        }) + seq!['\n']
    }
}

/// The value printed at depth `d`: scalars inline, non-empty arrays and
/// objects one item per line indented two spaces per level.
pub open spec fn pretty(v: JsonV, d: nat) -> Seq<char>
    decreases v, 0nat,
{
    match v {
        JsonV::Null => seq!['n', 'u', 'l', 'l'],
        JsonV::Bool(b) => if b {
            seq!['t', 'r', 'u', 'e']
        } else {
            seq!['f', 'a', 'l', 's', 'e']
        },
        JsonV::Num(n) => n,
        JsonV::Str(s) => json_quote(s),
        JsonV::Arr(items) => if items.len() == 0 {
            seq!['[', ']']
        } else {
            seq!['[', '\n'] + arr_lines(items, items.len(), d) + indent_text(d) + seq![']']
        },
        JsonV::Obj(pairs) => if pairs.len() == 0 {
            seq!['{', '}']
        } else {
            seq!['{', '\n'] + obj_lines(pairs, pairs.len(), d) + indent_text(d) + seq!['}']
        },
    }
}

// ---------------------------------------------------------------------
// Compact printing
// ---------------------------------------------------------------------

/// The first `n` items of an array, comma-separated, without spaces.
pub open spec fn compact_items(items: Seq<JsonV>, n: nat) -> Seq<char>
    decreases items, n,
{
    if n == 0 || n > items.len() {
        Seq::empty()
    } else {
        compact_items(items, (n - 1) as nat) + (if n > 1 {
            seq![',']
        } else {
            Seq::empty()
        }) + compact(items[n - 1])
    }
}

/// The first `n` members of an object as `"key":value`, comma-separated,
/// without spaces.
pub open spec fn compact_members(pairs: Seq<(Seq<char>, JsonV)>, n: nat) -> Seq<char>
    decreases pairs, n,
{
    if n == 0 || n > pairs.len() {
        Seq::empty()
    } else {
        compact_members(pairs, (n - 1) as nat) + (if n > 1 {
            seq![',']
        } else {
            Seq::empty()
        }) + json_quote(pairs[n - 1].0) + seq![':'] + compact(pairs[n - 1].1)
    }
}

/// The value on one line without spaces: `[1,2]`, `{"k":"v"}`.
pub open spec fn compact(v: JsonV) -> Seq<char>
    decreases v, 0nat,
{
    match v {
        JsonV::Null => seq!['n', 'u', 'l', 'l'],
        JsonV::Bool(b) => if b {
            seq!['t', 'r', 'u', 'e']
        } else {
            seq!['f', 'a', 'l', 's', 'e']
        },
        JsonV::Num(n) => n,
        JsonV::Str(s) => json_quote(s),
        JsonV::Arr(items) => seq!['['] + compact_items(items, items.len()) + seq![']'],
        JsonV::Obj(pairs) => seq!['{'] + compact_members(pairs, pairs.len()) + seq!['}'],
    }
}

// ---------------------------------------------------------------------
// Printing with whitespace between tokens
// ---------------------------------------------------------------------

/// The first `n` items of an array with `w` around each separating comma.
pub open spec fn laid_items(items: Seq<JsonV>, n: nat, w: Seq<char>) -> Seq<char>
    decreases items, n,
{
    if n == 0 || n > items.len() {
        Seq::empty()
    } else {
        laid_items(items, (n - 1) as nat, w) + (if n > 1 {
            w + seq![','] + w
        } else {
            Seq::empty()
        }) + laid(items[n - 1], w)
    }
}

/// The first `n` members of an object with `w` around each separating
/// comma and each colon.
pub open spec fn laid_members(pairs: Seq<(Seq<char>, JsonV)>, n: nat, w: Seq<char>) -> Seq<char>
    decreases pairs, n,
{
    if n == 0 || n > pairs.len() {
        Seq::empty()
    } else {
        laid_members(pairs, (n - 1) as nat, w) + (if n > 1 {
            w + seq![','] + w
        } else {
            Seq::empty()
        }) + json_quote(pairs[n - 1].0) + w + seq![':'] + w + laid(pairs[n - 1].1, w)
    }
}

/// The value printed with `w` between every two tokens: after each opening
/// bracket, around each comma and colon, before each closing bracket.
pub open spec fn laid(v: JsonV, w: Seq<char>) -> Seq<char>
    decreases v, 0nat,
{
    match v {
        JsonV::Null => seq!['n', 'u', 'l', 'l'],
        JsonV::Bool(b) => if b {
            seq!['t', 'r', 'u', 'e']
        } else {
            seq!['f', 'a', 'l', 's', 'e']
        },
        JsonV::Num(n) => n,
        JsonV::Str(s) => json_quote(s),
        JsonV::Arr(items) => seq!['['] + w + laid_items(items, items.len(), w) + w + seq![']'],
        JsonV::Obj(pairs) => seq!['{'] + w + laid_members(pairs, pairs.len(), w) + w + seq!['}'],
    }
}

fn deeper(pad: &String, Ghost(d): Ghost<nat>) -> (r: String)
    requires
        pad@ == indent_text(d),
    ensures
        r@ == indent_text(d + 1),
{
    let mut r = pad.clone();
    push_char(&mut r, ' ');
    push_char(&mut r, ' ');
    assert(r@ =~= indent_text(d + 1));
    r
}

proof fn lemma_items_view_prefix(items: Seq<Json>, n: nat, k: nat)
    requires
        k <= n <= items.len(),
    ensures
        items_view(items, n).len() == n,
        items_view(items, n).take(k as int) == items_view(items, k),
    decreases n,
{
    if n > 0 {
        lemma_items_view_prefix(items, (n - 1) as nat, if k == n {
            (n - 1) as nat
        } else {
            k
        });
        if k == n {
            assert(items_view(items, n).take(k as int) =~= items_view(items, n));
        } else {
            assert(items_view(items, n).take(k as int) =~= items_view(items, (n - 1) as nat).take(
                k as int,
            ));
        }
    }
}

proof fn lemma_pairs_view_prefix(pairs: Seq<(String, Json)>, n: nat, k: nat)
    requires
        k <= n <= pairs.len(),
    ensures
        pairs_view(pairs, n).len() == n,
        pairs_view(pairs, n).take(k as int) == pairs_view(pairs, k),
    decreases n,
{
    if n > 0 {
        lemma_pairs_view_prefix(pairs, (n - 1) as nat, if k == n {
            (n - 1) as nat
        } else {
            k
        });
        if k == n {
            assert(pairs_view(pairs, n).take(k as int) =~= pairs_view(pairs, n));
        } else {
            assert(pairs_view(pairs, n).take(k as int) =~= pairs_view(pairs, (n - 1) as nat).take(
                k as int,
            ));
        }
    }
}

proof fn lemma_items_view_index(items: Seq<Json>, n: nat, k: int)
    requires
        0 <= k < n <= items.len(),
    ensures
        items_view(items, n)[k] == json_view(items[k]),
    decreases n,
{
    lemma_items_view_prefix(items, (n - 1) as nat, (n - 1) as nat);
    if k < n - 1 {
        lemma_items_view_index(items, (n - 1) as nat, k);
    }
}

proof fn lemma_pairs_view_index(pairs: Seq<(String, Json)>, n: nat, k: int)
    requires
        0 <= k < n <= pairs.len(),
    ensures
        pairs_view(pairs, n)[k] == (pairs[k].0@, json_view(pairs[k].1)),
    decreases n,
{
    lemma_pairs_view_prefix(pairs, (n - 1) as nat, (n - 1) as nat);
    if k < n - 1 {
        lemma_pairs_view_index(pairs, (n - 1) as nat, k);
    }
}

proof fn lemma_arr_lines_prefix(items: Seq<JsonV>, k: nat, d: nat)
    requires
        k < items.len(),
    ensures
        arr_lines(items, k + 1, d) == arr_lines(items, k, d) + indent_text(d + 1) + pretty(
            items[k as int],
            d + 1,
        ) + (if k + 1 < items.len() {
            seq![',']
        } else {
            Seq::empty()
        }) + seq!['\n'],
{
}

impl Json {
    fn write_pretty(&self, out: &mut String, pad: &String, Ghost(d): Ghost<nat>)
        requires
            pad@ == indent_text(d),
        ensures
            final(out)@ == old(out)@ + pretty(self@, d),
        decreases self,
    {
        match self {
            Json::Null => {
                push_str(out, "null");
                proof {
                    reveal_strlit("null");
                }
                assert(final(out)@ =~= old(out)@ + pretty(self@, d));
            },
            Json::Bool(b) => {
                if *b {
                    push_str(out, "true");
                    proof {
                        reveal_strlit("true");
                    }
                } else {
                    push_str(out, "false");
                    proof {
                        reveal_strlit("false");
                    }
                }
                assert(final(out)@ =~= old(out)@ + pretty(self@, d));
            },
            Json::Num(n) => {
                push_str(out, n.as_str());
            },
            Json::Str(s) => {
                push_json_str(out, s.as_str());
            },
            Json::Arr(items) => {
                let ghost iv = items_view(items@, items@.len());
                proof {
                    lemma_items_view_prefix(items@, items@.len(), items@.len());
                }
                if items.len() == 0 {
                    push_char(out, '[');
                    push_char(out, ']');
                    assert(final(out)@ =~= old(out)@ + pretty(self@, d));
                    return;
                }
                push_char(out, '[');
                push_char(out, '\n');
                let ghost head = out@;
                let inner = deeper(pad, Ghost(d));
                let mut i: usize = 0;
                while i < items.len()
                    invariant
                        i <= items@.len(),
                        iv == items_view(items@, items@.len()),
                        (*self) is Arr && (*self)->Arr_0 == *items,
                        iv.len() == items@.len(),
                        pad@ == indent_text(d),
                        inner@ == indent_text(d + 1),
                        out@ == head + arr_lines(iv, i as nat, d),
                    decreases items@.len() - i,
                {
                    proof {
                        lemma_items_view_prefix(items@, items@.len(), i as nat + 1);
                        lemma_items_view_prefix(items@, i as nat + 1, i as nat + 1);
                        lemma_items_view_index(items@, items@.len(), i as int);
                        assert(*items == (*self)->Arr_0);
                        assert(decreases_to!(*self => (*self)->Arr_0));
                        assert(decreases_to!(*items => items@));
                        assert(decreases_to!(items@ => items@[i as int]));
                        lemma_arr_lines_prefix(iv, i as nat, d);
                    }
                    push_str(out, inner.as_str());
                    items[i].write_pretty(out, &inner, Ghost(d + 1));
                    if i + 1 < items.len() {
                        push_char(out, ',');
                    }
                    push_char(out, '\n');
                    assert(out@ =~= head + arr_lines(iv, i as nat + 1, d));
                    i += 1;
                }
                push_str(out, pad.as_str());
                push_char(out, ']');
                assert(final(out)@ =~= old(out)@ + pretty(self@, d));
            },
            Json::Obj(pairs) => {
                let ghost pv = pairs_view(pairs@, pairs@.len());
                proof {
                    lemma_pairs_view_prefix(pairs@, pairs@.len(), pairs@.len());
                }
                if pairs.len() == 0 {
                    push_char(out, '{');
                    push_char(out, '}');
                    assert(final(out)@ =~= old(out)@ + pretty(self@, d));
                    return;
                }
                push_char(out, '{');
                push_char(out, '\n');
                let ghost head = out@;
                let inner = deeper(pad, Ghost(d));
                let mut i: usize = 0;
                while i < pairs.len()
                    invariant
                        i <= pairs@.len(),
                        pv == pairs_view(pairs@, pairs@.len()),
                        (*self) is Obj && (*self)->Obj_0 == *pairs,
                        pv.len() == pairs@.len(),
                        pad@ == indent_text(d),
                        inner@ == indent_text(d + 1),
                        out@ == head + obj_lines(pv, i as nat, d),
                    decreases pairs@.len() - i,
                {
                    proof {
                        lemma_pairs_view_prefix(pairs@, pairs@.len(), i as nat + 1);
                        lemma_pairs_view_prefix(pairs@, i as nat + 1, i as nat + 1);
                        lemma_pairs_view_index(pairs@, pairs@.len(), i as int);
                        assert(*pairs == (*self)->Obj_0);
                        assert(decreases_to!(*self => (*self)->Obj_0));
                        assert(decreases_to!(*pairs => pairs@));
                        assert(decreases_to!(pairs@ => pairs@[i as int]));
                        assert(decreases_to!(pairs@[i as int] => pairs@[i as int].1));
                    }
                    push_str(out, inner.as_str());
                    push_json_str(out, pairs[i].0.as_str());
                    push_char(out, ':');
                    push_char(out, ' ');
                    pairs[i].1.write_pretty(out, &inner, Ghost(d + 1));
                    if i + 1 < pairs.len() {
                        push_char(out, ',');
                    }
                    push_char(out, '\n');
                    assert(out@ =~= head + obj_lines(pv, i as nat + 1, d));
                    i += 1;
                }
                push_str(out, pad.as_str());
                push_char(out, '}');
                assert(final(out)@ =~= old(out)@ + pretty(self@, d));
            },
        }
    }

    /// The value as indented JSON text (two spaces per level, members in
    /// insertion order), with a trailing newline.
    pub fn to_pretty(&self) -> (r: String)
        ensures
            r@ == pretty(self@, 0).push('\n'),
    {
        let mut s = String::new();
        let pad = String::new();
        assert(pad@ =~= indent_text(0));
        self.write_pretty(&mut s, &pad, Ghost(0));
        push_char(&mut s, '\n');
        s
    }

    /// The members of an object, for editing in place.
    pub fn as_object_mut(&mut self) -> (r: Option<&mut Vec<(String, Json)>>)
        ensures
            match *old(self) {
                Json::Obj(v) => r is Some && *r->0 == v && *final(self) == Json::Obj(*final(r->0)),
                _ => r is None && *final(self) == *old(self),
            },
    {
        match self {
            Json::Obj(v) => Some(v),
            _ => None,
        }
    }
}

// ---------------------------------------------------------------------
// Parsing
// ---------------------------------------------------------------------

/// UTF-8 length of one character.
pub open spec fn char_width(c: char) -> nat {
    if (c as u32) < 0x80 {
        1
    } else if (c as u32) < 0x800 {
        2
    } else if (c as u32) < 0x10000 {
        3
    } else {
        4
    }
}

/// UTF-8 length of a character sequence.
pub open spec fn utf8_width(cs: Seq<char>) -> nat
    decreases cs.len(),
{
    if cs.len() == 0 {
        0
    } else {
        char_width(cs[0]) + utf8_width(cs.drop_first())
    }
}

/// Byte offset of character `i`.
pub open spec fn byte_at(cs: Seq<char>, i: int) -> nat {
    utf8_width(cs.take(i))
}

/// The first UTF-8 byte of a character.
pub open spec fn lead_byte(c: char) -> nat {
    let u = c as u32 as nat;
    if u < 0x80 {
        u
    } else if u < 0x800 {
        0xC0 + u / 64
    } else if u < 0x10000 {
        0xE0 + u / 4096
    } else {
        0xF0 + u / 262144
    }
}

/// Lower-case hex digits of `b`, without leading zeros.
pub open spec fn hex_min(b: nat) -> Seq<char> {
    if b < 16 {
        seq![crate::text::hex_digit(b)]
    } else {
        seq![crate::text::hex_digit(b / 16), crate::text::hex_digit(b % 16)]
    }
}

/// A byte shown as the character it codes in Latin-1, the way `{:?}`
/// shows a `char`: quoted, with `\0 \t \n \r \' \\` escapes and `\u{..}`
/// for controls, U+00A0 and U+00AD.
pub open spec fn debug_byte(b: nat) -> Seq<char> {
    let inner = if b == 0 {
        seq!['\\', '0']
    } else if b == 9 {
        seq!['\\', 't']
    } else if b == 10 {
        seq!['\\', 'n']
    } else if b == 13 {
        seq!['\\', 'r']
    } else if b == 39 {
        seq!['\\', '\'']
    } else if b == 92 {
        seq!['\\', '\\']
    } else if b < 0x20 || (0x7f <= b <= 0xa0) || b == 0xad {
        seq!['\\', 'u', '{'] + hex_min(b) + seq!['}']
    } else {
        seq![b as char]
    };
    seq!['\''] + inner + seq!['\'']
}

/// JSON whitespace.
pub open spec fn json_ws(c: char) -> bool {
    c == ' ' || c == '\t' || c == '\n' || c == '\r'
}

/// The first position at or after `i` that is not whitespace.
pub open spec fn skip_ws(cs: Seq<char>, i: nat) -> nat
    decreases cs.len() - i,
{
    if i < cs.len() && json_ws(cs[i as int]) {
        skip_ws(cs, i + 1)
    } else {
        i
    }
}

/// The position after the run of number characters (digits `.` `e` `E`
/// `+` `-`) that starts at `i`.
pub open spec fn number_end(cs: Seq<char>, i: nat) -> nat
    decreases cs.len() - i,
{
    if i < cs.len() && (('0' <= cs[i as int] <= '9') || cs[i as int] == '.' || cs[i as int] == 'e'
        || cs[i as int] == 'E' || cs[i as int] == '+' || cs[i as int] == '-') {
        number_end(cs, i + 1)
    } else {
        i
    }
}

/// `cs[i..]` starts with `w`.
pub open spec fn starts_with_at(cs: Seq<char>, i: nat, w: Seq<char>) -> bool {
    i + w.len() <= cs.len() && cs.subrange(i as int, (i + w.len()) as int) == w
}

/// Value of a hex digit.
pub open spec fn hex_val(c: char) -> Option<nat> {
    if '0' <= c <= '9' {
        Some((c as u32 - 48) as nat)
    } else if 'a' <= c <= 'f' {
        Some((c as u32 - 87) as nat)
    } else if 'A' <= c <= 'F' {
        Some((c as u32 - 55) as nat)
    } else {
        None
    }
}

/// Value of a run of hex digits.
pub open spec fn hex_digits(s: Seq<char>) -> Option<nat>
    decreases s.len(),
{
    if s.len() == 0 {
        Some(0)
    } else {
        match (hex_digits(s.drop_last()), hex_val(s.last())) {
            (Some(a), Some(d)) => Some(a * 16 + d),
            _ => None,
        }
    }
}

/// `u32::from_str_radix(s, 16)` for four ASCII characters: an optional
/// leading `+`, then hex digits.
pub open spec fn hex4(s: Seq<char>) -> Option<nat> {
    if s.len() > 0 && s[0] == '+' {
        hex_digits(s.drop_first())
    } else {
        hex_digits(s)
    }
}

/// The character a `\u` code stands for (`U+FFFD` for a surrogate).
pub open spec fn code_char(code: nat) -> char {
    if 0xD800 <= code <= 0xDFFF {
        '\u{FFFD}'
    } else {
        code as char
    }
}

/// A parse step: a value and the position after it, or an error message.
pub type Parsed<T> = Result<(T, nat), Seq<char>>;

/// `msg` followed by the byte offset of position `i`.
pub open spec fn at_msg(msg: Seq<char>, cs: Seq<char>, i: nat) -> Seq<char> {
    msg + crate::text::dec(byte_at(cs, i as int))
}

/// The body of a string literal from `i` (after the opening quote), the
/// characters so far being `acc`.
pub open spec fn p_str_body(cs: Seq<char>, i: nat, acc: Seq<char>) -> Parsed<Seq<char>>
    decreases cs.len() - i, 0nat,
{
    if i >= cs.len() {
        Err("unterminated string"@)
    } else {
        let c = cs[i as int];
        if c == '"' {
            Ok((acc, i + 1))
        } else if c == '\\' {
            if i + 1 >= cs.len() {
                Err("bad escape"@)
            } else {
                let e = cs[i + 1 as int];
                if e == '"' {
                    p_str_body(cs, i + 2, acc.push('"'))
                } else if e == '\\' {
                    p_str_body(cs, i + 2, acc.push('\\'))
                } else if e == '/' {
                    p_str_body(cs, i + 2, acc.push('/'))
                } else if e == 'n' {
                    p_str_body(cs, i + 2, acc.push('\n'))
                } else if e == 't' {
                    p_str_body(cs, i + 2, acc.push('\t'))
                } else if e == 'r' {
                    p_str_body(cs, i + 2, acc.push('\r'))
                } else if e == 'b' {
                    p_str_body(cs, i + 2, acc.push('\u{8}'))
                } else if e == 'f' {
                    p_str_body(cs, i + 2, acc.push('\u{c}'))
                } else if e == 'u' {
                    if utf8_width(cs.skip(i + 2 as int)) < 4 {
                        Err("bad \\u escape"@)
                    } else if i + 6 <= cs.len() && (forall|k: int|
                        i + 2 <= k < i + 6 ==> (#[trigger] cs[k] as u32) < 0x80) && hex4(
                        cs.subrange(i + 2 as int, i + 6 as int),
                    ) is Some {
                        p_str_body(
                            cs,
                            i + 6,
                            acc.push(code_char(hex4(cs.subrange(i + 2 as int, i + 6 as int))->0)),
                        )
                    } else {
                        Err("bad \\u hex"@)
                    }
                } else {
                    Err("bad escape"@)
                }
            }
        } else {
            p_str_body(cs, i + 1, acc.push(c))
        }
    }
}

/// A string literal at `i`.
pub open spec fn p_string(cs: Seq<char>, i: nat) -> Parsed<Seq<char>>
    decreases cs.len() - i, 1nat,
{
    if i < cs.len() && cs[i as int] == '"' {
        p_str_body(cs, i + 1, Seq::empty())
    } else {
        Err(at_msg("expected string at "@, cs, i))
    }
}

/// The members of an object from `i` (after `{` or a `,`), `acc` so far.
pub open spec fn p_members(cs: Seq<char>, i: nat, acc: Seq<(Seq<char>, JsonV)>) -> Parsed<JsonV>
    decreases cs.len() - i, 4nat,
{
    let k0 = skip_ws(cs, i);
    if k0 < i {
        Err(Seq::empty())
    } else {
        match p_string(cs, k0) {
            Err(m) => Err(m),
            Ok((key, k1)) => {
                let k2 = skip_ws(cs, k1);
                if k2 < i || !(k2 < cs.len() && cs[k2 as int] == ':') {
                    Err(at_msg("expected ':' at "@, cs, k2))
                } else {
                    match p_value(cs, k2 + 1) {
                        Err(m) => Err(m),
                        Ok((v, k3)) => {
                            let k4 = skip_ws(cs, k3);
                            if k4 <= i {
                                Err(Seq::empty())
                            } else if k4 < cs.len() && cs[k4 as int] == ',' {
                                p_members(cs, k4 + 1, acc.push((key, v)))
                            } else if k4 < cs.len() && cs[k4 as int] == '}' {
                                Ok((JsonV::Obj(acc.push((key, v))), k4 + 1))
                            } else {
                                Err(at_msg("expected ',' or '}' at "@, cs, k4))
                            }
                        },
                    }
                }
            },
        }
    }
}

/// The elements of an array from `i` (after `[` or a `,`), `acc` so far.
pub open spec fn p_elems(cs: Seq<char>, i: nat, acc: Seq<JsonV>) -> Parsed<JsonV>
    decreases cs.len() - i, 5nat,
{
    match p_value(cs, i) {
        Err(m) => Err(m),
        Ok((v, k1)) => {
            let k2 = skip_ws(cs, k1);
            if k2 <= i {
                Err(Seq::empty())
            } else if k2 < cs.len() && cs[k2 as int] == ',' {
                p_elems(cs, k2 + 1, acc.push(v))
            } else if k2 < cs.len() && cs[k2 as int] == ']' {
                Ok((JsonV::Arr(acc.push(v)), k2 + 1))
            } else {
                Err(at_msg("expected ',' or ']' at "@, cs, k2))
            }
        },
    }
}

/// A value at `i` (after optional whitespace).
pub open spec fn p_value(cs: Seq<char>, i: nat) -> Parsed<JsonV>
    decreases cs.len() - i, 3nat,
{
    let j = skip_ws(cs, i);
    if j < i || j >= cs.len() {
        Err("unexpected end of input"@)
    } else {
        let c = cs[j as int];
        if c == '{' {
            let k = skip_ws(cs, j + 1);
            if k < cs.len() && cs[k as int] == '}' {
                Ok((JsonV::Obj(Seq::empty()), k + 1))
            } else {
                p_members(cs, j + 1, Seq::empty())
            }
        } else if c == '[' {
            let k = skip_ws(cs, j + 1);
            if k < cs.len() && cs[k as int] == ']' {
                Ok((JsonV::Arr(Seq::empty()), k + 1))
            } else {
                p_elems(cs, j + 1, Seq::empty())
            }
        } else if c == '"' {
            match p_string(cs, j) {
                Ok((s, e)) => Ok((JsonV::Str(s), e)),
                Err(m) => Err(m),
            }
        } else if c == 't' || c == 'f' {
            if starts_with_at(cs, j, "true"@) {
                Ok((JsonV::Bool(true), j + 4))
            } else if starts_with_at(cs, j, "false"@) {
                Ok((JsonV::Bool(false), j + 5))
            } else {
                Err(at_msg("bad literal at "@, cs, j))
            }
        } else if c == 'n' {
            if starts_with_at(cs, j, "null"@) {
                Ok((JsonV::Null, j + 4))
            } else {
                Err(at_msg("bad literal at "@, cs, j))
            }
        } else if c == '-' || ('0' <= c <= '9') {
            let k = number_end(cs, if c == '-' {
                j + 1
            } else {
                j
            });
            Ok((JsonV::Num(cs.subrange(j as int, k as int)), k))
        } else {
            Err("unexpected byte "@ + debug_byte(lead_byte(c)) + " at "@ + crate::text::dec(
                byte_at(cs, j as int),
            ))
        }
    }
}

/// A whole document: one value between optional whitespace.
pub open spec fn parse_doc(cs: Seq<char>) -> Result<JsonV, Seq<char>> {
    match p_value(cs, 0) {
        Err(m) => Err(m),
        Ok((v, e)) => {
            let k = skip_ws(cs, e);
            if k != cs.len() {
                Err(at_msg("trailing input at byte "@, cs, k))
            } else {
                Ok(v)
            }
        },
    }
}

proof fn lemma_width_concat(a: Seq<char>, b: Seq<char>)
    ensures
        utf8_width(a + b) == utf8_width(a) + utf8_width(b),
    decreases a.len(),
{
    if a.len() > 0 {
        assert((a + b).drop_first() == a.drop_first() + b);
        lemma_width_concat(a.drop_first(), b);
    } else {
        assert(a + b == b);
    }
}

proof fn lemma_width_split(cs: Seq<char>, i: int)
    requires
        0 <= i <= cs.len(),
    ensures
        utf8_width(cs.take(i)) + utf8_width(cs.skip(i)) == utf8_width(cs),
{
    lemma_width_concat(cs.take(i), cs.skip(i));
    assert(cs.take(i) + cs.skip(i) == cs);
}

proof fn lemma_width_is_byte_len(cs: Seq<char>)
    ensures
        utf8_width(cs) == vstd::utf8::encode_utf8(cs).len(),
    decreases cs.len(),
{
    if cs.len() > 0 {
        lemma_width_is_byte_len(cs.drop_first());
        let c = cs[0];
        vstd::utf8::char_is_scalar(c);
        assert(vstd::utf8::encode_scalar(c as u32).len() == char_width(c));
    }
}

fn char_width_x(c: char) -> (r: usize)
    ensures
        r == char_width(c),
{
    let u = c as u32;
    if u < 0x80 {
        1
    } else if u < 0x800 {
        2
    } else if u < 0x10000 {
        3
    } else {
        4
    }
}

/// Byte offset of character `i`.
fn byte_offset(cs: &Vec<char>, i: usize) -> (r: usize)
    requires
        i <= cs@.len(),
        utf8_width(cs@) <= usize::MAX,
    ensures
        r == byte_at(cs@, i as int),
{
    let mut acc: usize = 0;
    let mut j: usize = 0;
    while j < i
        invariant
            j <= i <= cs@.len(),
            utf8_width(cs@) <= usize::MAX,
            acc == utf8_width(cs@.take(j as int)),
        decreases i - j,
    {
        proof {
            lemma_width_concat(cs@.take(j as int), seq![cs@[j as int]]);
            assert(cs@.take(j as int + 1) == cs@.take(j as int) + seq![cs@[j as int]]);
            assert(utf8_width(seq![cs@[j as int]]) == char_width(cs@[j as int])) by {
                assert(seq![cs@[j as int]].drop_first() =~= Seq::<char>::empty());
                reveal_with_fuel(utf8_width, 2);
            }
            lemma_width_split(cs@, j as int + 1);
        }
        acc = acc + char_width_x(cs[j]);
        j += 1;
    }
    acc
}

fn push_at(out: &mut String, cs: &Vec<char>, i: usize)
    requires
        i <= cs@.len(),
        utf8_width(cs@) <= usize::MAX,
    ensures
        final(out)@ == old(out)@ + dec(byte_at(cs@, i as int)),
{
    let b = byte_offset(cs, i);
    push_dec(out, b as u64);
}

fn at_msg_x(msg: &str, cs: &Vec<char>, i: usize) -> (r: String)
    requires
        i <= cs@.len(),
        utf8_width(cs@) <= usize::MAX,
    ensures
        r@ == at_msg(msg@, cs@, i as nat),
{
    let mut m = String::new();
    push_str(&mut m, msg);
    push_at(&mut m, cs, i);
    m
}

fn skip_ws_x(cs: &Vec<char>, i: usize) -> (r: usize)
    requires
        i <= cs@.len(),
    ensures
        r == skip_ws(cs@, i as nat),
        i <= r <= cs@.len(),
{
    let mut j = i;
    while j < cs.len() && (cs[j] == ' ' || cs[j] == '\t' || cs[j] == '\n' || cs[j] == '\r')
        invariant
            i <= j <= cs@.len(),
            skip_ws(cs@, i as nat) == skip_ws(cs@, j as nat),
        decreases cs@.len() - j,
    {
        j += 1;
    }
    j
}

fn number_end_x(cs: &Vec<char>, i: usize) -> (r: usize)
    requires
        i <= cs@.len(),
    ensures
        r == number_end(cs@, i as nat),
        i <= r <= cs@.len(),
{
    let mut j = i;
    while j < cs.len() && (('0' <= cs[j] && cs[j] <= '9') || cs[j] == '.' || cs[j] == 'e' || cs[j]
        == 'E' || cs[j] == '+' || cs[j] == '-')
        invariant
            i <= j <= cs@.len(),
            number_end(cs@, i as nat) == number_end(cs@, j as nat),
        decreases cs@.len() - j,
    {
        j += 1;
    }
    j
}

fn starts_with_x(cs: &Vec<char>, i: usize, w: &str) -> (r: bool)
    requires
        i <= cs@.len(),
    ensures
        r == starts_with_at(cs@, i as nat, w@),
{
    let wv = to_chars(w);
    let n = cs.len();
    if wv.len() > n - i {
        return false;
    }
    let mut k: usize = 0;
    while k < wv.len()
        invariant
            n == cs@.len(),
            k <= wv@.len(),
            wv@ == w@,
            i + wv@.len() <= cs@.len(),
            forall|t: int| 0 <= t < k ==> cs@[i + t] == wv@[t],
        decreases wv@.len() - k,
    {
        if cs[i + k] != wv[k] {
            assert(cs@.subrange(i as int, i + wv@.len())[k as int] != w@[k as int]);
            return false;
        }
        k += 1;
    }
    assert(cs@.subrange(i as int, i + wv@.len()) =~= w@);
    true
}

fn hex_val_x(c: char) -> (r: Option<u32>)
    ensures
        match r {
            Some(v) => hex_val(c) == Some(v as nat) && v < 16,
            None => hex_val(c) is None,
        },
{
    if '0' <= c && c <= '9' {
        Some(c as u32 - 48)
    } else if 'a' <= c && c <= 'f' {
        Some(c as u32 - 87)
    } else if 'A' <= c && c <= 'F' {
        Some(c as u32 - 55)
    } else {
        None
    }
}

proof fn lemma_hex_none_extends(s: Seq<char>, j: int)
    requires
        0 <= j <= s.len(),
        hex_digits(s.take(j)) is None,
    ensures
        hex_digits(s) is None,
    decreases s.len() - j,
{
    if j < s.len() {
        assert(s.take(j + 1).drop_last() == s.take(j));
        lemma_hex_none_extends(s, j + 1);
    } else {
        assert(s.take(j) == s);
    }
}

/// `16^n`.
pub open spec fn pow16(n: nat) -> nat
    decreases n,
{
    if n == 0 {
        1
    } else {
        16 * pow16((n - 1) as nat)
    }
}

proof fn lemma_pow16_small(n: nat)
    requires
        n <= 3,
    ensures
        pow16(n + 1) == 16 * pow16(n),
        pow16(n + 1) <= 65536,
{
    reveal_with_fuel(pow16, 5);
}

fn hex4_x(cs: &Vec<char>, k: usize) -> (r: Option<u32>)
    requires
        k + 4 <= cs@.len(),
    ensures
        match r {
            Some(v) => hex4(cs@.subrange(k as int, k + 4)) == Some(v as nat),
            None => hex4(cs@.subrange(k as int, k + 4)) is None,
        },
{
    let ghost s = cs@.subrange(k as int, k + 4);
    let n = cs.len();
    let start: usize = if cs[k] == '+' {
        k + 1
    } else {
        k
    };
    let ghost body = if s[0] == '+' {
        s.drop_first()
    } else {
        s
    };
    assert(body == cs@.subrange(start as int, k + 4));
    let mut acc: u32 = 0;
    let mut j = start;
    assert(cs@.subrange(start as int, start as int) =~= Seq::<char>::empty());
    while j < k + 4
        invariant
            start <= j <= k + 4 <= cs@.len(),
            n == cs@.len(),
            k <= start <= k + 1,
            body == cs@.subrange(start as int, k + 4),
            s == cs@.subrange(k as int, k + 4),
            hex4(s) == hex_digits(body),
            hex_digits(cs@.subrange(start as int, j as int)) == Some(acc as nat),
            acc < pow16((j - start) as nat),
        decreases k + 4 - j,
    {
        let ghost t = cs@.subrange(start as int, j as int + 1);
        assert(t.drop_last() == cs@.subrange(start as int, j as int));
        assert(t.last() == cs@[j as int]);
        proof {
            lemma_pow16_small((j - start) as nat);
        }
        match hex_val_x(cs[j]) {
            Some(d) => {
                assert(acc * 16 + d < pow16((j + 1 - start) as nat)) by (nonlinear_arith)
                    requires
                        acc < pow16((j - start) as nat),
                        d < 16,
                        pow16((j + 1 - start) as nat) == 16 * pow16((j - start) as nat),
                ;
                acc = acc * 16 + d;
            },
            None => {
                proof {
                    assert(body.take((j + 1 - start) as int) == t);
                    assert(hex_digits(t) is None);
                    lemma_hex_none_extends(body, (j + 1 - start) as int);
                }
                return None;
            },
        }
        j += 1;
    }
    assert(cs@.subrange(start as int, j as int) == body);
    Some(acc)
}

fn width_at_least_4(cs: &Vec<char>, k: usize) -> (r: bool)
    requires
        k <= cs@.len(),
    ensures
        r == (utf8_width(cs@.skip(k as int)) >= 4),
{
    let n = cs.len();
    let mut acc: usize = 0;
    let mut j = k;
    assert(cs@.subrange(k as int, k as int) =~= Seq::<char>::empty());
    while j < n && acc < 4
        invariant
            n == cs@.len(),
            k <= j <= n,
            acc == utf8_width(cs@.subrange(k as int, j as int)),
        decreases n - j,
    {
        proof {
            lemma_width_concat(cs@.subrange(k as int, j as int), seq![cs@[j as int]]);
            assert(cs@.subrange(k as int, j as int + 1) == cs@.subrange(k as int, j as int) + seq![
                cs@[j as int],
            ]);
            assert(utf8_width(seq![cs@[j as int]]) == char_width(cs@[j as int])) by {
                assert(seq![cs@[j as int]].drop_first() =~= Seq::<char>::empty());
                reveal_with_fuel(utf8_width, 2);
            }
        }
        acc = acc + char_width_x(cs[j]);
        j += 1;
    }
    proof {
        lemma_width_concat(cs@.subrange(k as int, j as int), cs@.skip(j as int));
        assert(cs@.subrange(k as int, j as int) + cs@.skip(j as int) == cs@.skip(k as int));
        if j == n {
            assert(cs@.skip(j as int) =~= Seq::<char>::empty());
        }
    }
    acc >= 4
}

/// `char::from_u32`: the character with that code, or `None` for a surrogate
/// or a value past U+10FFFF.
#[verifier::external_body]
fn char_from_u32(code: u32) -> (r: Option<char>)
    ensures
        r == if code > 0x10FFFF || (0xD800 <= code <= 0xDFFF) {
            None
        } else {
            Some(code as char)
        },
{
    char::from_u32(code)
}

fn code_char_x(code: u32) -> (c: char)
    requires
        code < 0x10000,
    ensures
        c == code_char(code as nat),
{
    match char_from_u32(code) {
        Some(c) => c,
        None => '\u{FFFD}',
    }
}

fn ascii4(cs: &Vec<char>, k: usize) -> (r: bool)
    requires
        k + 4 <= cs@.len(),
    ensures
        r == forall|t: int| k <= t < k + 4 ==> (#[trigger] cs@[t] as u32) < 0x80,
{
    let n = cs.len();
    let mut j = k;
    while j < k + 4
        invariant
            n == cs@.len(),
            k <= j <= k + 4 <= cs@.len(),
            forall|t: int| k <= t < j ==> (#[trigger] cs@[t] as u32) < 0x80,
        decreases k + 4 - j,
    {
        if (cs[j] as u32) >= 0x80 {
            return false;
        }
        j += 1;
    }
    true
}

fn str_body_x(cs: &Vec<char>, i: usize) -> (r: Result<(String, usize), String>)
    requires
        i <= cs@.len(),
        utf8_width(cs@) <= usize::MAX,
    ensures
        match r {
            Ok((s, e)) => p_str_body(cs@, i as nat, Seq::empty()) == Ok::<(Seq<char>, nat), Seq<char>>((s@, e as nat)) && i < e <= cs@.len(),
            Err(m) => p_str_body(cs@, i as nat, Seq::empty()) == Err::<(Seq<char>, nat), Seq<char>>(m@),
        },
{
    let n = cs.len();
    let mut acc = String::new();
    let mut p = i;
    loop
        invariant
            n == cs@.len(),
            i <= p <= n,
            p_str_body(cs@, i as nat, Seq::empty()) == p_str_body(cs@, p as nat, acc@),
        decreases n - p,
    {
        if p >= n {
            return Err("unterminated string".to_string());
        }
        let c = cs[p];
        if c == '"' {
            return Ok((acc, p + 1));
        } else if c == '\\' {
            if p + 1 >= n {
                return Err("bad escape".to_string());
            }
            let e = cs[p + 1];
            if e == '"' {
                push_char(&mut acc, '"');
                p = p + 2;
            } else if e == '\\' {
                push_char(&mut acc, '\\');
                p = p + 2;
            } else if e == '/' {
                push_char(&mut acc, '/');
                p = p + 2;
            } else if e == 'n' {
                push_char(&mut acc, '\n');
                p = p + 2;
            } else if e == 't' {
                push_char(&mut acc, '\t');
                p = p + 2;
            } else if e == 'r' {
                push_char(&mut acc, '\r');
                p = p + 2;
            } else if e == 'b' {
                push_char(&mut acc, '\u{8}');
                p = p + 2;
            } else if e == 'f' {
                push_char(&mut acc, '\u{c}');
                p = p + 2;
            } else if e == 'u' {
                if !width_at_least_4(cs, p + 2) {
                    return Err("bad \\u escape".to_string());
                }
                if n - p >= 6 && ascii4(cs, p + 2) {
                    match hex4_x(cs, p + 2) {
                        Some(code) => {
                            proof {
                                assert(code < 0x10000) by {
                                    lemma_hex4_bound(cs@.subrange(p + 2 as int, p + 6 as int));
                                }
                            }
                            push_char(&mut acc, code_char_x(code));
                            p = p + 6;
                        },
                        None => {
                            return Err("bad \\u hex".to_string());
                        },
                    }
                } else {
                    return Err("bad \\u hex".to_string());
                }
            } else {
                return Err("bad escape".to_string());
            }
        } else {
            push_char(&mut acc, c);
            p = p + 1;
        }
    }
}

proof fn lemma_hex_digits_bound(s: Seq<char>)
    ensures
        hex_digits(s) matches Some(v) ==> v < pow16(s.len()),
    decreases s.len(),
{
    if s.len() > 0 {
        lemma_hex_digits_bound(s.drop_last());
        if let Some(v) = hex_digits(s) {
            let a = hex_digits(s.drop_last())->0;
            let d = hex_val(s.last())->0;
            assert(pow16(s.len()) == 16 * pow16(s.drop_last().len()));
            assert(a * 16 + d < pow16(s.len())) by (nonlinear_arith)
                requires
                    a < pow16(s.drop_last().len()),
                    d < 16,
                    pow16(s.len()) == 16 * pow16(s.drop_last().len()),
            ;
        }
    }
}

proof fn lemma_hex4_bound(s: Seq<char>)
    requires
        s.len() == 4,
    ensures
        hex4(s) matches Some(v) ==> v < 0x10000,
{
    lemma_hex_digits_bound(s);
    lemma_hex_digits_bound(s.drop_first());
    lemma_pow16_small(3);
    lemma_pow16_small(2);
    lemma_pow16_small(1);
    lemma_pow16_small(0);
}

fn string_x(cs: &Vec<char>, i: usize) -> (r: Result<(String, usize), String>)
    requires
        i <= cs@.len(),
        utf8_width(cs@) <= usize::MAX,
    ensures
        match r {
            Ok((s, e)) => p_string(cs@, i as nat) == Ok::<(Seq<char>, nat), Seq<char>>((s@, e as nat)) && i < e <= cs@.len(),
            Err(m) => p_string(cs@, i as nat) == Err::<(Seq<char>, nat), Seq<char>>(m@),
        },
{
    if i < cs.len() && cs[i] == '"' {
        str_body_x(cs, i + 1)
    } else {
        Err(at_msg_x("expected string at ", cs, i))
    }
}

proof fn lemma_items_view_ext(a: Seq<Json>, b: Seq<Json>, n: nat)
    requires
        n <= a.len(),
        n <= b.len(),
        a.take(n as int) == b.take(n as int),
    ensures
        items_view(a, n) == items_view(b, n),
    decreases n,
{
    if n > 0 {
        assert(a.take(n - 1) == a.take(n as int).take(n - 1));
        assert(b.take(n - 1) == b.take(n as int).take(n - 1));
        assert(a[n - 1] == a.take(n as int)[n - 1]);
        assert(b[n - 1] == b.take(n as int)[n - 1]);
        lemma_items_view_ext(a, b, (n - 1) as nat);
    }
}

proof fn lemma_items_view_push(a: Seq<Json>, x: Json)
    ensures
        items_view(a.push(x), a.len() + 1) == items_view(a, a.len()).push(json_view(x)),
{
    assert(a.push(x).take(a.len() as int) =~= a.take(a.len() as int));
    lemma_items_view_ext(a.push(x), a, a.len());
}

proof fn lemma_pairs_view_ext(a: Seq<(String, Json)>, b: Seq<(String, Json)>, n: nat)
    requires
        n <= a.len(),
        n <= b.len(),
        a.take(n as int) == b.take(n as int),
    ensures
        pairs_view(a, n) == pairs_view(b, n),
    decreases n,
{
    if n > 0 {
        assert(a.take(n - 1) == a.take(n as int).take(n - 1));
        assert(b.take(n - 1) == b.take(n as int).take(n - 1));
        assert(a[n - 1] == a.take(n as int)[n - 1]);
        assert(b[n - 1] == b.take(n as int)[n - 1]);
        lemma_pairs_view_ext(a, b, (n - 1) as nat);
    }
}

proof fn lemma_pairs_view_push(a: Seq<(String, Json)>, x: (String, Json))
    ensures
        pairs_view(a.push(x), a.len() + 1) == pairs_view(a, a.len()).push((x.0@, json_view(x.1))),
{
    assert(a.push(x).take(a.len() as int) =~= a.take(a.len() as int));
    lemma_pairs_view_ext(a.push(x), a, a.len());
}

/// What an exec parse step returns, against the spec step.
pub open spec fn parsed_as(r: Result<(Json, usize), String>, spec: Parsed<JsonV>, i: usize, len: nat) -> bool {
    match r {
        Ok((j, e)) => spec == Ok::<(JsonV, nat), Seq<char>>((j@, e as nat)) && i < e <= len,
        Err(m) => spec == Err::<(JsonV, nat), Seq<char>>(m@),
    }
}

fn members_x(cs: &Vec<char>, i: usize) -> (r: Result<(Json, usize), String>)
    requires
        i <= cs@.len(),
        utf8_width(cs@) <= usize::MAX,
    ensures
        parsed_as(r, p_members(cs@, i as nat, Seq::empty()), i, cs@.len()),
    decreases cs@.len() - i, 4nat,
{
    let n = cs.len();
    let mut acc: Vec<(String, Json)> = Vec::new();
    let mut p = i;
    loop
        invariant
            n == cs@.len(),
            i <= p <= n,
            utf8_width(cs@) <= usize::MAX,
            p_members(cs@, i as nat, Seq::empty()) == p_members(cs@, p as nat, pairs_view(acc@, acc@.len())),
        decreases n - p,
    {
        let k0 = skip_ws_x(cs, p);
        let (key, k1) = match string_x(cs, k0) {
            Ok(x) => x,
            Err(m) => {
                return Err(m);
            },
        };
        let k2 = skip_ws_x(cs, k1);
        if !(k2 < n && cs[k2] == ':') {
            return Err(at_msg_x("expected ':' at ", cs, k2));
        }
        let (v, k3) = match value_x(cs, k2 + 1) {
            Ok(x) => x,
            Err(m) => {
                return Err(m);
            },
        };
        let k4 = skip_ws_x(cs, k3);
        let ghost before = acc@;
        acc.push((key, v));
        proof {
            lemma_pairs_view_push(before, (key, v));
        }
        if k4 < n && cs[k4] == ',' {
            p = k4 + 1;
        } else if k4 < n && cs[k4] == '}' {
            let j = Json::Obj(acc);
            return Ok((j, k4 + 1));
        } else {
            return Err(at_msg_x("expected ',' or '}' at ", cs, k4));
        }
    }
}

fn elems_x(cs: &Vec<char>, i: usize) -> (r: Result<(Json, usize), String>)
    requires
        i <= cs@.len(),
        utf8_width(cs@) <= usize::MAX,
    ensures
        parsed_as(r, p_elems(cs@, i as nat, Seq::empty()), i, cs@.len()),
    decreases cs@.len() - i, 5nat,
{
    let n = cs.len();
    let mut acc: Vec<Json> = Vec::new();
    let mut p = i;
    loop
        invariant
            n == cs@.len(),
            i <= p <= n,
            utf8_width(cs@) <= usize::MAX,
            p_elems(cs@, i as nat, Seq::empty()) == p_elems(cs@, p as nat, items_view(acc@, acc@.len())),
        decreases n - p,
    {
        let (v, k1) = match value_x(cs, p) {
            Ok(x) => x,
            Err(m) => {
                return Err(m);
            },
        };
        let k2 = skip_ws_x(cs, k1);
        let ghost before = acc@;
        acc.push(v);
        proof {
            lemma_items_view_push(before, v);
        }
        if k2 < n && cs[k2] == ',' {
            p = k2 + 1;
        } else if k2 < n && cs[k2] == ']' {
            let j = Json::Arr(acc);
            return Ok((j, k2 + 1));
        } else {
            return Err(at_msg_x("expected ',' or ']' at ", cs, k2));
        }
    }
}

fn value_x(cs: &Vec<char>, i: usize) -> (r: Result<(Json, usize), String>)
    requires
        i <= cs@.len(),
        utf8_width(cs@) <= usize::MAX,
    ensures
        parsed_as(r, p_value(cs@, i as nat), i, cs@.len()),
    decreases cs@.len() - i, 3nat,
{
    let n = cs.len();
    let j = skip_ws_x(cs, i);
    if j >= n {
        return Err("unexpected end of input".to_string());
    }
    let c = cs[j];
    if c == '{' {
        let k = skip_ws_x(cs, j + 1);
        if k < n && cs[k] == '}' {
            let v: Vec<(String, Json)> = Vec::new();
            let r = Json::Obj(v);
            assert(r@ == JsonV::Obj(Seq::empty()));
            return Ok((r, k + 1));
        }
        members_x(cs, j + 1)
    } else if c == '[' {
        let k = skip_ws_x(cs, j + 1);
        if k < n && cs[k] == ']' {
            let v: Vec<Json> = Vec::new();
            let r = Json::Arr(v);
            assert(r@ == JsonV::Arr(Seq::empty()));
            return Ok((r, k + 1));
        }
        elems_x(cs, j + 1)
    } else if c == '"' {
        match string_x(cs, j) {
            Ok((s, e)) => Ok((Json::Str(s), e)),
            Err(m) => Err(m),
        }
    } else if c == 't' || c == 'f' {
        if starts_with_x(cs, j, "true") {
            proof {
                reveal_strlit("true");
            }
            Ok((Json::Bool(true), j + 4))
        } else if starts_with_x(cs, j, "false") {
            proof {
                reveal_strlit("false");
            }
            Ok((Json::Bool(false), j + 5))
        } else {
            Err(at_msg_x("bad literal at ", cs, j))
        }
    } else if c == 'n' {
        if starts_with_x(cs, j, "null") {
            proof {
                reveal_strlit("null");
            }
            Ok((Json::Null, j + 4))
        } else {
            Err(at_msg_x("bad literal at ", cs, j))
        }
    } else if c == '-' || ('0' <= c && c <= '9') {
        let k = number_end_x(cs, if c == '-' {
            j + 1
        } else {
            j
        });
        proof {
            if c != '-' {
                lemma_number_end_ge(cs@, j as nat + 1);
            }
        }
        let num = crate::text::string_from_chars(cs.as_slice(), j, k);
        Ok((Json::Num(num), k))
    } else {
        let mut m = String::new();
        push_str(&mut m, "unexpected byte ");
        push_debug_byte(&mut m, lead_byte_x(c));
        push_str(&mut m, " at ");
        push_at(&mut m, cs, j);
        assert(m@ =~= "unexpected byte "@ + debug_byte(lead_byte(c)) + " at "@ + crate::text::dec(
            byte_at(cs@, j as int),
        ));
        Err(m)
    }
}

proof fn lemma_number_end_ge(cs: Seq<char>, i: nat)
    ensures
        number_end(cs, i) >= i,
    decreases cs.len() - i,
{
    if i < cs.len() && (('0' <= cs[i as int] <= '9') || cs[i as int] == '.' || cs[i as int] == 'e'
        || cs[i as int] == 'E' || cs[i as int] == '+' || cs[i as int] == '-') {
        lemma_number_end_ge(cs, i + 1);
    }
}

fn lead_byte_x(c: char) -> (b: u32)
    ensures
        b == lead_byte(c),
        b < 256,
{
    let u = c as u32;
    if u < 0x80 {
        u
    } else if u < 0x800 {
        0xC0 + u / 64
    } else if u < 0x10000 {
        0xE0 + u / 4096
    } else {
        proof {
            vstd::utf8::char_is_scalar(c);
        }
        0xF0 + u / 262144
    }
}

fn hex_digit_x(d: u32) -> (c: char)
    requires
        d < 16,
    ensures
        c == crate::text::hex_digit(d as nat),
{
    if d < 10 {
        ((d + 48) as u8) as char
    } else {
        ((d + 87) as u8) as char
    }
}

fn push_debug_byte(out: &mut String, b: u32)
    requires
        b < 256,
    ensures
        final(out)@ == old(out)@ + debug_byte(b as nat),
{
    push_char(out, '\'');
    if b == 0 {
        push_char(out, '\\');
        push_char(out, '0');
    } else if b == 9 {
        push_char(out, '\\');
        push_char(out, 't');
    } else if b == 10 {
        push_char(out, '\\');
        push_char(out, 'n');
    } else if b == 13 {
        push_char(out, '\\');
        push_char(out, 'r');
    } else if b == 39 {
        push_char(out, '\\');
        push_char(out, '\'');
    } else if b == 92 {
        push_char(out, '\\');
        push_char(out, '\\');
    } else if b < 0x20 || (0x7f <= b && b <= 0xa0) || b == 0xad {
        push_char(out, '\\');
        push_char(out, 'u');
        push_char(out, '{');
        if b < 16 {
            push_char(out, hex_digit_x(b));
        } else {
            push_char(out, hex_digit_x(b / 16));
            push_char(out, hex_digit_x(b % 16));
        }
        push_char(out, '}');
    } else {
        push_char(out, (b as u8) as char);
    }
    push_char(out, '\'');
    assert(final(out)@ =~= old(out)@ + debug_byte(b as nat));
}

/// Parse JSON text: one value between optional whitespace. An error names
/// what was wrong and, where it applies, the byte offset.
pub fn parse_json(input: &str) -> (r: Result<Json, String>)
    ensures
        match r {
            Ok(j) => parse_doc(input@) == Ok::<JsonV, Seq<char>>(j@),
            Err(m) => parse_doc(input@) == Err::<JsonV, Seq<char>>(m@),
        },
{
    let cs = to_chars(input);
    let nbytes = input.as_bytes().len();
    proof {
        lemma_width_is_byte_len(cs@);
    }
    assert(utf8_width(cs@) <= usize::MAX);
    let (v, e) = match value_x(&cs, 0) {
        Ok(x) => x,
        Err(m) => {
            return Err(m);
        },
    };
    let k = skip_ws_x(&cs, e);
    if k != cs.len() {
        let mut m = String::new();
        push_str(&mut m, "trailing input at byte ");
        push_at(&mut m, &cs, k);
        return Err(m);
    }
    Ok(v)
}

// ---------------------------------------------------------------------
// Object members
// ---------------------------------------------------------------------

/// The members of an object vector, as values.
pub open spec fn members_view(a: Seq<(String, Json)>) -> Seq<(Seq<char>, JsonV)> {
    a.map_values(|p: (String, Json)| (p.0@, json_view(p.1)))
}

pub proof fn lemma_members_view(a: Seq<(String, Json)>)
    ensures
        pairs_view(a, a.len()) == members_view(a),
{
    lemma_pairs_view_prefix(a, a.len(), a.len());
    assert forall|k: int| 0 <= k < a.len() implies pairs_view(a, a.len())[k] == members_view(a)[k] by {
        lemma_pairs_view_index(a, a.len(), k);
    }
    assert(pairs_view(a, a.len()) =~= members_view(a));
}

/// Position of the first member named `key` at or after `i`.
pub open spec fn key_index_from(p: Seq<(Seq<char>, JsonV)>, key: Seq<char>, i: nat) -> Option<int>
    decreases p.len() - i,
{
    if i >= p.len() {
        None
    } else if p[i as int].0 == key {
        Some(i as int)
    } else {
        key_index_from(p, key, i + 1)
    }
}

/// Position of the first member named `key`.
pub open spec fn key_index(p: Seq<(Seq<char>, JsonV)>, key: Seq<char>) -> Option<int> {
    key_index_from(p, key, 0)
}

/// The value of the first member named `key`.
pub open spec fn obj_get(p: Seq<(Seq<char>, JsonV)>, key: Seq<char>) -> Option<JsonV> {
    match key_index(p, key) {
        Some(i) => Some(p[i].1),
        None => None,
    }
}

/// `key` set to `v`: the first member named `key` takes the value in place,
/// or a new member is appended.
pub open spec fn obj_set(p: Seq<(Seq<char>, JsonV)>, key: Seq<char>, v: JsonV) -> Seq<(Seq<char>, JsonV)> {
    match key_index(p, key) {
        Some(i) => p.update(i, (key, v)),
        None => p.push((key, v)),
    }
}

/// Every member named `key` dropped, the others in order.
pub open spec fn obj_remove(p: Seq<(Seq<char>, JsonV)>, key: Seq<char>) -> Seq<(Seq<char>, JsonV)> {
    p.filter(not_named(key))
}

/// Whether a member is named other than `key`.
pub open spec fn not_named(key: Seq<char>) -> spec_fn((Seq<char>, JsonV)) -> bool {
    |m: (Seq<char>, JsonV)| m.0 != key
}

/// What the first-member search finds.
pub proof fn lemma_key_index_from(p: Seq<(Seq<char>, JsonV)>, key: Seq<char>, i: nat)
    ensures
        match key_index_from(p, key, i) {
            Some(k) => i <= k < p.len() && p[k].0 == key && forall|t: int| i <= t < k ==> p[t].0 != key,
            None => forall|t: int| i <= t < p.len() ==> p[t].0 != key,
        },
    decreases p.len() - i,
{
    if i < p.len() && p[i as int].0 != key {
        lemma_key_index_from(p, key, i + 1);
    }
}

/// Position of the first member named `key`.
pub fn find_member(obj: &Vec<(String, Json)>, key: &str) -> (r: Option<usize>)
    ensures
        match r {
            Some(i) => i < obj@.len() && key_index(members_view(obj@), key@) == Some(i as int),
            None => key_index(members_view(obj@), key@) is None,
        },
{
    let ghost p = members_view(obj@);
    let mut i: usize = 0;
    while i < obj.len()
        invariant
            p == members_view(obj@),
            i <= obj@.len(),
            key_index(p, key@) == key_index_from(p, key@, i as nat),
        decreases obj@.len() - i,
    {
        if crate::text::str_eq(obj[i].0.as_str(), key) {
            return Some(i);
        }
        i += 1;
    }
    None
}

impl Json {
    /// The value of the first member named `key`, if this is an object that
    /// has one.
    pub fn get(&self, key: &str) -> (r: Option<&Json>)
        ensures
            match self@ {
                JsonV::Obj(p) => match obj_get(p, key@) {
                    Some(v) => r is Some && r->0@ == v,
                    None => r is None,
                },
                _ => r is None,
            },
    {
        match self {
            Json::Obj(v) => {
                proof {
                    lemma_members_view(v@);
                }
                match find_member(v, key) {
                    Some(i) => {
                        assert(members_view(v@)[i as int] == (v@[i as int].0@, json_view(v@[i as int].1)));
                        Some(&v[i].1)
                    },
                    None => None,
                }
            },
            _ => None,
        }
    }
}

/// Set `key` to `val` (see [`obj_set`]).
pub fn set_member(obj: &mut Vec<(String, Json)>, key: &str, val: Json)
    ensures
        members_view(final(obj)@) == obj_set(members_view(old(obj)@), key@, val@),
{
    match find_member(obj, key) {
        Some(i) => {
            let ghost vv = val@;
            let k = key.to_string();
            assert(k@ == key@);
            obj.set(i, (k, val));
            assert(obj@ == old(obj)@.update(i as int, (k, val)));
            assert(obj_set(members_view(old(obj)@), key@, vv) == members_view(old(obj)@).update(i as int, (key@, vv)));
            assert(members_view(obj@) =~= obj_set(members_view(old(obj)@), key@, vv));
        },
        None => {
            obj.push((key.to_string(), val));
            assert(members_view(obj@) =~= obj_set(members_view(old(obj)@), key@, val@));
        },
    }
}

/// Drop every member named `key` (see [`obj_remove`]).
pub fn remove_member(obj: &mut Vec<(String, Json)>, key: &str)
    ensures
        members_view(final(obj)@) == obj_remove(members_view(old(obj)@), key@),
{
    let mut rest: Vec<(String, Json)> = Vec::new();
    std::mem::swap(&mut rest, obj);
    let ghost all = members_view(rest@);
    let ghost keep = not_named(key@);
    let total = rest.len();
    let mut taken: usize = 0;
    assert(obj@ =~= Seq::<(String, Json)>::empty());
    assert(members_view(obj@) =~= all.take(0).filter(keep)) by {
        reveal(Seq::filter);
    }
    while rest.len() > 0
        invariant
            total == all.len(),
            keep == not_named(key@),
            taken + rest@.len() == all.len(),
            members_view(rest@) == all.subrange(taken as int, all.len() as int),
            members_view(obj@) == all.take(taken as int).filter(keep),
        decreases rest@.len(),
    {
        let ghost r0 = rest@;
        let m = rest.remove(0);
        assert(rest@ =~= r0.subrange(1, r0.len() as int));
        assert(members_view(rest@) =~= members_view(r0).subrange(1, r0.len() as int));
        assert(members_view(rest@) =~= all.subrange(taken as int + 1, all.len() as int));
        let ghost mv = (m.0@, json_view(m.1));
        assert(mv == all[taken as int]) by {
            assert(members_view(r0)[0] == mv);
        }
        let ghost t = all.take(taken as int + 1);
        assert(t.drop_last() =~= all.take(taken as int));
        assert(t.last() == mv);
        let same = crate::text::str_eq(m.0.as_str(), key);
        assert(keep(mv) == !same);
        assert(t.filter(keep) == if keep(mv) {
            all.take(taken as int).filter(keep).push(mv)
        } else {
            all.take(taken as int).filter(keep)
        }) by {
            reveal(Seq::filter);
        }
        if !same {
            let ghost o0 = obj@;
            obj.push(m);
            assert(members_view(obj@) =~= members_view(o0).push(mv));
        }
        taken += 1;
    }
    assert(all.take(all.len() as int) == all);
}


// ---------------------------------------------------------------------
// What a write to an object does to later reads
// ---------------------------------------------------------------------

proof fn lemma_key_index_from_push(p: Seq<(Seq<char>, JsonV)>, x: (Seq<char>, JsonV), key: Seq<char>, i: nat)
    requires
        i <= p.len(),
    ensures
        key_index_from(p.push(x), key, i) == match key_index_from(p, key, i) {
            Some(k) => Some(k),
            None => if x.0 == key {
                Some(p.len() as int)
            } else {
                None
            },
        },
    decreases p.len() - i,
{
    if i < p.len() {
        assert(p.push(x)[i as int] == p[i as int]);
        lemma_key_index_from_push(p, x, key, i + 1);
    } else {
        assert(p.push(x)[i as int] == x);
        assert(key_index_from(p.push(x), key, i + 1) is None);
    }
}

proof fn lemma_obj_get_push(p: Seq<(Seq<char>, JsonV)>, x: (Seq<char>, JsonV), key: Seq<char>)
    ensures
        obj_get(p.push(x), key) == match obj_get(p, key) {
            Some(v) => Some(v),
            None => if x.0 == key {
                Some(x.1)
            } else {
                None
            },
        },
{
    lemma_key_index_from_push(p, x, key, 0);
    lemma_key_index_from(p, key, 0);
    match key_index(p, key) {
        Some(k) => {
            assert(p.push(x)[k] == p[k]);
        },
        None => {
            assert(p.push(x)[p.len() as int] == x);
        },
    }
}

proof fn lemma_key_index_same_keys(p: Seq<(Seq<char>, JsonV)>, q: Seq<(Seq<char>, JsonV)>, key: Seq<char>, i: nat)
    requires
        p.len() == q.len(),
        forall|t: int| 0 <= t < p.len() ==> (#[trigger] p[t]).0 == q[t].0,
    ensures
        key_index_from(p, key, i) == key_index_from(q, key, i),
    decreases p.len() - i,
{
    if i < p.len() {
        assert(p[i as int].0 == q[i as int].0);
        lemma_key_index_same_keys(p, q, key, i + 1);
    }
}

/// Read after write: once `key` is set to `v`, reading `key` gives `v` and
/// reading any other member gives what it gave before.
pub proof fn lemma_obj_set_get(p: Seq<(Seq<char>, JsonV)>, key: Seq<char>, v: JsonV, other: Seq<char>)
    ensures
        obj_get(obj_set(p, key, v), key) == Some(v),
        other != key ==> obj_get(obj_set(p, key, v), other) == obj_get(p, other),
{
    lemma_key_index_from(p, key, 0);
    match key_index(p, key) {
        Some(i) => {
            let q = p.update(i, (key, v));
            assert forall|t: int| 0 <= t < p.len() implies (#[trigger] p[t]).0 == q[t].0 by {}
            lemma_key_index_same_keys(p, q, key, 0);
            lemma_key_index_same_keys(p, q, other, 0);
            lemma_key_index_from(p, other, 0);
            if other != key {
                match key_index(p, other) {
                    Some(j) => {
                        assert(j != i);
                        assert(q[j] == p[j]);
                    },
                    None => {},
                }
            }
        },
        None => {
            lemma_obj_get_push(p, (key, v), key);
            lemma_obj_get_push(p, (key, v), other);
            assert(obj_get(p, key) is None);
        },
    }
}

/// Read after removal: once `key` is dropped, reading it gives nothing and
/// reading any other member gives what it gave before.
pub proof fn lemma_obj_remove_get(p: Seq<(Seq<char>, JsonV)>, key: Seq<char>, other: Seq<char>)
    ensures
        obj_get(obj_remove(p, key), key) is None,
        other != key ==> obj_get(obj_remove(p, key), other) == obj_get(p, other),
    decreases p.len(),
{
    let keep = not_named(key);
    let r = p.filter(keep);
    lemma_key_index_from(r, key, 0);
    if let Some(k) = key_index(r, key) {
        p.lemma_filter_pred(keep, k);
    }
    if p.len() > 0 && other != key {
        let d = p.drop_last();
        let x = p.last();
        assert(p == d.push(x));
        lemma_obj_remove_get(d, key, other);
        assert(r == if keep(x) {
            d.filter(keep).push(x)
        } else {
            d.filter(keep)
        }) by {
            reveal(Seq::filter);
        }
        lemma_obj_get_push(d, x, other);
        if keep(x) {
            lemma_obj_get_push(d.filter(keep), x, other);
        }
    } else if p.len() == 0 {
        assert(r == p) by {
            reveal(Seq::filter);
        }
    }
}


/// The names of an object's members, in order.
pub open spec fn member_keys(p: Seq<(Seq<char>, JsonV)>) -> Seq<Seq<char>> {
    p.map_values(|m: (Seq<char>, JsonV)| m.0)
}

/// Whether a name is other than `key`.
pub open spec fn other_than(key: Seq<char>) -> spec_fn(Seq<char>) -> bool {
    |k: Seq<char>| k != key
}

/// Setting a member moves no member: the names are those before, with
/// `key` appended when it was not among them.
pub proof fn lemma_obj_set_keys(p: Seq<(Seq<char>, JsonV)>, key: Seq<char>, v: JsonV)
    ensures
        member_keys(obj_set(p, key, v)) == if obj_get(p, key) is Some {
            member_keys(p)
        } else {
            member_keys(p).push(key)
        },
{
    lemma_key_index_from(p, key, 0);
    match key_index(p, key) {
        Some(i) => {
            assert(member_keys(p.update(i, (key, v))) =~= member_keys(p));
        },
        None => {
            assert(member_keys(p.push((key, v))) =~= member_keys(p).push(key));
        },
    }
}

/// Removing a member keeps the others in order: the names are those before
/// without `key`.
pub proof fn lemma_obj_remove_keys(p: Seq<(Seq<char>, JsonV)>, key: Seq<char>)
    ensures
        member_keys(obj_remove(p, key)) == member_keys(p).filter(other_than(key)),
    decreases p.len(),
{
    let keep = not_named(key);
    if p.len() == 0 {
        assert(p.filter(keep) =~= p) by {
            reveal(Seq::filter);
        }
        assert(member_keys(p).filter(other_than(key)) =~= member_keys(p)) by {
            reveal(Seq::filter);
        }
    } else {
        let d = p.drop_last();
        let x = p.last();
        assert(p == d.push(x));
        lemma_obj_remove_keys(d, key);
        d.lemma_filter_push(x, keep);
        assert(member_keys(p) =~= member_keys(d).push(x.0));
        member_keys(d).lemma_filter_push(x.0, other_than(key));
        if keep(x) {
            assert(member_keys(d.filter(keep).push(x)) =~= member_keys(d.filter(keep)).push(x.0));
        }
    }
}

} // verus!
