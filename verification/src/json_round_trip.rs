//! What the printers write, the parser reads back: a well-formed value
//! printed (pretty or compact) and parsed again is the same value.

use vstd::prelude::*;

use crate::json::{
    arr_lines, code_char, compact, compact_items, compact_members, hex4, laid, laid_items,
    laid_members, hex_digits, hex_val, indent_text, json_ws, number_end, obj_lines,
    p_elems, p_members, p_str_body, p_string, p_value, parse_doc, pretty, skip_ws, starts_with_at,
    utf8_width, JsonV,
};
use crate::text::{escape_body, escape_char, hex_digit, is_ws, json_quote, lead_ws, trail_ws, trim};

verus! {

/// A character that can continue a number token.
pub open spec fn num_char(c: char) -> bool {
    ('0' <= c <= '9') || c == '.' || c == 'e' || c == 'E' || c == '+' || c == '-'
}

/// Number text the parser reads as one token: a sign or digit first, then
/// number characters only.
pub open spec fn num_token(n: Seq<char>) -> bool {
    &&& n.len() > 0
    &&& (n[0] == '-' || ('0' <= n[0] <= '9'))
    &&& forall|i: int| 0 <= i < n.len() ==> num_char(#[trigger] n[i])
}

/// Whether the first `n` items are well formed.
pub open spec fn items_ok(items: Seq<JsonV>, n: nat) -> bool
    decreases items, n,
{
    if n == 0 || n > items.len() {
        true
    } else {
        items_ok(items, (n - 1) as nat) && well_formed(items[n - 1])
    }
}

/// Whether the values of the first `n` members are well formed.
pub open spec fn pairs_ok(pairs: Seq<(Seq<char>, JsonV)>, n: nat) -> bool
    decreases pairs, n,
{
    if n == 0 || n > pairs.len() {
        true
    } else {
        pairs_ok(pairs, (n - 1) as nat) && well_formed(pairs[n - 1].1)
    }
}

/// A value whose numbers are all single number tokens (what the parser
/// produces, and what the library writes).
pub open spec fn well_formed(v: JsonV) -> bool
    decreases v, 0nat,
{
    match v {
        JsonV::Num(n) => num_token(n),
        JsonV::Arr(items) => items_ok(items, items.len()),
        JsonV::Obj(pairs) => pairs_ok(pairs, pairs.len()),
        _ => true,
    }
}

/// `cs` holds `w` at position `i`.
pub open spec fn holds_at(cs: Seq<char>, i: nat, w: Seq<char>) -> bool {
    i + w.len() <= cs.len() && cs.subrange(i as int, (i + w.len()) as int) == w
}

proof fn lemma_holds_split(cs: Seq<char>, i: nat, a: Seq<char>, b: Seq<char>)
    requires
        holds_at(cs, i, a + b),
    ensures
        holds_at(cs, i, a),
        holds_at(cs, i + a.len(), b),
{
    let big = cs.subrange(i as int, (i + a.len() + b.len()) as int);
    assert(big == a + b);
    assert(cs.subrange(i as int, (i + a.len()) as int) =~= big.subrange(0, a.len() as int));
    assert(big.subrange(0, a.len() as int) =~= a);
    assert(cs.subrange((i + a.len()) as int, (i + a.len() + b.len()) as int) =~= big.subrange(
        a.len() as int,
        (a.len() + b.len()) as int,
    ));
    assert(big.subrange(a.len() as int, (a.len() + b.len()) as int) =~= b);
}

proof fn lemma_holds_index(cs: Seq<char>, i: nat, w: Seq<char>, t: int)
    requires
        holds_at(cs, i, w),
        0 <= t < w.len(),
    ensures
        cs[i + t] == w[t],
{
    assert(cs.subrange(i as int, (i + w.len()) as int)[t] == cs[i + t]);
}

proof fn lemma_width_ge_len(cs: Seq<char>)
    ensures
        utf8_width(cs) >= cs.len(),
    decreases cs.len(),
{
    if cs.len() > 0 {
        lemma_width_ge_len(cs.drop_first());
    }
}

proof fn lemma_escape_body_concat(a: Seq<char>, b: Seq<char>)
    ensures
        escape_body(a + b) == escape_body(a) + escape_body(b),
    decreases b.len(),
{
    if b.len() == 0 {
        assert(a + b == a);
        assert(escape_body(a) + escape_body(b) == escape_body(a));
    } else {
        lemma_escape_body_concat(a, b.drop_last());
        assert((a + b).drop_last() == a + b.drop_last());
        assert((a + b).last() == b.last());
    }
}

proof fn lemma_hex_digit_val(d: nat)
    requires
        d < 16,
    ensures
        hex_val(hex_digit(d)) == Some(d),
        (hex_digit(d) as u32) < 0x80,
{
    if d < 10 {
        assert((hex_digit(d) as u32) == d + 48);
    } else {
        assert((hex_digit(d) as u32) == d + 87);
    }
}

proof fn lemma_unicode_escape(c: char)
    requires
        (c as u32) < 0x20,
    ensures
        hex4(seq!['0', '0', hex_digit(((c as u32) / 16) as nat), hex_digit(((c as u32) % 16) as nat)])
            == Some(c as u32 as nat),
        code_char(c as u32 as nat) == c,
{
    let u = c as u32 as nat;
    let h = seq!['0', '0', hex_digit(u / 16), hex_digit(u % 16)];
    lemma_hex_digit_val(u / 16);
    lemma_hex_digit_val(u % 16);
    assert(hex_val('0') == Some(0nat));
    assert(h.drop_last().drop_last().drop_last().drop_last() =~= Seq::<char>::empty());
    assert(h.drop_last().drop_last().drop_last() =~= seq!['0']);
    assert(h.drop_last().drop_last() =~= seq!['0', '0']);
    assert(h.drop_last() =~= seq!['0', '0', hex_digit(u / 16)]);
    assert(hex_digits(h.drop_last().drop_last().drop_last().drop_last()) == Some(0nat));
    assert(hex_digits(h.drop_last().drop_last().drop_last()) == Some(0nat));
    assert(hex_digits(h.drop_last().drop_last()) == Some(0nat));
    assert(hex_digits(h.drop_last()) == Some(u / 16));
    assert(hex_digits(h) == Some((u / 16) * 16 + u % 16));
    assert(h[0] != '+');
}

/// The string body parses back: from any point `k` of the way through, the
/// rest of the escaped text and the closing quote give the characters.
#[verifier::spinoff_prover]
proof fn lemma_str_body(cs: Seq<char>, i: nat, s: Seq<char>, acc: Seq<char>, k: nat)
    requires
        holds_at(cs, i, escape_body(s) + seq!['"']),
        k <= s.len(),
    ensures
        p_str_body(cs, i + escape_body(s.take(k as int)).len(), acc + s.take(k as int)) == Ok::<
            (Seq<char>, nat),
            Seq<char>,
        >((acc + s, i + escape_body(s).len() + 1)),
    decreases s.len() - k,
{
    let eb = escape_body(s);
    lemma_holds_split(cs, i, eb, seq!['"']);
    if k == s.len() {
        assert(s.take(k as int) == s);
        lemma_holds_index(cs, i + eb.len(), seq!['"'], 0);
    } else {
        let pre = s.take(k as int);
        let c = s[k as int];
        let ec = escape_char(c);
        assert(s.take(k as int + 1) == pre.push(c));
        assert(s.take(k as int + 1).drop_last() == pre);
        assert(escape_body(s.take(k as int + 1)) == escape_body(pre) + ec);
        assert(s == s.take(k as int + 1) + s.skip(k as int + 1));
        lemma_escape_body_concat(s.take(k as int + 1), s.skip(k as int + 1));
        let p = i + escape_body(pre).len();
        let rest = escape_body(s.skip(k as int + 1)) + seq!['"'];
        assert(eb + seq!['"'] == escape_body(pre) + (ec + rest));
        lemma_holds_split(cs, i, escape_body(pre), ec + rest);
        lemma_holds_split(cs, p, ec, rest);
        assert(rest.len() >= 1);
        lemma_str_body(cs, i, s, acc, k + 1);
        assert(acc + s.take(k as int + 1) == (acc + pre).push(c));
        lemma_holds_index(cs, p, ec, 0);
        if ec.len() >= 2 {
            lemma_holds_index(cs, p, ec, 1);
        }
        if c == '"' || c == '\\' || c == '\n' || c == '\r' || c == '\t' {
            assert(ec.len() == 2);
        } else if (c as u32) < 0x20 {
            lemma_unicode_escape(c);
            let u = c as u32 as nat;
            assert(ec.len() == 6);
            lemma_holds_index(cs, p, ec, 2);
            lemma_holds_index(cs, p, ec, 3);
            lemma_holds_index(cs, p, ec, 4);
            lemma_holds_index(cs, p, ec, 5);
            lemma_hex_digit_val(u / 16);
            lemma_hex_digit_val(u % 16);
            assert(cs.subrange(p + 2 as int, p + 6 as int) =~= ec.subrange(2, 6));
            assert(ec.subrange(2, 6) =~= seq!['0', '0', hex_digit(u / 16), hex_digit(u % 16)]);
            assert(cs.skip(p + 2 as int).len() >= 4);
            lemma_width_ge_len(cs.skip(p + 2 as int));
            assert forall|t: int| p + 2 <= t < p + 6 implies (#[trigger] cs[t] as u32) < 0x80 by {
                lemma_holds_index(cs, p, ec, t - p);
            }
        } else {
            assert(ec.len() == 1);
        }
    }
}

/// A string literal parses back.
proof fn lemma_string_parses(cs: Seq<char>, i: nat, s: Seq<char>)
    requires
        holds_at(cs, i, json_quote(s)),
    ensures
        p_string(cs, i) == Ok::<(Seq<char>, nat), Seq<char>>((s, i + json_quote(s).len())),
{
    let eb = escape_body(s);
    assert(json_quote(s) == seq!['"'] + (eb + seq!['"']));
    lemma_holds_split(cs, i, seq!['"'], eb + seq!['"']);
    lemma_holds_index(cs, i, seq!['"'], 0);
    lemma_str_body(cs, i + 1, s, Seq::empty(), 0);
    assert(s.take(0) =~= Seq::<char>::empty());
    assert(Seq::<char>::empty() + s.take(0) =~= Seq::<char>::empty());
    assert(Seq::<char>::empty() + s =~= s);
}


proof fn lemma_items_ok_index(items: Seq<JsonV>, n: nat, k: int)
    requires
        items_ok(items, n),
        n <= items.len(),
        0 <= k < n,
    ensures
        well_formed(items[k]),
    decreases n,
{
    if k < n - 1 {
        lemma_items_ok_index(items, (n - 1) as nat, k);
    }
}

proof fn lemma_pairs_ok_index(pairs: Seq<(Seq<char>, JsonV)>, n: nat, k: int)
    requires
        pairs_ok(pairs, n),
        n <= pairs.len(),
        0 <= k < n,
    ensures
        well_formed(pairs[k].1),
    decreases n,
{
    if k < n - 1 {
        lemma_pairs_ok_index(pairs, (n - 1) as nat, k);
    }
}

/// Whitespace that `skip_ws` passes over in full.
proof fn lemma_skip_block(cs: Seq<char>, i: nat, w: Seq<char>)
    requires
        holds_at(cs, i, w),
        forall|t: int| 0 <= t < w.len() ==> json_ws(#[trigger] w[t]),
        i + w.len() < cs.len() ==> !json_ws(cs[(i + w.len()) as int]),
    ensures
        skip_ws(cs, i) == i + w.len(),
    decreases w.len(),
{
    if w.len() > 0 {
        lemma_holds_index(cs, i, w, 0);
        let rest = w.drop_first();
        assert(w == seq![w[0]] + rest);
        lemma_holds_split(cs, i, seq![w[0]], rest);
        assert forall|t: int| 0 <= t < rest.len() implies json_ws(#[trigger] rest[t]) by {
            assert(rest[t] == w[t + 1]);
        }
        lemma_skip_block(cs, i + 1, rest);
    }
}

/// A newline followed by an indent is whitespace.
proof fn lemma_nl_indent_ws(d: nat)
    ensures
        forall|t: int| 0 <= t < (seq!['\n'] + indent_text(d)).len() ==> json_ws(
            #[trigger] (seq!['\n'] + indent_text(d))[t],
        ),
{
    let w = seq!['\n'] + indent_text(d);
    assert forall|t: int| 0 <= t < w.len() implies json_ws(#[trigger] w[t]) by {
        if t > 0 {
            assert(w[t] == indent_text(d)[t - 1]);
        }
    }
}

/// Reading a value starts by skipping whitespace; starting earlier, in the
/// whitespace, reads the same.
proof fn lemma_p_value_from_ws(cs: Seq<char>, i: nat, j: nat)
    requires
        i <= j,
        skip_ws(cs, i) == j,
        skip_ws(cs, j) == j,
    ensures
        p_value(cs, i) == p_value(cs, j),
{
}

/// A number token ends where its characters end.
proof fn lemma_number_run(cs: Seq<char>, i: nat, n: Seq<char>, start: nat)
    requires
        holds_at(cs, i, n),
        forall|t: int| 0 <= t < n.len() ==> num_char(#[trigger] n[t]),
        i + n.len() < cs.len() ==> !num_char(cs[(i + n.len()) as int]),
        i <= start <= i + n.len(),
    ensures
        number_end(cs, start) == i + n.len(),
    decreases i + n.len() - start,
{
    if start < i + n.len() {
        lemma_holds_index(cs, i, n, start - i);
        lemma_number_run(cs, i, n, start + 1);
    }
}

/// The first character of a printed value: never whitespace, a closing
/// bracket, or a number character unless the value is a number.
proof fn lemma_pretty_first(v: JsonV, d: nat)
    requires
        well_formed(v),
    ensures
        pretty(v, d).len() > 0,
        !json_ws(pretty(v, d)[0]),
        pretty(v, d)[0] != ']',
        pretty(v, d)[0] != '}',
{
    match v {
        JsonV::Str(s) => {
            assert(json_quote(s)[0] == '"');
        },
        JsonV::Arr(items) => {
            if items.len() > 0 {
                assert(pretty(v, d)[0] == '[');
            }
        },
        JsonV::Obj(p) => {
            if p.len() > 0 {
                assert(pretty(v, d)[0] == '{');
            }
        },
        _ => {},
    }
}

/// A printed value parses back, wherever it stands in the text, when what
/// follows it cannot continue a number.
#[verifier::rlimit(50)]
#[verifier::spinoff_prover]
proof fn lemma_value_parses(cs: Seq<char>, i: nat, v: JsonV, d: nat)
    requires
        well_formed(v),
        holds_at(cs, i, pretty(v, d)),
        i + pretty(v, d).len() < cs.len() ==> !num_char(cs[(i + pretty(v, d).len()) as int]),
    ensures
        p_value(cs, i) == Ok::<(JsonV, nat), Seq<char>>((v, i + pretty(v, d).len())),
    decreases v, 0nat,
{
    let pv = pretty(v, d);
    lemma_pretty_first(v, d);
    lemma_holds_index(cs, i, pv, 0);
    assert(skip_ws(cs, i) == i);
    match v {
        JsonV::Null => {
            reveal_strlit("null");
            assert("null"@ =~= seq!['n', 'u', 'l', 'l']);
            assert(starts_with_at(cs, i, "null"@));
        },
        JsonV::Bool(b) => {
            reveal_strlit("true");
            reveal_strlit("false");
            assert("true"@ =~= seq!['t', 'r', 'u', 'e']);
            assert("false"@ =~= seq!['f', 'a', 'l', 's', 'e']);
            if b {
                assert(starts_with_at(cs, i, "true"@));
            } else {
                assert(!starts_with_at(cs, i, "true"@)) by {
                    if starts_with_at(cs, i, "true"@) {
                        assert(cs.subrange(i as int, i + 4int)[0] == cs[i as int]);
                    }
                }
                assert(starts_with_at(cs, i, "false"@));
            }
        },
        JsonV::Num(n) => {
            let start = if cs[i as int] == '-' {
                i + 1
            } else {
                i
            };
            lemma_number_run(cs, i, n, start);
        },
        JsonV::Str(s) => {
            lemma_string_parses(cs, i, s);
        },
        JsonV::Arr(items) => {
            if items.len() == 0 {
                lemma_holds_index(cs, i, pv, 1);
                assert(items =~= Seq::<JsonV>::empty());
            } else {
                lemma_elems_parse(cs, i, items, d, 0);
                lemma_elems_start(cs, i, items, d, 0);
                assert(items.take(0) =~= Seq::<JsonV>::empty());
            }
        },
        JsonV::Obj(pairs) => {
            if pairs.len() == 0 {
                lemma_holds_index(cs, i, pv, 1);
                assert(pairs =~= Seq::<(Seq<char>, JsonV)>::empty());
            } else {
                lemma_members_parse(cs, i, pairs, d, 0);
                lemma_members_start(cs, i, pairs, d, 0);
                assert(pairs.take(0) =~= Seq::<(Seq<char>, JsonV)>::empty());
            }
        },
    }
}


proof fn lemma_holds_join(cs: Seq<char>, i: nat, a: Seq<char>, b: Seq<char>)
    requires
        holds_at(cs, i, a),
        holds_at(cs, i + a.len(), b),
    ensures
        holds_at(cs, i, a + b),
{
    let x = cs.subrange(i as int, (i + a.len()) as int);
    let y = cs.subrange((i + a.len()) as int, (i + a.len() + b.len()) as int);
    assert(x == a);
    assert(y == b);
    assert(cs.subrange(i as int, (i + a.len() + b.len()) as int) =~= x + y);
}

proof fn lemma_arr_lines_extends(items: Seq<JsonV>, m: nat, n: nat, d: nat) -> (r: Seq<char>)
    requires
        m <= n <= items.len(),
    ensures
        arr_lines(items, n, d) == arr_lines(items, m, d) + r,
        m == n ==> r.len() == 0,
    decreases n - m,
{
    if m == n {
        assert(arr_lines(items, n, d) + Seq::<char>::empty() =~= arr_lines(items, n, d));
        Seq::empty()
    } else {
        let r0 = lemma_arr_lines_extends(items, m, (n - 1) as nat, d);
        let line = indent_text(d + 1) + pretty(items[n - 1], d + 1) + (if n < items.len() {
            seq![',']
        } else {
            Seq::empty()
        }) + seq!['\n'];
        assert(arr_lines(items, n, d) == arr_lines(items, (n - 1) as nat, d) + line);
        assert(arr_lines(items, n, d) =~= arr_lines(items, m, d) + (r0 + line));
        r0 + line
    }
}

proof fn lemma_obj_lines_extends(pairs: Seq<(Seq<char>, JsonV)>, m: nat, n: nat, d: nat) -> (r: Seq<char>)
    requires
        m <= n <= pairs.len(),
    ensures
        obj_lines(pairs, n, d) == obj_lines(pairs, m, d) + r,
        m == n ==> r.len() == 0,
    decreases n - m,
{
    if m == n {
        assert(obj_lines(pairs, n, d) + Seq::<char>::empty() =~= obj_lines(pairs, n, d));
        Seq::empty()
    } else {
        let r0 = lemma_obj_lines_extends(pairs, m, (n - 1) as nat, d);
        let line = indent_text(d + 1) + json_quote(pairs[n - 1].0) + seq![':', ' '] + pretty(
            pairs[n - 1].1,
            d + 1,
        ) + (if n < pairs.len() {
            seq![',']
        } else {
            Seq::empty()
        }) + seq!['\n'];
        assert(obj_lines(pairs, n, d) == obj_lines(pairs, (n - 1) as nat, d) + line);
        assert(obj_lines(pairs, n, d) =~= obj_lines(pairs, m, d) + (r0 + line));
        r0 + line
    }
}

proof fn lemma_regroup_item(a: Seq<char>, ak: Seq<char>, i: Seq<char>, p: Seq<char>, s: Seq<char>, n: Seq<char>, r: Seq<char>, t: Seq<char>)
    ensures
        a + ((((ak + i) + p) + s) + n + r) + t == (a + ak) + (i + (p + (s + (n + (r + t))))),
{
    assert(a + ((((ak + i) + p) + s) + n + r) + t =~= (a + ak) + (i + (p + (s + (n + (r + t))))));
}

proof fn lemma_regroup_member(
    a: Seq<char>,
    ok: Seq<char>,
    i: Seq<char>,
    q: Seq<char>,
    c: Seq<char>,
    p: Seq<char>,
    s: Seq<char>,
    n: Seq<char>,
    r: Seq<char>,
    t: Seq<char>,
)
    ensures
        a + ((((((ok + i) + q) + c) + p) + s) + n + r) + t == (a + ok) + (i + (q + (c + (p + (s + (n
            + (r + t))))))),
{
    assert(a + ((((((ok + i) + q) + c) + p) + s) + n + r) + t =~= (a + ok) + (i + (q + (c + (p + (s
        + (n + (r + t))))))));
}

/// How a printed array splits around item `k`: what comes before its
/// indent, the item, and what follows.
#[verifier::rlimit(60)]
#[verifier::spinoff_prover]
proof fn lemma_elems_layout(items: Seq<JsonV>, d: nat, k: nat) -> (rest: Seq<char>)
    requires
        items.len() > 0,
        k < items.len(),
    ensures
        ({
            let ak = arr_lines(items, k, d);
            let pk = pretty(items[k as int], d + 1);
            &&& pretty(JsonV::Arr(items), d) == (seq!['[', '\n'] + ak) + (indent_text(d + 1) + (pk
                + rest))
            &&& (seq!['[', '\n'] + ak)[1 + ak.len() as int] == '\n'
            &&& rest.len() > 0
            &&& (k + 1 < items.len() ==> rest[0] == ',')
            &&& (k + 1 < items.len() ==> arr_lines(items, k + 1, d).len() == ak.len() + 2 * (d + 1)
                + pk.len() + 2)
            &&& (k + 1 == items.len() ==> rest == seq!['\n'] + (indent_text(d) + seq![']']))
        }),
{
    let ak = arr_lines(items, k, d);
    let pk = pretty(items[k as int], d + 1);
    let sep: Seq<char> = if k + 1 < items.len() {
        seq![',']
    } else {
        Seq::empty()
    };
    let r = lemma_arr_lines_extends(items, k + 1, items.len(), d);
    let whole = arr_lines(items, items.len(), d);
    let tail = indent_text(d) + seq![']'];
    assert(arr_lines(items, k + 1, d) == ak + indent_text(d + 1) + pk + sep + seq!['\n']);
    let pv = pretty(JsonV::Arr(items), d);
    assert(pv == seq!['[', '\n'] + whole + tail);
    let rest = sep + (seq!['\n'] + (r + tail));
    lemma_regroup_item(seq!['[', '\n'], ak, indent_text(d + 1), pk, sep, seq!['\n'], r, tail);
    assert(pv == (seq!['[', '\n'] + ak) + (indent_text(d + 1) + (pk + rest)));
    if k > 0 {
        assert(ak == arr_lines(items, (k - 1) as nat, d) + indent_text(d + 1) + pretty(
            items[k - 1],
            d + 1,
        ) + seq![','] + seq!['\n']);
        assert((seq!['[', '\n'] + ak)[1 + ak.len() as int] == ak.last());
    }
    if k + 1 == items.len() {
        assert(r.len() == 0);
        assert(rest =~= seq!['\n'] + (indent_text(d) + seq![']']));
    }
    rest
}

/// Where item `k` of a printed array stands, and what follows it.
proof fn lemma_elems_start(cs: Seq<char>, i: nat, items: Seq<JsonV>, d: nat, k: nat)
    requires
        holds_at(cs, i, pretty(JsonV::Arr(items), d)),
        items.len() > 0,
        k < items.len(),
        items_ok(items, items.len()),
    ensures
        ({
            let ak = arr_lines(items, k, d);
            let p = i + 1 + ak.len();
            let s = p + 1 + 2 * (d + 1);
            let pk = pretty(items[k as int], d + 1);
            let e = s + pk.len();
            &&& skip_ws(cs, p) == s
            &&& holds_at(cs, s, pk)
            &&& s < cs.len()
            &&& cs[s as int] != ']'
            &&& e < cs.len()
            &&& (k + 1 < items.len() ==> cs[e as int] == ',')
            &&& (k + 1 < items.len() ==> arr_lines(items, k + 1, d).len() == ak.len() + 2 * (d + 1)
                + pk.len() + 2)
            &&& (k + 1 == items.len() ==> holds_at(cs, e, seq!['\n'] + (indent_text(d) + seq![']'])))
            &&& (k + 1 == items.len() ==> i + pretty(JsonV::Arr(items), d).len() == e + 2 + 2 * d)
        }),
{
    let ak = arr_lines(items, k, d);
    let p = i + 1 + ak.len();
    let s = p + 1 + 2 * (d + 1);
    let pk = pretty(items[k as int], d + 1);
    let e = s + pk.len();
    let rest = lemma_elems_layout(items, d, k);
    lemma_holds_split(cs, i, seq!['[', '\n'] + ak, indent_text(d + 1) + (pk + rest));
    lemma_holds_split(cs, i + 2 + ak.len(), indent_text(d + 1), pk + rest);
    lemma_holds_split(cs, s, pk, rest);
    lemma_items_ok_index(items, items.len(), k as int);
    lemma_pretty_first(items[k as int], d + 1);
    lemma_holds_index(cs, s, pk, 0);
    lemma_holds_index(cs, i, seq!['[', '\n'] + ak, 1 + ak.len() as int);
    assert(holds_at(cs, p, seq!['\n'])) by {
        assert(cs.subrange(p as int, p + 1int) =~= seq![cs[p as int]]);
    }
    lemma_holds_join(cs, p, seq!['\n'], indent_text(d + 1));
    lemma_nl_indent_ws(d + 1);
    lemma_skip_block(cs, p, seq!['\n'] + indent_text(d + 1));
    lemma_holds_index(cs, e, rest, 0);
}

/// Items `k..` of a printed array parse back into the whole array.
#[verifier::spinoff_prover]
proof fn lemma_elems_parse(cs: Seq<char>, i: nat, items: Seq<JsonV>, d: nat, k: nat)
    requires
        holds_at(cs, i, pretty(JsonV::Arr(items), d)),
        items.len() > 0,
        k < items.len(),
        items_ok(items, items.len()),
    ensures
        p_elems(cs, i + 1 + arr_lines(items, k, d).len(), items.take(k as int)) == Ok::<
            (JsonV, nat),
            Seq<char>,
        >((JsonV::Arr(items), i + pretty(JsonV::Arr(items), d).len())),
    decreases items, items.len() - k,
{
    let ak = arr_lines(items, k, d);
    let p = i + 1 + ak.len();
    let s = p + 1 + 2 * (d + 1);
    let item = items[k as int];
    let pk = pretty(item, d + 1);
    let e = s + pk.len();
    lemma_elems_start(cs, i, items, d, k);
    lemma_items_ok_index(items, items.len(), k as int);
    lemma_pretty_first(item, d + 1);
    lemma_holds_index(cs, s, pk, 0);
    lemma_p_value_from_ws(cs, p, s);
    if k + 1 == items.len() {
        lemma_holds_index(cs, e, seq!['\n'] + (indent_text(d) + seq![']']), 0);
    }
    lemma_value_parses(cs, s, item, d + 1);
    assert(items.take(k as int).push(item) == items.take(k as int + 1));
    if k + 1 < items.len() {
        assert(skip_ws(cs, e) == e);
        lemma_elems_parse(cs, i, items, d, k + 1);
    } else {
        let w = seq!['\n'] + indent_text(d);
        assert(seq!['\n'] + (indent_text(d) + seq![']']) == w + seq![']']);
        lemma_holds_split(cs, e, w, seq![']']);
        lemma_holds_index(cs, e + w.len(), seq![']'], 0);
        lemma_nl_indent_ws(d);
        lemma_skip_block(cs, e, w);
        assert(items.take(k as int + 1) == items);
    }
}

/// How a printed object splits around member `k`: what comes before its
/// key's indent, the key, `: `, the value, and what follows.
#[verifier::rlimit(60)]
#[verifier::spinoff_prover]
proof fn lemma_members_layout(pairs: Seq<(Seq<char>, JsonV)>, d: nat, k: nat) -> (rest: Seq<char>)
    requires
        pairs.len() > 0,
        k < pairs.len(),
    ensures
        ({
            let ok = obj_lines(pairs, k, d);
            let qk = json_quote(pairs[k as int].0);
            let pk = pretty(pairs[k as int].1, d + 1);
            &&& pretty(JsonV::Obj(pairs), d) == (seq!['{', '\n'] + ok) + (indent_text(d + 1) + (qk + (
            seq![':', ' '] + (pk + rest))))
            &&& (seq!['{', '\n'] + ok)[1 + ok.len() as int] == '\n'
            &&& rest.len() > 0
            &&& (k + 1 < pairs.len() ==> rest[0] == ',')
            &&& (k + 1 < pairs.len() ==> obj_lines(pairs, k + 1, d).len() == ok.len() + 2 * (d + 1)
                + qk.len() + 2 + pk.len() + 2)
            &&& (k + 1 == pairs.len() ==> rest == seq!['\n'] + (indent_text(d) + seq!['}']))
        }),
{
    let ok = obj_lines(pairs, k, d);
    let qk = json_quote(pairs[k as int].0);
    let pk = pretty(pairs[k as int].1, d + 1);
    let sep: Seq<char> = if k + 1 < pairs.len() {
        seq![',']
    } else {
        Seq::empty()
    };
    let r = lemma_obj_lines_extends(pairs, k + 1, pairs.len(), d);
    let whole = obj_lines(pairs, pairs.len(), d);
    let tail = indent_text(d) + seq!['}'];
    assert(obj_lines(pairs, k + 1, d) == ok + indent_text(d + 1) + qk + seq![':', ' '] + pk + sep
        + seq!['\n']);
    let pv = pretty(JsonV::Obj(pairs), d);
    assert(pv == seq!['{', '\n'] + whole + tail);
    let rest = sep + (seq!['\n'] + (r + tail));
    let after = indent_text(d + 1) + (qk + (seq![':', ' '] + (pk + rest)));
    lemma_regroup_member(
        seq!['{', '\n'],
        ok,
        indent_text(d + 1),
        qk,
        seq![':', ' '],
        pk,
        sep,
        seq!['\n'],
        r,
        tail,
    );
    assert(pv == (seq!['{', '\n'] + ok) + after);
    if k > 0 {
        assert(ok == obj_lines(pairs, (k - 1) as nat, d) + indent_text(d + 1) + json_quote(
            pairs[k - 1].0,
        ) + seq![':', ' '] + pretty(pairs[k - 1].1, d + 1) + seq![','] + seq!['\n']);
        assert((seq!['{', '\n'] + ok)[1 + ok.len() as int] == ok.last());
    }
    if k + 1 == pairs.len() {
        assert(r.len() == 0);
        assert(rest =~= seq!['\n'] + (indent_text(d) + seq!['}']));
    }
    rest
}

/// Where member `k` of a printed object stands, and what follows it.
proof fn lemma_members_start(cs: Seq<char>, i: nat, pairs: Seq<(Seq<char>, JsonV)>, d: nat, k: nat)
    requires
        holds_at(cs, i, pretty(JsonV::Obj(pairs), d)),
        pairs.len() > 0,
        k < pairs.len(),
        pairs_ok(pairs, pairs.len()),
    ensures
        ({
            let ok = obj_lines(pairs, k, d);
            let p = i + 1 + ok.len();
            let q = p + 1 + 2 * (d + 1);
            let qk = json_quote(pairs[k as int].0);
            let s = q + qk.len() + 2;
            let pk = pretty(pairs[k as int].1, d + 1);
            let e = s + pk.len();
            &&& skip_ws(cs, p) == q
            &&& holds_at(cs, q, qk)
            &&& q < cs.len()
            &&& cs[q as int] != '}'
            &&& cs[(q + qk.len()) as int] == ':'
            &&& cs[(q + qk.len() + 1) as int] == ' '
            &&& holds_at(cs, s, pk)
            &&& e < cs.len()
            &&& (k + 1 < pairs.len() ==> cs[e as int] == ',')
            &&& (k + 1 < pairs.len() ==> obj_lines(pairs, k + 1, d).len() == ok.len() + 2 * (d + 1)
                + qk.len() + 2 + pk.len() + 2)
            &&& (k + 1 == pairs.len() ==> holds_at(cs, e, seq!['\n'] + (indent_text(d) + seq!['}'])))
            &&& (k + 1 == pairs.len() ==> i + pretty(JsonV::Obj(pairs), d).len() == e + 2 + 2 * d)
        }),
{
    let ok = obj_lines(pairs, k, d);
    let p = i + 1 + ok.len();
    let q = p + 1 + 2 * (d + 1);
    let qk = json_quote(pairs[k as int].0);
    let s = q + qk.len() + 2;
    let pk = pretty(pairs[k as int].1, d + 1);
    let e = s + pk.len();
    let rest = lemma_members_layout(pairs, d, k);
    lemma_holds_split(cs, i, seq!['{', '\n'] + ok, indent_text(d + 1) + (qk + (seq![':', ' '] + (pk
        + rest))));
    lemma_holds_split(cs, i + 2 + ok.len(), indent_text(d + 1), qk + (seq![':', ' '] + (pk + rest)));
    lemma_holds_split(cs, q, qk, seq![':', ' '] + (pk + rest));
    lemma_holds_split(cs, q + qk.len(), seq![':', ' '], pk + rest);
    lemma_holds_index(cs, q + qk.len(), seq![':', ' '], 0);
    lemma_holds_index(cs, q + qk.len(), seq![':', ' '], 1);
    lemma_holds_split(cs, s, pk, rest);
    lemma_pairs_ok_index(pairs, pairs.len(), k as int);
    lemma_pretty_first(pairs[k as int].1, d + 1);
    lemma_holds_index(cs, q, qk, 0);
    assert(qk[0] == '"');
    lemma_holds_index(cs, i, seq!['{', '\n'] + ok, 1 + ok.len() as int);
    assert(holds_at(cs, p, seq!['\n'])) by {
        assert(cs.subrange(p as int, p + 1int) =~= seq![cs[p as int]]);
    }
    lemma_holds_join(cs, p, seq!['\n'], indent_text(d + 1));
    lemma_nl_indent_ws(d + 1);
    lemma_skip_block(cs, p, seq!['\n'] + indent_text(d + 1));
    lemma_holds_index(cs, e, rest, 0);
}

/// Members `k..` of a printed object parse back into the whole object.
#[verifier::spinoff_prover]
proof fn lemma_members_parse(cs: Seq<char>, i: nat, pairs: Seq<(Seq<char>, JsonV)>, d: nat, k: nat)
    requires
        holds_at(cs, i, pretty(JsonV::Obj(pairs), d)),
        pairs.len() > 0,
        k < pairs.len(),
        pairs_ok(pairs, pairs.len()),
    ensures
        p_members(cs, i + 1 + obj_lines(pairs, k, d).len(), pairs.take(k as int)) == Ok::<
            (JsonV, nat),
            Seq<char>,
        >((JsonV::Obj(pairs), i + pretty(JsonV::Obj(pairs), d).len())),
    decreases pairs, pairs.len() - k,
{
    let ok = obj_lines(pairs, k, d);
    let p = i + 1 + ok.len();
    let q = p + 1 + 2 * (d + 1);
    let key = pairs[k as int].0;
    let val = pairs[k as int].1;
    let qk = json_quote(key);
    let k1 = q + qk.len();
    let s = k1 + 2;
    let pk = pretty(val, d + 1);
    let e = s + pk.len();
    lemma_members_start(cs, i, pairs, d, k);
    lemma_pairs_ok_index(pairs, pairs.len(), k as int);
    lemma_pretty_first(val, d + 1);
    lemma_holds_index(cs, s, pk, 0);
    lemma_string_parses(cs, q, key);
    assert(skip_ws(cs, k1) == k1);
    assert(skip_ws(cs, s) == s);
    assert(skip_ws(cs, k1 + 1) == s);
    lemma_p_value_from_ws(cs, k1 + 1, s);
    if k + 1 == pairs.len() {
        lemma_holds_index(cs, e, seq!['\n'] + (indent_text(d) + seq!['}']), 0);
    }
    lemma_value_parses(cs, s, val, d + 1);
    assert(pairs.take(k as int).push((key, val)) == pairs.take(k as int + 1));
    if k + 1 < pairs.len() {
        assert(skip_ws(cs, e) == e);
        lemma_members_parse(cs, i, pairs, d, k + 1);
    } else {
        let w = seq!['\n'] + indent_text(d);
        assert(seq!['\n'] + (indent_text(d) + seq!['}']) == w + seq!['}']);
        lemma_holds_split(cs, e, w, seq!['}']);
        lemma_holds_index(cs, e + w.len(), seq!['}'], 0);
        lemma_nl_indent_ws(d);
        lemma_skip_block(cs, e, w);
        assert(pairs.take(k as int + 1) == pairs);
    }
}

/// Printing a well-formed value (with the trailing newline the writers
/// add) and parsing the text gives the value back.
pub proof fn lemma_pretty_parses_back(v: JsonV)
    requires
        well_formed(v),
    ensures
        parse_doc(pretty(v, 0).push('\n')) == Ok::<JsonV, Seq<char>>(v),
        parse_doc(pretty(v, 0)) == Ok::<JsonV, Seq<char>>(v),
{
    let pv = pretty(v, 0);
    assert(pv.subrange(0, pv.len() as int) =~= pv);
    lemma_value_parses(pv, 0, v, 0);
    assert(skip_ws(pv, pv.len()) == pv.len());
    let cs = pv.push('\n');
    assert(cs.subrange(0, pv.len() as int) =~= pv);
    assert(cs[pv.len() as int] == '\n');
    lemma_value_parses(cs, 0, v, 0);
    assert(skip_ws(cs, cs.len()) == cs.len());
    assert(skip_ws(cs, pv.len()) == cs.len());
}


/// A printed object, with the writers' trailing newline, trims to the
/// printed text.
pub proof fn lemma_pretty_object_trims(v: JsonV)
    requires
        v is Obj,
    ensures
        trim(pretty(v, 0).push('\n')) == pretty(v, 0),
        pretty(v, 0).len() > 0,
{
    let pv = pretty(v, 0);
    let t = pv.push('\n');
    assert(pv[0] == '{');
    assert(pv.last() == '}');
    assert(t[0] == '{');
    assert(!is_ws(t[0]));
    assert(lead_ws(t) == 0);
    assert(t.skip(0) == t);
    assert(t.drop_last() == pv);
    assert(is_ws(t.last()));
    assert(!is_ws(pv.last()));
    assert(trail_ws(pv) == 0);
    assert(trail_ws(t) == 1);
    assert(t.take(t.len() - 1) == pv);
}


// ---------------------------------------------------------------------
// What the parser produces is well formed
// ---------------------------------------------------------------------

proof fn lemma_items_ok_push(acc: Seq<JsonV>, v: JsonV, n: nat)
    requires
        n <= acc.len(),
    ensures
        items_ok(acc.push(v), n) == items_ok(acc, n),
    decreases n,
{
    if n > 0 {
        lemma_items_ok_push(acc, v, (n - 1) as nat);
        assert(acc.push(v)[n - 1] == acc[n - 1]);
    }
}

proof fn lemma_pairs_ok_push(acc: Seq<(Seq<char>, JsonV)>, m: (Seq<char>, JsonV), n: nat)
    requires
        n <= acc.len(),
    ensures
        pairs_ok(acc.push(m), n) == pairs_ok(acc, n),
    decreases n,
{
    if n > 0 {
        lemma_pairs_ok_push(acc, m, (n - 1) as nat);
        assert(acc.push(m)[n - 1] == acc[n - 1]);
    }
}

proof fn lemma_number_end_chars(cs: Seq<char>, i: nat)
    ensures
        i <= number_end(cs, i),
        i <= cs.len() ==> number_end(cs, i) <= cs.len(),
        forall|t: int| i <= t < number_end(cs, i) ==> num_char(#[trigger] cs[t]),
    decreases cs.len() - i,
{
    if i < cs.len() && num_char(cs[i as int]) {
        lemma_number_end_chars(cs, i + 1);
    }
}

proof fn lemma_skip_ws_ge(cs: Seq<char>, i: nat)
    ensures
        i <= skip_ws(cs, i),
    decreases cs.len() - i,
{
    if i < cs.len() && json_ws(cs[i as int]) {
        lemma_skip_ws_ge(cs, i + 1);
    }
}

proof fn lemma_value_wf(cs: Seq<char>, i: nat)
    ensures
        p_value(cs, i) matches Ok((v, _)) ==> well_formed(v),
    decreases cs.len() - i, 3nat,
{
    let j = skip_ws(cs, i);
    lemma_skip_ws_ge(cs, i);
    if j < cs.len() {
        let c = cs[j as int];
        if c == '{' {
            let k = skip_ws(cs, j + 1);
            if !(k < cs.len() && cs[k as int] == '}') {
                lemma_members_wf(cs, j + 1, Seq::empty());
            }
        } else if c == '[' {
            let k = skip_ws(cs, j + 1);
            if !(k < cs.len() && cs[k as int] == ']') {
                lemma_elems_wf(cs, j + 1, Seq::empty());
            }
        } else if c == '-' || ('0' <= c <= '9') {
            let start = if c == '-' {
                j + 1
            } else {
                j
            };
            lemma_number_end_chars(cs, start);
            let k = number_end(cs, start);
            let n = cs.subrange(j as int, k as int);
            if c != '-' {
                assert(num_char(c));
                assert(k >= j + 1) by {
                    assert(number_end(cs, j) == number_end(cs, j + 1));
                    lemma_number_end_chars(cs, j + 1);
                }
            }
            assert forall|t: int| 0 <= t < n.len() implies num_char(#[trigger] n[t]) by {
                assert(n[t] == cs[j + t]);
            }
        }
    }
}

proof fn lemma_elems_wf(cs: Seq<char>, i: nat, acc: Seq<JsonV>)
    requires
        items_ok(acc, acc.len()),
    ensures
        p_elems(cs, i, acc) matches Ok((v, _)) ==> well_formed(v),
    decreases cs.len() - i, 5nat,
{
    lemma_value_wf(cs, i);
    if let Ok((v, k1)) = p_value(cs, i) {
        let k2 = skip_ws(cs, k1);
        let acc2 = acc.push(v);
        lemma_items_ok_push(acc, v, acc.len());
        assert(items_ok(acc2, acc2.len()));
        if k2 > i && k2 < cs.len() && cs[k2 as int] == ',' {
            lemma_elems_wf(cs, k2 + 1, acc2);
        }
    }
}

proof fn lemma_members_wf(cs: Seq<char>, i: nat, acc: Seq<(Seq<char>, JsonV)>)
    requires
        pairs_ok(acc, acc.len()),
    ensures
        p_members(cs, i, acc) matches Ok((v, _)) ==> well_formed(v),
    decreases cs.len() - i, 4nat,
{
    let k0 = skip_ws(cs, i);
    if k0 >= i {
        if let Ok((key, k1)) = p_string(cs, k0) {
            let k2 = skip_ws(cs, k1);
            if k2 >= i && k2 < cs.len() && cs[k2 as int] == ':' {
                lemma_value_wf(cs, k2 + 1);
                if let Ok((v, k3)) = p_value(cs, k2 + 1) {
                    let k4 = skip_ws(cs, k3);
                    let acc2 = acc.push((key, v));
                    lemma_pairs_ok_push(acc, (key, v), acc.len());
                    assert(pairs_ok(acc2, acc2.len()));
                    if k4 > i && k4 < cs.len() && cs[k4 as int] == ',' {
                        lemma_members_wf(cs, k4 + 1, acc2);
                    }
                }
            }
        }
    }
}

/// Every value the parser produces is well formed.
pub proof fn lemma_parsed_well_formed(cs: Seq<char>)
    ensures
        parse_doc(cs) matches Ok(v) ==> well_formed(v),
{
    lemma_value_wf(cs, 0);
}


// ---------------------------------------------------------------------
// Writes keep an object well formed
// ---------------------------------------------------------------------

/// Every member value is well formed.
pub open spec fn members_ok(p: Seq<(Seq<char>, JsonV)>) -> bool {
    forall|i: int| 0 <= i < p.len() ==> well_formed(#[trigger] p[i].1)
}

proof fn lemma_pairs_ok_iff(p: Seq<(Seq<char>, JsonV)>, n: nat)
    requires
        n <= p.len(),
    ensures
        pairs_ok(p, n) <==> forall|i: int| 0 <= i < n ==> well_formed(#[trigger] p[i].1),
    decreases n,
{
    if n > 0 {
        lemma_pairs_ok_iff(p, (n - 1) as nat);
    }
}

/// An object is well formed exactly when its member values are.
pub proof fn lemma_obj_well_formed(p: Seq<(Seq<char>, JsonV)>)
    ensures
        well_formed(JsonV::Obj(p)) <==> members_ok(p),
{
    lemma_pairs_ok_iff(p, p.len());
}

/// Setting a member to a well-formed value keeps the members well formed.
pub proof fn lemma_obj_set_ok(p: Seq<(Seq<char>, JsonV)>, key: Seq<char>, v: JsonV)
    requires
        members_ok(p),
        well_formed(v),
    ensures
        members_ok(crate::json::obj_set(p, key, v)),
{
    let q = crate::json::obj_set(p, key, v);
    crate::json::lemma_key_index_from(p, key, 0);
    match crate::json::key_index(p, key) {
        Some(k) => {
            assert forall|i: int| 0 <= i < q.len() implies well_formed(#[trigger] q[i].1) by {
                if i != k {
                    assert(q[i] == p[i]);
                }
            }
        },
        None => {
            assert forall|i: int| 0 <= i < q.len() implies well_formed(#[trigger] q[i].1) by {
                if i < p.len() {
                    assert(q[i] == p[i]);
                }
            }
        },
    }
}

/// Dropping members keeps the rest well formed.
pub proof fn lemma_obj_remove_ok(p: Seq<(Seq<char>, JsonV)>, key: Seq<char>)
    requires
        members_ok(p),
    ensures
        members_ok(crate::json::obj_remove(p, key)),
{
    let q = crate::json::obj_remove(p, key);
    assert forall|i: int| 0 <= i < q.len() implies well_formed(#[trigger] q[i].1) by {
        assert(q.contains(q[i]));
        p.lemma_filter_contains_rev(crate::json::not_named(key), q[i]);
        let j = choose|j: int| 0 <= j < p.len() && p[j] == q[i];
        assert(well_formed(p[j].1));
    }
}

/// Decimal digits are a number token.
pub proof fn lemma_dec_num_token(n: nat)
    ensures
        num_token(crate::text::dec(n)),
{
    crate::text::lemma_dec_digits(n);
    let d = crate::text::dec(n);
    assert forall|i: int| 0 <= i < d.len() implies num_char(#[trigger] d[i]) by {
        assert(crate::text::is_digit(d[i]));
    }
    assert(crate::text::is_digit(d[0]));
}


// ---------------------------------------------------------------------
// Compact text parses back
// ---------------------------------------------------------------------

/// The first character of a compact value: never whitespace or a closing
/// bracket.
proof fn lemma_compact_first(v: JsonV)
    requires
        well_formed(v),
    ensures
        compact(v).len() > 0,
        !json_ws(compact(v)[0]),
        compact(v)[0] != ']',
        compact(v)[0] != '}',
{
    match v {
        JsonV::Str(s) => {
            assert(json_quote(s)[0] == '"');
        },
        JsonV::Arr(items) => {
            assert(compact(v)[0] == '[');
        },
        JsonV::Obj(p) => {
            assert(compact(v)[0] == '{');
        },
        _ => {},
    }
}

proof fn lemma_compact_items_extends(items: Seq<JsonV>, m: nat, n: nat) -> (r: Seq<char>)
    requires
        m <= n <= items.len(),
    ensures
        compact_items(items, n) == compact_items(items, m) + r,
        m == n ==> r.len() == 0,
        m < n && m >= 1 ==> r.len() > 0 && r[0] == ',',
    decreases n - m,
{
    if m == n {
        assert(compact_items(items, n) + Seq::<char>::empty() =~= compact_items(items, n));
        Seq::empty()
    } else {
        let r0 = lemma_compact_items_extends(items, m, (n - 1) as nat);
        let sep: Seq<char> = if n > 1 {
            seq![',']
        } else {
            Seq::empty()
        };
        let piece = sep + compact(items[n - 1]);
        assert(compact_items(items, n) == compact_items(items, (n - 1) as nat) + sep + compact(
            items[n - 1],
        ));
        assert(compact_items(items, n) =~= compact_items(items, m) + (r0 + piece));
        if m >= 1 && r0.len() == 0 {
            assert((r0 + piece)[0] == piece[0]);
        }
        if r0.len() > 0 {
            assert((r0 + piece)[0] == r0[0]);
        }
        r0 + piece
    }
}

proof fn lemma_compact_members_extends(pairs: Seq<(Seq<char>, JsonV)>, m: nat, n: nat) -> (r: Seq<
    char,
>)
    requires
        m <= n <= pairs.len(),
    ensures
        compact_members(pairs, n) == compact_members(pairs, m) + r,
        m == n ==> r.len() == 0,
        m < n && m >= 1 ==> r.len() > 0 && r[0] == ',',
    decreases n - m,
{
    if m == n {
        assert(compact_members(pairs, n) + Seq::<char>::empty() =~= compact_members(pairs, n));
        Seq::empty()
    } else {
        let r0 = lemma_compact_members_extends(pairs, m, (n - 1) as nat);
        let sep: Seq<char> = if n > 1 {
            seq![',']
        } else {
            Seq::empty()
        };
        let piece = sep + json_quote(pairs[n - 1].0) + seq![':'] + compact(pairs[n - 1].1);
        assert(compact_members(pairs, n) == compact_members(pairs, (n - 1) as nat) + sep
            + json_quote(pairs[n - 1].0) + seq![':'] + compact(pairs[n - 1].1));
        assert(compact_members(pairs, n) =~= compact_members(pairs, m) + (r0 + piece));
        if m >= 1 && r0.len() == 0 {
            assert((r0 + piece)[0] == piece[0]);
        }
        if r0.len() > 0 {
            assert((r0 + piece)[0] == r0[0]);
        }
        r0 + piece
    }
}

/// Where item `k` of a compact array stands, and what follows it.
#[verifier::rlimit(40)]
#[verifier::spinoff_prover]
proof fn lemma_compact_elems_start(cs: Seq<char>, i: nat, items: Seq<JsonV>, k: nat)
    requires
        holds_at(cs, i, compact(JsonV::Arr(items))),
        k < items.len(),
    ensures
        ({
            let ck = compact_items(items, k);
            let s = i + 1 + ck.len() + (if k > 0 {
                1nat
            } else {
                0nat
            });
            let pk = compact(items[k as int]);
            let e = s + pk.len();
            &&& holds_at(cs, s, pk)
            &&& e < cs.len()
            &&& compact_items(items, k + 1).len() == ck.len() + (if k > 0 {
                1nat
            } else {
                0nat
            }) + pk.len()
            &&& (k + 1 < items.len() ==> cs[e as int] == ',')
            &&& (k + 1 == items.len() ==> cs[e as int] == ']' && i + compact(JsonV::Arr(items)).len()
                == e + 1)
        }),
{
    let ck = compact_items(items, k);
    let sep: Seq<char> = if k > 0 {
        seq![',']
    } else {
        Seq::empty()
    };
    let pk = compact(items[k as int]);
    let r = lemma_compact_items_extends(items, k + 1, items.len());
    assert(compact_items(items, k + 1) == ck + sep + pk);
    let rest = r + seq![']'];
    let whole = compact(JsonV::Arr(items));
    assert(whole =~= (seq!['['] + ck + sep) + (pk + rest));
    lemma_holds_split(cs, i, seq!['['] + ck + sep, pk + rest);
    lemma_holds_split(cs, i + 1 + ck.len() + sep.len(), pk, rest);
    lemma_holds_index(cs, i + 1 + ck.len() + sep.len() + pk.len(), rest, 0);
    if k + 1 == items.len() {
        assert(rest =~= seq![']']);
    } else {
        assert(rest[0] == r[0]);
    }
}

/// Items `k..` of a compact array parse back into the whole array.
#[verifier::spinoff_prover]
proof fn lemma_compact_elems_parse(cs: Seq<char>, i: nat, items: Seq<JsonV>, k: nat)
    requires
        holds_at(cs, i, compact(JsonV::Arr(items))),
        k < items.len(),
        items_ok(items, items.len()),
    ensures
        p_elems(
            cs,
            i + 1 + compact_items(items, k).len() + (if k > 0 {
                1nat
            } else {
                0nat
            }),
            items.take(k as int),
        ) == Ok::<(JsonV, nat), Seq<char>>((JsonV::Arr(items), i + compact(JsonV::Arr(items)).len())),
    decreases items, items.len() - k,
{
    let ck = compact_items(items, k);
    let s = i + 1 + ck.len() + (if k > 0 {
        1nat
    } else {
        0nat
    });
    let item = items[k as int];
    let pk = compact(item);
    let e = s + pk.len();
    lemma_compact_elems_start(cs, i, items, k);
    lemma_items_ok_index(items, items.len(), k as int);
    lemma_compact_first(item);
    lemma_compact_value_parses(cs, s, item);
    assert(items.take(k as int).push(item) == items.take(k as int + 1));
    assert(skip_ws(cs, e) == e);
    if k + 1 < items.len() {
        lemma_compact_elems_parse(cs, i, items, k + 1);
    } else {
        assert(items.take(k as int + 1) == items);
    }
}

/// Where member `k` of a compact object stands, and what follows it.
#[verifier::rlimit(40)]
#[verifier::spinoff_prover]
proof fn lemma_compact_members_start(cs: Seq<char>, i: nat, pairs: Seq<(Seq<char>, JsonV)>, k: nat)
    requires
        holds_at(cs, i, compact(JsonV::Obj(pairs))),
        k < pairs.len(),
    ensures
        ({
            let cm = compact_members(pairs, k);
            let q = i + 1 + cm.len() + (if k > 0 {
                1nat
            } else {
                0nat
            });
            let qk = json_quote(pairs[k as int].0);
            let s = q + qk.len() + 1;
            let pk = compact(pairs[k as int].1);
            let e = s + pk.len();
            &&& holds_at(cs, q, qk)
            &&& cs[(q + qk.len()) as int] == ':'
            &&& holds_at(cs, s, pk)
            &&& e < cs.len()
            &&& compact_members(pairs, k + 1).len() == cm.len() + (if k > 0 {
                1nat
            } else {
                0nat
            }) + qk.len() + 1 + pk.len()
            &&& (k + 1 < pairs.len() ==> cs[e as int] == ',')
            &&& (k + 1 == pairs.len() ==> cs[e as int] == '}' && i + compact(JsonV::Obj(pairs)).len()
                == e + 1)
        }),
{
    let cm = compact_members(pairs, k);
    let sep: Seq<char> = if k > 0 {
        seq![',']
    } else {
        Seq::empty()
    };
    let qk = json_quote(pairs[k as int].0);
    let pk = compact(pairs[k as int].1);
    let r = lemma_compact_members_extends(pairs, k + 1, pairs.len());
    assert(compact_members(pairs, k + 1) == cm + sep + qk + seq![':'] + pk);
    let rest = r + seq!['}'];
    let whole = compact(JsonV::Obj(pairs));
    let q = i + 1 + cm.len() + sep.len();
    assert(whole =~= (seq!['{'] + cm + sep) + (qk + (seq![':'] + (pk + rest))));
    lemma_holds_split(cs, i, seq!['{'] + cm + sep, qk + (seq![':'] + (pk + rest)));
    lemma_holds_split(cs, q, qk, seq![':'] + (pk + rest));
    lemma_holds_split(cs, q + qk.len(), seq![':'], pk + rest);
    lemma_holds_index(cs, q + qk.len(), seq![':'], 0);
    lemma_holds_split(cs, q + qk.len() + 1, pk, rest);
    lemma_holds_index(cs, q + qk.len() + 1 + pk.len(), rest, 0);
    if k + 1 == pairs.len() {
        assert(rest =~= seq!['}']);
    } else {
        assert(rest[0] == r[0]);
    }
}

/// Members `k..` of a compact object parse back into the whole object.
#[verifier::spinoff_prover]
proof fn lemma_compact_members_parse(cs: Seq<char>, i: nat, pairs: Seq<(Seq<char>, JsonV)>, k: nat)
    requires
        holds_at(cs, i, compact(JsonV::Obj(pairs))),
        k < pairs.len(),
        pairs_ok(pairs, pairs.len()),
    ensures
        p_members(
            cs,
            i + 1 + compact_members(pairs, k).len() + (if k > 0 {
                1nat
            } else {
                0nat
            }),
            pairs.take(k as int),
        ) == Ok::<(JsonV, nat), Seq<char>>((JsonV::Obj(pairs), i + compact(JsonV::Obj(pairs)).len())),
    decreases pairs, pairs.len() - k,
{
    let cm = compact_members(pairs, k);
    let q = i + 1 + cm.len() + (if k > 0 {
        1nat
    } else {
        0nat
    });
    let key = pairs[k as int].0;
    let val = pairs[k as int].1;
    let qk = json_quote(key);
    let k1 = q + qk.len();
    let s = k1 + 1;
    let pk = compact(val);
    let e = s + pk.len();
    lemma_compact_members_start(cs, i, pairs, k);
    lemma_pairs_ok_index(pairs, pairs.len(), k as int);
    lemma_compact_first(val);
    lemma_holds_index(cs, q, qk, 0);
    assert(qk[0] == '"');
    assert(skip_ws(cs, q) == q);
    lemma_string_parses(cs, q, key);
    assert(skip_ws(cs, k1) == k1);
    lemma_compact_value_parses(cs, s, val);
    assert(skip_ws(cs, e) == e);
    assert(pairs.take(k as int).push((key, val)) == pairs.take(k as int + 1));
    if k + 1 < pairs.len() {
        lemma_compact_members_parse(cs, i, pairs, k + 1);
    } else {
        assert(pairs.take(k as int + 1) == pairs);
    }
}

/// A compact value parses back, wherever it stands in the text, when what
/// follows it cannot continue a number.
#[verifier::rlimit(50)]
#[verifier::spinoff_prover]
proof fn lemma_compact_value_parses(cs: Seq<char>, i: nat, v: JsonV)
    requires
        well_formed(v),
        holds_at(cs, i, compact(v)),
        i + compact(v).len() < cs.len() ==> !num_char(cs[(i + compact(v).len()) as int]),
    ensures
        p_value(cs, i) == Ok::<(JsonV, nat), Seq<char>>((v, i + compact(v).len())),
    decreases v, 0nat,
{
    let pv = compact(v);
    lemma_compact_first(v);
    lemma_holds_index(cs, i, pv, 0);
    assert(skip_ws(cs, i) == i);
    match v {
        JsonV::Null => {
            reveal_strlit("null");
            assert("null"@ =~= seq!['n', 'u', 'l', 'l']);
            assert(starts_with_at(cs, i, "null"@));
        },
        JsonV::Bool(b) => {
            reveal_strlit("true");
            reveal_strlit("false");
            assert("true"@ =~= seq!['t', 'r', 'u', 'e']);
            assert("false"@ =~= seq!['f', 'a', 'l', 's', 'e']);
            if b {
                assert(starts_with_at(cs, i, "true"@));
            } else {
                assert(!starts_with_at(cs, i, "true"@)) by {
                    if starts_with_at(cs, i, "true"@) {
                        assert(cs.subrange(i as int, i + 4int)[0] == cs[i as int]);
                    }
                }
                assert(starts_with_at(cs, i, "false"@));
            }
        },
        JsonV::Num(n) => {
            let start = if cs[i as int] == '-' {
                i + 1
            } else {
                i
            };
            lemma_number_run(cs, i, n, start);
        },
        JsonV::Str(s) => {
            lemma_string_parses(cs, i, s);
        },
        JsonV::Arr(items) => {
            if items.len() == 0 {
                lemma_holds_index(cs, i, pv, 1);
                assert(items =~= Seq::<JsonV>::empty());
            } else {
                lemma_compact_elems_start(cs, i, items, 0);
                lemma_items_ok_index(items, items.len(), 0);
                lemma_compact_first(items[0]);
                lemma_holds_index(cs, i + 1, compact(items[0]), 0);
                assert(skip_ws(cs, i + 1) == i + 1);
                lemma_compact_elems_parse(cs, i, items, 0);
                assert(items.take(0) =~= Seq::<JsonV>::empty());
            }
        },
        JsonV::Obj(pairs) => {
            if pairs.len() == 0 {
                lemma_holds_index(cs, i, pv, 1);
                assert(pairs =~= Seq::<(Seq<char>, JsonV)>::empty());
            } else {
                lemma_compact_members_start(cs, i, pairs, 0);
                let qk = json_quote(pairs[0].0);
                lemma_holds_index(cs, i + 1, qk, 0);
                assert(qk[0] == '"');
                assert(skip_ws(cs, i + 1) == i + 1);
                lemma_compact_members_parse(cs, i, pairs, 0);
                assert(pairs.take(0) =~= Seq::<(Seq<char>, JsonV)>::empty());
            }
        },
    }
}

/// Printing a well-formed value compactly (with or without a trailing
/// newline) and parsing the text gives the value back.
pub proof fn lemma_compact_parses_back(v: JsonV)
    requires
        well_formed(v),
    ensures
        parse_doc(compact(v).push('\n')) == Ok::<JsonV, Seq<char>>(v),
        parse_doc(compact(v)) == Ok::<JsonV, Seq<char>>(v),
{
    let pv = compact(v);
    assert(pv.subrange(0, pv.len() as int) =~= pv);
    lemma_compact_value_parses(pv, 0, v);
    assert(skip_ws(pv, pv.len()) == pv.len());
    let cs = pv.push('\n');
    assert(cs.subrange(0, pv.len() as int) =~= pv);
    assert(cs[pv.len() as int] == '\n');
    lemma_compact_value_parses(cs, 0, v);
    assert(skip_ws(cs, cs.len()) == cs.len());
    assert(skip_ws(cs, pv.len()) == cs.len());
}


// ---------------------------------------------------------------------
// Whitespace between tokens changes nothing
// ---------------------------------------------------------------------

/// Whether `w` is made of JSON whitespace: space, tab, line feed and
/// carriage return.
pub open spec fn ws_text(w: Seq<char>) -> bool {
    forall|t: int| 0 <= t < w.len() ==> w[t] == ' ' || w[t] == '\t' || w[t] == '\n' || w[t] == '\r'
}

proof fn lemma_ws_block(cs: Seq<char>, i: nat, w: Seq<char>)
    requires
        holds_at(cs, i, w),
        ws_text(w),
        i + w.len() < cs.len() ==> !json_ws(cs[(i + w.len()) as int]),
    ensures
        skip_ws(cs, i) == i + w.len(),
{
    assert forall|t: int| 0 <= t < w.len() implies json_ws(#[trigger] w[t]) by {}
    lemma_skip_block(cs, i, w);
}

proof fn lemma_laid_first(v: JsonV, w: Seq<char>)
    requires
        well_formed(v),
    ensures
        laid(v, w).len() > 0,
        !json_ws(laid(v, w)[0]),
        !num_char(laid(v, w)[0]) ==> !(v is Num),
        laid(v, w)[0] != ']',
        laid(v, w)[0] != '}',
{
    match v {
        JsonV::Str(s) => {
            assert(json_quote(s)[0] == '"');
        },
        JsonV::Arr(items) => {
            assert(laid(v, w)[0] == '[');
        },
        JsonV::Obj(p) => {
            assert(laid(v, w)[0] == '{');
        },
        _ => {},
    }
}

proof fn lemma_laid_items_extends(items: Seq<JsonV>, m: nat, n: nat, w: Seq<char>) -> (r: Seq<char>)
    requires
        m <= n <= items.len(),
    ensures
        laid_items(items, n, w) == laid_items(items, m, w) + r,
        m == n ==> r.len() == 0,
        m < n && m >= 1 ==> r.len() > w.len() && r.take(w.len() + 1int) == w + seq![','],
    decreases n - m,
{
    if m == n {
        assert(laid_items(items, n, w) + Seq::<char>::empty() =~= laid_items(items, n, w));
        Seq::empty()
    } else {
        let r0 = lemma_laid_items_extends(items, m, (n - 1) as nat, w);
        let sep: Seq<char> = if n > 1 {
            w + seq![','] + w
        } else {
            Seq::empty()
        };
        let piece = sep + laid(items[n - 1], w);
        assert(laid_items(items, n, w) == laid_items(items, (n - 1) as nat, w) + sep + laid(
            items[n - 1],
            w,
        ));
        assert(laid_items(items, n, w) =~= laid_items(items, m, w) + (r0 + piece));
        if m >= 1 && r0.len() == 0 {
            assert((r0 + piece).take(w.len() + 1int) =~= w + seq![',']);
        }
        if r0.len() > 0 && m >= 1 {
            assert((r0 + piece).take(w.len() + 1int) =~= r0.take(w.len() + 1int));
        }
        r0 + piece
    }
}

proof fn lemma_laid_members_extends(pairs: Seq<(Seq<char>, JsonV)>, m: nat, n: nat, w: Seq<char>) -> (r:
    Seq<char>)
    requires
        m <= n <= pairs.len(),
    ensures
        laid_members(pairs, n, w) == laid_members(pairs, m, w) + r,
        m == n ==> r.len() == 0,
        m < n && m >= 1 ==> r.len() > w.len() && r.take(w.len() + 1int) == w + seq![','],
    decreases n - m,
{
    if m == n {
        assert(laid_members(pairs, n, w) + Seq::<char>::empty() =~= laid_members(pairs, n, w));
        Seq::empty()
    } else {
        let r0 = lemma_laid_members_extends(pairs, m, (n - 1) as nat, w);
        let sep: Seq<char> = if n > 1 {
            w + seq![','] + w
        } else {
            Seq::empty()
        };
        let piece = sep + json_quote(pairs[n - 1].0) + w + seq![':'] + w + laid(pairs[n - 1].1, w);
        assert(laid_members(pairs, n, w) == laid_members(pairs, (n - 1) as nat, w) + sep + json_quote(
            pairs[n - 1].0,
        ) + w + seq![':'] + w + laid(pairs[n - 1].1, w));
        assert(laid_members(pairs, n, w) =~= laid_members(pairs, m, w) + (r0 + piece));
        if m >= 1 && r0.len() == 0 {
            assert((r0 + piece).take(w.len() + 1int) =~= w + seq![',']);
        }
        if r0.len() > 0 && m >= 1 {
            assert((r0 + piece).take(w.len() + 1int) =~= r0.take(w.len() + 1int));
        }
        r0 + piece
    }
}

/// Where the text after item `k - 1` (or the opening `[` and `w`) leads.
pub open spec fn laid_elem_pos(i: nat, items: Seq<JsonV>, w: Seq<char>, k: nat) -> nat {
    if k == 0 {
        i + 1
    } else {
        i + 1 + w.len() + laid_items(items, k, w).len() + w.len() + 1
    }
}

#[verifier::rlimit(60)]
#[verifier::spinoff_prover]
proof fn lemma_laid_elems_start(cs: Seq<char>, i: nat, items: Seq<JsonV>, w: Seq<char>, k: nat)
    requires
        holds_at(cs, i, laid(JsonV::Arr(items), w)),
        k < items.len(),
    ensures
        ({
            let li = laid_items(items, k, w);
            let pos = laid_elem_pos(i, items, w, k);
            let s = pos + w.len();
            let pk = laid(items[k as int], w);
            let e = s + pk.len();
            &&& holds_at(cs, pos, w)
            &&& holds_at(cs, s, pk)
            &&& holds_at(cs, e, w)
            &&& e + w.len() < cs.len()
            &&& (k + 1 < items.len() ==> cs[(e + w.len()) as int] == ','
                && laid_elem_pos(i, items, w, k + 1) == e + w.len() + 1)
            &&& (k + 1 == items.len() ==> cs[(e + w.len()) as int] == ']' && i + laid(
                JsonV::Arr(items),
                w,
            ).len() == e + w.len() + 1)
        }),
{
    let li = laid_items(items, k, w);
    let sep: Seq<char> = if k > 0 {
        w + seq![','] + w
    } else {
        Seq::empty()
    };
    let pk = laid(items[k as int], w);
    let r = lemma_laid_items_extends(items, k + 1, items.len(), w);
    assert(laid_items(items, k + 1, w) == li + sep + pk);
    let rest = r + w + seq![']'];
    let whole = laid(JsonV::Arr(items), w);
    let head = seq!['['] + w + li;
    assert(whole =~= (head + sep) + (pk + rest));
    lemma_holds_split(cs, i, head + sep, pk + rest);
    let pos = laid_elem_pos(i, items, w, k);
    let s = pos + w.len();
    let e = s + pk.len();
    if k > 0 {
        assert(head + sep =~= (head + (w + seq![','])) + w);
        lemma_holds_split(cs, i, head + (w + seq![',']), w);
    } else {
        assert(head + sep =~= seq!['['] + w);
        lemma_holds_split(cs, i, seq!['['], w);
    }
    lemma_holds_split(cs, s, pk, rest);
    if k + 1 < items.len() {
        assert(rest.take(w.len() + 1int) =~= w + seq![',']);
        assert(rest =~= (w + seq![','] ) + rest.skip(w.len() + 1int));
        lemma_holds_split(cs, e, w + seq![','], rest.skip(w.len() + 1int));
        lemma_holds_split(cs, e, w, seq![',']);
        lemma_holds_index(cs, e + w.len(), seq![','], 0);
    } else {
        assert(r.len() == 0);
        assert(rest =~= w + seq![']']);
        lemma_holds_split(cs, e, w, seq![']']);
        lemma_holds_index(cs, e + w.len(), seq![']'], 0);
    }
}

/// Items `k..` of an array printed with `w` parse back into the array.
#[verifier::spinoff_prover]
proof fn lemma_laid_elems_parse(cs: Seq<char>, i: nat, items: Seq<JsonV>, w: Seq<char>, k: nat)
    requires
        holds_at(cs, i, laid(JsonV::Arr(items), w)),
        k < items.len(),
        items_ok(items, items.len()),
        ws_text(w),
    ensures
        p_elems(cs, laid_elem_pos(i, items, w, k), items.take(k as int)) == Ok::<(JsonV, nat), Seq<char>>(
            (JsonV::Arr(items), i + laid(JsonV::Arr(items), w).len()),
        ),
    decreases items, items.len() - k,
{
    let pos = laid_elem_pos(i, items, w, k);
    let s = pos + w.len();
    let item = items[k as int];
    let pk = laid(item, w);
    let e = s + pk.len();
    lemma_laid_elems_start(cs, i, items, w, k);
    lemma_items_ok_index(items, items.len(), k as int);
    lemma_laid_first(item, w);
    lemma_holds_index(cs, s, pk, 0);
    lemma_ws_block(cs, pos, w);
    assert(skip_ws(cs, s) == s);
    lemma_p_value_from_ws(cs, pos, s);
    if w.len() > 0 {
        lemma_holds_index(cs, e, w, 0);
    }
    lemma_laid_value_parses(cs, s, item, w);
    lemma_ws_block(cs, e, w);
    assert(items.take(k as int).push(item) == items.take(k as int + 1));
    if k + 1 < items.len() {
        lemma_laid_elems_parse(cs, i, items, w, k + 1);
    } else {
        assert(items.take(k as int + 1) == items);
    }
}

/// Where the text after member `k - 1` (or the opening `{` and `w`) leads.
pub open spec fn laid_member_pos(i: nat, pairs: Seq<(Seq<char>, JsonV)>, w: Seq<char>, k: nat) -> nat {
    if k == 0 {
        i + 1
    } else {
        i + 1 + w.len() + laid_members(pairs, k, w).len() + w.len() + 1
    }
}

#[verifier::rlimit(80)]
#[verifier::spinoff_prover]
proof fn lemma_laid_members_start(cs: Seq<char>, i: nat, pairs: Seq<(Seq<char>, JsonV)>, w: Seq<char>, k: nat)
    requires
        holds_at(cs, i, laid(JsonV::Obj(pairs), w)),
        k < pairs.len(),
    ensures
        ({
            let pos = laid_member_pos(i, pairs, w, k);
            let q = pos + w.len();
            let qk = json_quote(pairs[k as int].0);
            let c = q + qk.len() + w.len();
            let s = c + 1 + w.len();
            let pk = laid(pairs[k as int].1, w);
            let e = s + pk.len();
            &&& holds_at(cs, pos, w)
            &&& holds_at(cs, q, qk)
            &&& holds_at(cs, q + qk.len(), w)
            &&& cs[c as int] == ':'
            &&& holds_at(cs, c + 1, w)
            &&& holds_at(cs, s, pk)
            &&& holds_at(cs, e, w)
            &&& e + w.len() < cs.len()
            &&& (k + 1 < pairs.len() ==> cs[(e + w.len()) as int] == ','
                && laid_member_pos(i, pairs, w, k + 1) == e + w.len() + 1)
            &&& (k + 1 == pairs.len() ==> cs[(e + w.len()) as int] == '}' && i + laid(
                JsonV::Obj(pairs),
                w,
            ).len() == e + w.len() + 1)
        }),
{
    let lm = laid_members(pairs, k, w);
    let sep: Seq<char> = if k > 0 {
        w + seq![','] + w
    } else {
        Seq::empty()
    };
    let qk = json_quote(pairs[k as int].0);
    let pk = laid(pairs[k as int].1, w);
    let r = lemma_laid_members_extends(pairs, k + 1, pairs.len(), w);
    assert(laid_members(pairs, k + 1, w) == lm + sep + qk + w + seq![':'] + w + pk);
    let rest = r + w + seq!['}'];
    let whole = laid(JsonV::Obj(pairs), w);
    let head = seq!['{'] + w + lm;
    assert(whole =~= (head + sep) + (qk + (w + (seq![':'] + (w + (pk + rest))))));
    lemma_holds_split(cs, i, head + sep, qk + (w + (seq![':'] + (w + (pk + rest)))));
    let pos = laid_member_pos(i, pairs, w, k);
    let q = pos + w.len();
    let c = q + qk.len() + w.len();
    let s = c + 1 + w.len();
    let e = s + pk.len();
    if k > 0 {
        assert(head + sep =~= (head + (w + seq![','])) + w);
        lemma_holds_split(cs, i, head + (w + seq![',']), w);
    } else {
        assert(head + sep =~= seq!['{'] + w);
        lemma_holds_split(cs, i, seq!['{'], w);
    }
    lemma_holds_split(cs, q, qk, w + (seq![':'] + (w + (pk + rest))));
    lemma_holds_split(cs, q + qk.len(), w, seq![':'] + (w + (pk + rest)));
    lemma_holds_split(cs, c, seq![':'], w + (pk + rest));
    lemma_holds_index(cs, c, seq![':'], 0);
    lemma_holds_split(cs, c + 1, w, pk + rest);
    lemma_holds_split(cs, s, pk, rest);
    if k + 1 < pairs.len() {
        assert(rest.take(w.len() + 1int) =~= w + seq![',']);
        assert(rest =~= (w + seq![','] ) + rest.skip(w.len() + 1int));
        lemma_holds_split(cs, e, w + seq![','], rest.skip(w.len() + 1int));
        lemma_holds_split(cs, e, w, seq![',']);
        lemma_holds_index(cs, e + w.len(), seq![','], 0);
    } else {
        assert(r.len() == 0);
        assert(rest =~= w + seq!['}']);
        lemma_holds_split(cs, e, w, seq!['}']);
        lemma_holds_index(cs, e + w.len(), seq!['}'], 0);
    }
}

/// Members `k..` of an object printed with `w` parse back into the object.
#[verifier::spinoff_prover]
#[verifier::rlimit(40)]
proof fn lemma_laid_members_parse(cs: Seq<char>, i: nat, pairs: Seq<(Seq<char>, JsonV)>, w: Seq<char>, k: nat)
    requires
        holds_at(cs, i, laid(JsonV::Obj(pairs), w)),
        k < pairs.len(),
        pairs_ok(pairs, pairs.len()),
        ws_text(w),
    ensures
        p_members(cs, laid_member_pos(i, pairs, w, k), pairs.take(k as int)) == Ok::<
            (JsonV, nat),
            Seq<char>,
        >((JsonV::Obj(pairs), i + laid(JsonV::Obj(pairs), w).len())),
    decreases pairs, pairs.len() - k,
{
    let pos = laid_member_pos(i, pairs, w, k);
    let q = pos + w.len();
    let key = pairs[k as int].0;
    let val = pairs[k as int].1;
    let qk = json_quote(key);
    let c = q + qk.len() + w.len();
    let s = c + 1 + w.len();
    let pk = laid(val, w);
    let e = s + pk.len();
    lemma_laid_members_start(cs, i, pairs, w, k);
    lemma_pairs_ok_index(pairs, pairs.len(), k as int);
    lemma_laid_first(val, w);
    lemma_holds_index(cs, q, qk, 0);
    assert(qk[0] == '"');
    lemma_ws_block(cs, pos, w);
    lemma_string_parses(cs, q, key);
    lemma_ws_block(cs, q + qk.len(), w);
    lemma_holds_index(cs, s, pk, 0);
    lemma_ws_block(cs, c + 1, w);
    assert(skip_ws(cs, s) == s);
    lemma_p_value_from_ws(cs, c + 1, s);
    if w.len() > 0 {
        lemma_holds_index(cs, e, w, 0);
    }
    lemma_laid_value_parses(cs, s, val, w);
    lemma_ws_block(cs, e, w);
    assert(pairs.take(k as int).push((key, val)) == pairs.take(k as int + 1));
    if k + 1 < pairs.len() {
        lemma_laid_members_parse(cs, i, pairs, w, k + 1);
    } else {
        assert(pairs.take(k as int + 1) == pairs);
    }
}

/// A value printed with `w` between its tokens parses back, wherever it
/// stands, when what follows cannot continue a number.
#[verifier::rlimit(60)]
#[verifier::spinoff_prover]
proof fn lemma_laid_value_parses(cs: Seq<char>, i: nat, v: JsonV, w: Seq<char>)
    requires
        well_formed(v),
        ws_text(w),
        holds_at(cs, i, laid(v, w)),
        i + laid(v, w).len() < cs.len() ==> !num_char(cs[(i + laid(v, w).len()) as int]),
    ensures
        p_value(cs, i) == Ok::<(JsonV, nat), Seq<char>>((v, i + laid(v, w).len())),
    decreases v, 0nat,
{
    let pv = laid(v, w);
    lemma_laid_first(v, w);
    lemma_holds_index(cs, i, pv, 0);
    assert(skip_ws(cs, i) == i);
    match v {
        JsonV::Null => {
            reveal_strlit("null");
            assert("null"@ =~= seq!['n', 'u', 'l', 'l']);
            assert(starts_with_at(cs, i, "null"@));
        },
        JsonV::Bool(b) => {
            reveal_strlit("true");
            reveal_strlit("false");
            assert("true"@ =~= seq!['t', 'r', 'u', 'e']);
            assert("false"@ =~= seq!['f', 'a', 'l', 's', 'e']);
            if b {
                assert(starts_with_at(cs, i, "true"@));
            } else {
                assert(!starts_with_at(cs, i, "true"@)) by {
                    if starts_with_at(cs, i, "true"@) {
                        assert(cs.subrange(i as int, i + 4int)[0] == cs[i as int]);
                    }
                }
                assert(starts_with_at(cs, i, "false"@));
            }
        },
        JsonV::Num(n) => {
            let start = if cs[i as int] == '-' {
                i + 1
            } else {
                i
            };
            lemma_number_run(cs, i, n, start);
        },
        JsonV::Str(s) => {
            lemma_string_parses(cs, i, s);
        },
        JsonV::Arr(items) => {
            if items.len() == 0 {
                assert(pv =~= seq!['['] + (w + w) + seq![']']);
                lemma_holds_split(cs, i, seq!['['] + (w + w), seq![']']);
                lemma_holds_split(cs, i, seq!['['], w + w);
                lemma_holds_index(cs, i + 1 + 2 * w.len(), seq![']'], 0);
                assert(ws_text(w + w));
                lemma_ws_block(cs, i + 1, w + w);
                assert(items =~= Seq::<JsonV>::empty());
            } else {
                lemma_laid_elems_start(cs, i, items, w, 0);
                lemma_items_ok_index(items, items.len(), 0);
                lemma_laid_first(items[0], w);
                lemma_holds_index(cs, i + 1 + w.len(), laid(items[0], w), 0);
                lemma_ws_block(cs, i + 1, w);
                lemma_laid_elems_parse(cs, i, items, w, 0);
                assert(items.take(0) =~= Seq::<JsonV>::empty());
            }
        },
        JsonV::Obj(pairs) => {
            if pairs.len() == 0 {
                assert(pv =~= seq!['{'] + (w + w) + seq!['}']);
                lemma_holds_split(cs, i, seq!['{'] + (w + w), seq!['}']);
                lemma_holds_split(cs, i, seq!['{'], w + w);
                lemma_holds_index(cs, i + 1 + 2 * w.len(), seq!['}'], 0);
                assert(ws_text(w + w));
                lemma_ws_block(cs, i + 1, w + w);
                assert(pairs =~= Seq::<(Seq<char>, JsonV)>::empty());
            } else {
                lemma_laid_members_start(cs, i, pairs, w, 0);
                let qk = json_quote(pairs[0].0);
                lemma_holds_index(cs, i + 1 + w.len(), qk, 0);
                assert(qk[0] == '"');
                lemma_ws_block(cs, i + 1, w);
                lemma_laid_members_parse(cs, i, pairs, w, 0);
                assert(pairs.take(0) =~= Seq::<(Seq<char>, JsonV)>::empty());
            }
        },
    }
}

/// JSON whitespace (space, tab, line feed, carriage return) between tokens
/// changes nothing: a well-formed value printed with the same run `w` of
/// such characters after each opening bracket, around each comma and colon,
/// before each closing bracket and around the whole document parses to the
/// same value as its compact text, whatever `w` is.
#[verifier::rlimit(60)]
#[verifier::spinoff_prover]
pub proof fn lemma_whitespace_between_tokens(v: JsonV, w: Seq<char>)
    requires
        well_formed(v),
        ws_text(w),
    ensures
        parse_doc(w + laid(v, w) + w) == Ok::<JsonV, Seq<char>>(v),
        parse_doc(w + laid(v, w) + w) == parse_doc(compact(v)),
{
    let pv = laid(v, w);
    let cs = w + pv + w;
    assert(cs.subrange(w.len() as int, (w.len() + pv.len()) as int) =~= pv);
    assert(cs.subrange(0, w.len() as int) =~= w);
    assert(cs.subrange((w.len() + pv.len()) as int, cs.len() as int) =~= w);
    lemma_laid_first(v, w);
    assert(cs[w.len() as int] == pv[0]);
    lemma_ws_block(cs, 0, w);
    assert(skip_ws(cs, w.len()) == w.len());
    lemma_p_value_from_ws(cs, 0, w.len());
    if w.len() > 0 {
        assert(cs[(w.len() + pv.len()) as int] == w[0]);
    }
    lemma_laid_value_parses(cs, w.len(), v, w);
    lemma_ws_block(cs, w.len() + pv.len(), w);
    lemma_compact_parses_back(v);
}

} // verus!
