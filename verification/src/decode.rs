//! Decoding of wire frames, and the proof that decoding inverts encoding.
//! The parser is specified index-wise over character sequences; the
//! executable decoder follows it exactly.
use vstd::prelude::*;

use crate::json::{dec_digit, dec_digits, hex_digit, is_ctrl, json_escape, json_escape_char,
    json_int, json_string};

verus! {

/// `w` stands character for character in `s` at position `i`.
pub open spec fn matches_at(s: Seq<char>, i: int, w: Seq<char>) -> bool {
    &&& 0 <= i
    &&& i + w.len() <= s.len()
    &&& forall|k: int| 0 <= k < w.len() ==> s[i + k] == w[k]
}

/// A match of a concatenation is a match of each part in place.
pub proof fn lemma_matches_split(s: Seq<char>, i: int, a: Seq<char>, b: Seq<char>)
    requires
        matches_at(s, i, a + b),
    ensures
        matches_at(s, i, a),
        matches_at(s, i + a.len(), b),
{
    assert forall|k: int| 0 <= k < a.len() implies s[i + k] == a[k] by {
        assert((a + b)[k] == a[k]);
    }
    assert forall|k: int| 0 <= k < b.len() implies s[i + a.len() + k] == b[k] by {
        assert((a + b)[a.len() + k] == b[k]);
    }
}

/// A decimal digit character.
pub open spec fn is_dec_digit(c: char) -> bool {
    48 <= c as u32 <= 57
}

/// Its value.
pub open spec fn dec_val(c: char) -> nat {
    (c as u32 - 48) as nat
}

/// A lower-case hexadecimal digit character.
pub open spec fn is_hex_digit(c: char) -> bool {
    is_dec_digit(c) || (97 <= c as u32 <= 102)
}

/// Its value.
pub open spec fn hex_val(c: char) -> nat {
    if is_dec_digit(c) {
        dec_val(c)
    } else {
        (c as u32 - 87) as nat
    }
}

pub proof fn lemma_dec_digit_val(n: int)
    requires
        0 <= n < 10,
    ensures
        is_dec_digit(dec_digit(n)),
        dec_val(dec_digit(n)) == n,
        !(dec_digit(n) == '"'),
        !(dec_digit(n) == '\\'),
        !is_ctrl(dec_digit(n)),
        !(dec_digit(n) == '-'),
{
}

pub proof fn lemma_hex_digit_val(n: int)
    requires
        0 <= n < 16,
    ensures
        is_hex_digit(hex_digit(n)),
        hex_val(hex_digit(n)) == n,
{
}

/// The body of a JSON string from position `i` up to and including its
/// closing quote: the unescaped characters and the position after the quote.
pub open spec fn p_str_body(s: Seq<char>, i: int) -> Option<(Seq<char>, int)>
    decreases s.len() - i,
    when 0 <= i <= s.len()
{
    if i == s.len() {
        None
    } else if s[i] == '"' {
        Some((Seq::empty(), i + 1))
    } else if s[i] == '\\' {
        if i + 1 < s.len() && (s[i + 1] == '"' || s[i + 1] == '\\') {
            match p_str_body(s, i + 2) {
                Some((t, j)) => Some((seq![s[i + 1]] + t, j)),
                None => None,
            }
        } else if i + 5 < s.len() && s[i + 1] == 'u' && s[i + 2] == '0' && s[i + 3] == '0'
            && is_hex_digit(s[i + 4]) && is_hex_digit(s[i + 5]) && 16 * hex_val(s[i + 4]) + hex_val(
            s[i + 5],
        ) < 32 {
            let c = ((16 * hex_val(s[i + 4]) + hex_val(s[i + 5])) as u32) as char;
            match p_str_body(s, i + 6) {
                Some((t, j)) => Some((seq![c] + t, j)),
                None => None,
            }
        } else {
            None
        }
    } else {
        match p_str_body(s, i + 1) {
            Some((t, j)) => Some((seq![s[i]] + t, j)),
            None => None,
        }
    }
}

/// A JSON string: an opening quote, then its body.
pub open spec fn p_string(s: Seq<char>, i: int) -> Option<(Seq<char>, int)> {
    if 0 <= i < s.len() && s[i] == '"' {
        p_str_body(s, i + 1)
    } else {
        None
    }
}

/// Parsing inverts escaping: at the escaped body of `x` followed by a quote,
/// the body parser returns `x` and stops after the quote.
pub proof fn lemma_p_str_body_roundtrip(x: Seq<char>, s: Seq<char>, i: int)
    requires
        matches_at(s, i, json_escape(x) + seq!['"']),
    ensures
        p_str_body(s, i) == Some((x, i + json_escape(x).len() + 1)),
    decreases x.len(),
{
    let e = json_escape(x);
    if x.len() == 0 {
        assert(s[i] == (e + seq!['"'])[0]);
        assert(s[i] == '"');
    } else {
        let c = x[0];
        let x1 = x.drop_first();
        let e0 = json_escape_char(c);
        let e1 = json_escape(x1);
        assert(e == e0 + e1);
        assert((e0 + e1) + seq!['"'] =~= e0 + (e1 + seq!['"']));
        lemma_matches_split(s, i, e0, e1 + seq!['"']);
        assert(matches_at(s, i + e0.len(), e1 + seq!['"']));
        lemma_p_str_body_roundtrip(x1, s, i + e0.len());
        if c == '"' {
            assert(s[i] == e0[0] && s[i + 1] == e0[1]);
            assert(s[i] == '\\' && s[i + 1] == '"');
            assert(p_str_body(s, i) == Some((seq![s[i + 1]] + x1, i + e.len() + 1)));
            assert(seq![s[i + 1]] + x1 =~= x);
        } else if c == '\\' {
            assert(s[i] == '\\' && s[i + 1] == '\\');
            assert(p_str_body(s, i) == Some((seq![s[i + 1]] + x1, i + e.len() + 1)));
            assert(seq![s[i + 1]] + x1 =~= x);
        } else if is_ctrl(c) {
            let cu = c as u32;
            assert(s[i] == e0[0] && s[i + 1] == e0[1] && s[i + 2] == e0[2] && s[i + 3] == e0[3]
                && s[i + 4] == e0[4] && s[i + 5] == e0[5]);
            lemma_hex_digit_val(cu as int / 16);
            lemma_hex_digit_val(cu as int % 16);
            assert(16 * hex_val(s[i + 4]) + hex_val(s[i + 5]) == cu);
            assert((16 * hex_val(s[i + 4]) + hex_val(s[i + 5])) as u32 == cu);
            vstd::utf8::char_u32_cast(c, cu);
            assert(p_str_body(s, i) == Some((seq![c] + x1, i + e.len() + 1)));
            assert(seq![c] + x1 =~= x);
        } else {
            assert(s[i] == e0[0]);
            assert(s[i] == c);
            assert(p_str_body(s, i) == Some((seq![s[i]] + x1, i + e.len() + 1)));
            assert(seq![s[i]] + x1 =~= x);
        }
    }
}

/// Parsing inverts quoting: at the JSON string of `x`, the string parser
/// returns `x` and stops after the closing quote.
pub proof fn lemma_p_string_roundtrip(x: Seq<char>, s: Seq<char>, i: int)
    requires
        matches_at(s, i, json_string(x)),
    ensures
        p_string(s, i) == Some((x, i + json_string(x).len())),
{
    let w = json_string(x);
    assert(w =~= seq!['"'] + (json_escape(x) + seq!['"']));
    lemma_matches_split(s, i, seq!['"'], json_escape(x) + seq!['"']);
    assert(s[i + 0] == seq!['"'][0]);
    assert(s[i] == '"');
    lemma_p_str_body_roundtrip(x, s, i + 1);
}

/// The end of the run of decimal digits starting at `i`.
pub open spec fn digit_run_end(s: Seq<char>, i: int) -> int
    decreases s.len() - i,
    when 0 <= i <= s.len()
{
    if i < s.len() && is_dec_digit(s[i]) {
        digit_run_end(s, i + 1)
    } else {
        i
    }
}

pub proof fn lemma_digit_run(s: Seq<char>, i: int, e: int)
    requires
        0 <= i <= e <= s.len(),
        forall|k: int| i <= k < e ==> is_dec_digit(#[trigger] s[k]),
        e == s.len() || !is_dec_digit(s[e]),
    ensures
        digit_run_end(s, i) == e,
    decreases e - i,
{
    if i < e {
        lemma_digit_run(s, i + 1, e);
    }
}

/// The value of a run of decimal digits, most significant first.
pub open spec fn digits_val(ds: Seq<char>) -> nat
    decreases ds.len(),
{
    if ds.len() == 0 {
        0
    } else {
        digits_val(ds.drop_last()) * 10 + dec_val(ds.last())
    }
}

/// Every character `dec_digits` produces is a decimal digit.
pub proof fn lemma_dec_digits_are_digits(n: nat)
    ensures
        dec_digits(n).len() >= 1,
        forall|k: int| 0 <= k < dec_digits(n).len() ==> is_dec_digit(#[trigger] dec_digits(n)[k]),
    decreases n,
{
    if n < 10 {
        lemma_dec_digit_val(n as int);
    } else {
        lemma_dec_digits_are_digits(n / 10);
        lemma_dec_digit_val((n % 10) as int);
        assert forall|k: int| 0 <= k < dec_digits(n).len() implies is_dec_digit(
            #[trigger] dec_digits(n)[k],
        ) by {
            if k < dec_digits(n / 10).len() {
                assert(dec_digits(n)[k] == dec_digits(n / 10)[k]);
            } else {
                assert(dec_digits(n)[k] == dec_digit((n % 10) as int));
            }
        }
    }
}

/// Reading the digits of `n` back gives `n`.
pub proof fn lemma_digits_val_of_dec_digits(n: nat)
    ensures
        digits_val(dec_digits(n)) == n,
    decreases n,
{
    if n < 10 {
        lemma_dec_digit_val(n as int);
        assert(dec_digits(n).drop_last() =~= Seq::<char>::empty());
        assert(digits_val(Seq::<char>::empty()) == 0);
        assert(dec_digits(n).last() == dec_digit(n as int));
    } else {
        lemma_digits_val_of_dec_digits(n / 10);
        lemma_dec_digit_val((n % 10) as int);
        assert(dec_digits(n).drop_last() =~= dec_digits(n / 10));
        assert(dec_digits(n).last() == dec_digit((n % 10) as int));
    }
}

/// A natural number: the longest digit run, which must not be empty.
pub open spec fn p_nat(s: Seq<char>, i: int) -> Option<(nat, int)> {
    if 0 <= i <= s.len() {
        let e = digit_run_end(s, i);
        if e == i {
            None
        } else {
            Some((digits_val(s.subrange(i, e)), e))
        }
    } else {
        None
    }
}

/// Parsing inverts digit rendering, given that no digit follows.
pub proof fn lemma_p_nat_roundtrip(n: nat, s: Seq<char>, i: int)
    requires
        matches_at(s, i, dec_digits(n)),
        i + dec_digits(n).len() == s.len() || !is_dec_digit(s[i + dec_digits(n).len()]),
    ensures
        p_nat(s, i) == Some((n, i + dec_digits(n).len())),
{
    let d = dec_digits(n);
    lemma_dec_digits_are_digits(n);
    assert forall|k: int| i <= k < i + d.len() implies is_dec_digit(#[trigger] s[k]) by {
        assert(s[i + (k - i)] == d[k - i]);
    }
    lemma_digit_run(s, i, i + d.len());
    assert(s.subrange(i, i + d.len()) =~= d);
    lemma_digits_val_of_dec_digits(n);
}

/// An integer: an optional minus sign, then a digit run.
pub open spec fn p_int(s: Seq<char>, i: int) -> Option<(int, int)> {
    if 0 <= i < s.len() && s[i] == '-' {
        match p_nat(s, i + 1) {
            Some((n, j)) => Some((-(n as int), j)),
            None => None,
        }
    } else {
        match p_nat(s, i) {
            Some((n, j)) => Some((n as int, j)),
            None => None,
        }
    }
}

/// An integer within the signed 64-bit range.
pub open spec fn p_i64(s: Seq<char>, i: int) -> Option<(i64, int)> {
    match p_int(s, i) {
        Some((v, j)) => if i64::MIN <= v <= i64::MAX {
            Some((v as i64, j))
        } else {
            None
        },
        None => None,
    }
}

/// Parsing inverts integer rendering, given that no digit follows.
pub proof fn lemma_p_i64_roundtrip(v: i64, s: Seq<char>, i: int)
    requires
        matches_at(s, i, json_int(v as int)),
        i + json_int(v as int).len() == s.len() || !is_dec_digit(s[i + json_int(v as int).len()]),
    ensures
        p_i64(s, i) == Some((v, i + json_int(v as int).len())),
{
    let w = json_int(v as int);
    if v < 0 {
        let n = (-(v as int)) as nat;
        assert(w == seq!['-'] + dec_digits(n));
        lemma_matches_split(s, i, seq!['-'], dec_digits(n));
        assert(s[i + 0] == seq!['-'][0]);
        assert(s[i] == '-');
        lemma_p_nat_roundtrip(n, s, i + 1);
        lemma_dec_digits_are_digits(n);
    } else {
        let n = v as nat;
        assert(w == dec_digits(n));
        lemma_dec_digits_are_digits(n);
        assert(s[i + 0] == w[0]);
        assert(!(s[i] == '-'));
        lemma_p_nat_roundtrip(n, s, i);
    }
}

/// An optional string: `null`, or a JSON string.
pub open spec fn p_opt_string(s: Seq<char>, i: int) -> Option<(Option<Seq<char>>, int)> {
    if matches_at(s, i, "null"@) {
        Some((None, i + "null"@.len()))
    } else {
        match p_string(s, i) {
            Some((x, j)) => Some((Some(x), j)),
            None => None,
        }
    }
}

/// Parsing inverts optional-string rendering.
pub proof fn lemma_p_opt_string_roundtrip(o: Option<Seq<char>>, s: Seq<char>, i: int)
    requires
        matches_at(s, i, json_opt_string(o)),
    ensures
        p_opt_string(s, i) == Some((o, i + json_opt_string(o).len())),
{
    match o {
        None => {
        },
        Some(x) => {
            assert(!matches_at(s, i, "null"@)) by {
                reveal_strlit("null");
                if matches_at(s, i, "null"@) {
                    assert(s[i + 0] == "null"@[0]);
                    assert(s[i + 0] == json_string(x)[0]);
                    assert(json_string(x)[0] == '"');
                }
            }
            lemma_p_string_roundtrip(x, s, i);
        },
    }
}

use crate::codec::{frame_of, json_history, json_history_items, json_msg, json_paste,
    json_user_msg};
use crate::json::json_opt_string;
use crate::msg::{MsgV, PasteV, UserMsgV};

/// The JSON object of one chat message.
pub open spec fn p_user_msg(s: Seq<char>, i: int) -> Option<(UserMsgV, int)> {
    if !matches_at(s, i, "{\"nick\":"@) {
        None
    } else {
        match p_string(s, i + "{\"nick\":"@.len()) {
            Some((nick, j1)) => if !matches_at(s, j1, ",\"custom_nick_color\":"@) {
                None
            } else {
                match p_opt_string(s, j1 + ",\"custom_nick_color\":"@.len()) {
                    Some((color, j2)) => if !matches_at(s, j2, ",\"msg\":"@) {
                        None
                    } else {
                        match p_string(s, j2 + ",\"msg\":"@.len()) {
                            Some((body, j3)) => if !matches_at(s, j3, ",\"time\":\""@) {
                                None
                            } else {
                                match p_datetime(s, j3 + ",\"time\":\""@.len()) {
                                    Some((t, j4)) => if matches_at(s, j4, "\"}"@) {
                                        Some(
                                            (
                                                UserMsgV {
                                                    nick: nick,
                                                    custom_nick_color: color,
                                                    msg: body,
                                                    time: t,
                                                },
                                                j4 + "\"}"@.len(),
                                            ),
                                        )
                                    } else {
                                        None
                                    },
                                    None => None,
                                }
                            },
                            None => None,
                        }
                    },
                    None => None,
                }
            },
            None => None,
        }
    }
}

/// Parsing inverts the rendering of one chat message.
pub proof fn lemma_p_user_msg_roundtrip(m: UserMsgV, s: Seq<char>, i: int)
    requires
        matches_at(s, i, json_user_msg(m)),
    ensures
        p_user_msg(s, i) == Some((m, i + json_user_msg(m).len())),
        i + json_user_msg(m).len() > i,
{
    let l1 = "{\"nick\":"@;
    let w1 = json_string(m.nick);
    let l2 = ",\"custom_nick_color\":"@;
    let w2 = json_opt_string(m.custom_nick_color);
    let l3 = ",\"msg\":"@;
    let w3 = json_string(m.msg);
    let l4 = ",\"time\":\""@;
    let w4 = rfc3339_of(m.time);
    let l5 = "\"}"@;
    let whole = json_user_msg(m);
    assert(whole =~= l1 + (w1 + (l2 + (w2 + (l3 + (w3 + (l4 + (w4 + l5)))))))); 
    lemma_matches_split(s, i, l1, w1 + (l2 + (w2 + (l3 + (w3 + (l4 + (w4 + l5)))))));
    let i1 = i + l1.len();
    lemma_matches_split(s, i1, w1, l2 + (w2 + (l3 + (w3 + (l4 + (w4 + l5))))));
    lemma_p_string_roundtrip(m.nick, s, i1);
    let j1 = i1 + w1.len();
    lemma_matches_split(s, j1, l2, w2 + (l3 + (w3 + (l4 + (w4 + l5)))));
    let i2 = j1 + l2.len();
    lemma_matches_split(s, i2, w2, l3 + (w3 + (l4 + (w4 + l5))));
    lemma_p_opt_string_roundtrip(m.custom_nick_color, s, i2);
    let j2 = i2 + w2.len();
    lemma_matches_split(s, j2, l3, w3 + (l4 + (w4 + l5)));
    let i3 = j2 + l3.len();
    lemma_matches_split(s, i3, w3, l4 + (w4 + l5));
    lemma_p_string_roundtrip(m.msg, s, i3);
    let j3 = i3 + w3.len();
    lemma_matches_split(s, j3, l4, w4 + l5);
    let i4 = j3 + l4.len();
    lemma_matches_split(s, i4, w4, l5);
    let j4 = i4 + w4.len();
    lemma_p_datetime_roundtrip(m.time, s, i4);
    reveal_strlit("{\"nick\":");
    assert(p_user_msg(s, i) == Some((m, i + whole.len())));
}

/// The comma-separated items of a history array, up to and including the
/// closing bracket.
pub open spec fn p_history_items(s: Seq<char>, i: int) -> Option<(Seq<UserMsgV>, int)>
    decreases s.len() - i,
    when 0 <= i <= s.len()
{
    match p_user_msg(s, i) {
        Some((m, j)) => if !(i < j && j <= s.len()) {
            None
        } else if j < s.len() && s[j] == ',' {
            match p_history_items(s, j + 1) {
                Some((rest, k)) => Some((seq![m] + rest, k)),
                None => None,
            }
        } else if j < s.len() && s[j] == ']' {
            Some((seq![m], j + 1))
        } else {
            None
        },
        None => None,
    }
}

/// A history array.
pub open spec fn p_history(s: Seq<char>, i: int) -> Option<(Seq<UserMsgV>, int)> {
    if matches_at(s, i, "[]"@) {
        Some((Seq::empty(), i + "[]"@.len()))
    } else if 0 <= i < s.len() && s[i] == '[' {
        p_history_items(s, i + 1)
    } else {
        None
    }
}

/// Parsing inverts the rendering of one or more history items followed by
/// the closing bracket.
pub proof fn lemma_p_history_items_roundtrip(h: Seq<UserMsgV>, s: Seq<char>, i: int)
    requires
        h.len() >= 1,
        matches_at(s, i, json_history_items(h) + seq![']']),
    ensures
        p_history_items(s, i) == Some((h, i + json_history_items(h).len() + 1)),
    decreases h.len(),
{
    if h.len() == 1 {
        let w = json_user_msg(h[0]);
        assert(json_history_items(h) == w);
        lemma_matches_split(s, i, w, seq![']']);
        lemma_p_user_msg_roundtrip(h[0], s, i);
        let j = i + w.len();
        assert(matches_at(s, j, seq![']']));
        assert(s[j + 0] == seq![']'][0]);
        assert(s[j] == ']');
        assert(!(s[j] == ','));
        assert(seq![h[0]] =~= h);
    } else {
        let w = json_user_msg(h[0]);
        let rest = json_history_items(h.drop_first());
        assert(json_history_items(h) == w + ","@ + rest);
        assert(json_history_items(h) + seq![']'] =~= w + (","@ + (rest + seq![']'])));
        lemma_matches_split(s, i, w, ","@ + (rest + seq![']']));
        lemma_p_user_msg_roundtrip(h[0], s, i);
        let j = i + w.len();
        lemma_matches_split(s, j, ","@, rest + seq![']']);
        assert(s[j] == ',') by {
            reveal_strlit(",");
            assert(s[j + 0] == ","@[0]);
        }
        reveal_strlit(",");
        lemma_p_history_items_roundtrip(h.drop_first(), s, j + ","@.len());
        assert(seq![h[0]] + h.drop_first() =~= h);
        assert(p_history_items(s, i) == Some((h, i + json_history_items(h).len() + 1)));
    }
}

/// Parsing inverts the rendering of a history array.
pub proof fn lemma_p_history_roundtrip(h: Seq<UserMsgV>, s: Seq<char>, i: int)
    requires
        matches_at(s, i, json_history(h)),
    ensures
        p_history(s, i) == Some((h, i + json_history(h).len())),
{
    let whole = json_history(h);
    assert(whole =~= "["@ + (json_history_items(h) + "]"@));
    lemma_matches_split(s, i, "["@, json_history_items(h) + "]"@);
    if h.len() == 0 {
        assert(json_history_items(h) == Seq::<char>::empty());
        assert(whole =~= "["@ + "]"@);
        assert(matches_at(s, i, "[]"@)) by {
            reveal_strlit("[");
            reveal_strlit("]");
            reveal_strlit("[]");
            assert("[]"@ =~= "["@ + "]"@);
        }
        reveal_strlit("[");
        reveal_strlit("]");
        reveal_strlit("[]");
        assert(Seq::<UserMsgV>::empty() =~= h);
    } else {
        assert(!matches_at(s, i, "[]"@)) by {
            reveal_strlit("[]");
            reveal_strlit("{\"nick\":");
            if matches_at(s, i, "[]"@) {
                assert(s[i + 1] == "[]"@[1]);
                let tail = json_history_items(h) + "]"@;
                assert(matches_at(s, i + "["@.len(), tail));
                reveal_strlit("[");
                assert(s[i + "["@.len() as int + 0] == tail[0]);
                assert(json_history_items(h)[0] == json_user_msg(h[0])[0]);
                assert(json_user_msg(h[0])[0] == '{');
            }
        }
        assert(s[i] == '[') by {
            reveal_strlit("[");
            assert(s[i + 0] == "["@[0]);
        }
        reveal_strlit("[");
        reveal_strlit("]");
        assert(json_history_items(h) + "]"@ =~= json_history_items(h) + seq![']']);
        lemma_p_history_items_roundtrip(h, s, i + 1);
    }
}

/// The JSON object of a paste.
pub open spec fn p_paste(s: Seq<char>, i: int) -> Option<(PasteV, int)> {
    if !matches_at(s, i, "{\"id\":"@) {
        None
    } else {
        match p_i64(s, i + "{\"id\":"@.len()) {
            Some((id, j1)) => if !matches_at(s, j1, ",\"filename\":"@) {
                None
            } else {
                match p_opt_string(s, j1 + ",\"filename\":"@.len()) {
                    Some((fname, j2)) => if !matches_at(s, j2, ",\"content\":"@) {
                        None
                    } else {
                        match p_opt_string(s, j2 + ",\"content\":"@.len()) {
                            Some((content, j3)) => if !matches_at(s, j3, ",\"creation_date\":\""@) {
                                None
                            } else {
                                match p_datetime(s, j3 + ",\"creation_date\":\""@.len()) {
                                    Some((cd, j4)) => if matches_at(s, j4, "\"}"@) {
                                        Some(
                                            (
                                                PasteV {
                                                    id: id,
                                                    filename: fname,
                                                    content: content,
                                                    creation_date: cd,
                                                },
                                                j4 + "\"}"@.len(),
                                            ),
                                        )
                                    } else {
                                        None
                                    },
                                    None => None,
                                }
                            },
                            None => None,
                        }
                    },
                    None => None,
                }
            },
            None => None,
        }
    }
}

/// Parsing inverts the rendering of a paste.
pub proof fn lemma_p_paste_roundtrip(p: PasteV, s: Seq<char>, i: int)
    requires
        matches_at(s, i, json_paste(p)),
    ensures
        p_paste(s, i) == Some((p, i + json_paste(p).len())),
{
    let l1 = "{\"id\":"@;
    let w1 = json_int(p.id as int);
    let l2 = ",\"filename\":"@;
    let w2 = json_opt_string(p.filename);
    let l3 = ",\"content\":"@;
    let w3 = json_opt_string(p.content);
    let l4 = ",\"creation_date\":\""@;
    let w4 = rfc3339_of(p.creation_date);
    let l5 = "\"}"@;
    let whole = json_paste(p);
    assert(whole =~= l1 + (w1 + (l2 + (w2 + (l3 + (w3 + (l4 + (w4 + l5)))))))); 
    lemma_matches_split(s, i, l1, w1 + (l2 + (w2 + (l3 + (w3 + (l4 + (w4 + l5)))))));
    let i1 = i + l1.len();
    lemma_matches_split(s, i1, w1, l2 + (w2 + (l3 + (w3 + (l4 + (w4 + l5))))));
    let j1 = i1 + w1.len();
    lemma_matches_split(s, j1, l2, w2 + (l3 + (w3 + (l4 + (w4 + l5)))));
    assert(!is_dec_digit(s[j1])) by {
        reveal_strlit(",\"filename\":");
        assert(s[j1 + 0] == l2[0]);
    }
    lemma_p_i64_roundtrip(p.id, s, i1);
    let i2 = j1 + l2.len();
    lemma_matches_split(s, i2, w2, l3 + (w3 + (l4 + (w4 + l5))));
    lemma_p_opt_string_roundtrip(p.filename, s, i2);
    let j2 = i2 + w2.len();
    lemma_matches_split(s, j2, l3, w3 + (l4 + (w4 + l5)));
    let i3 = j2 + l3.len();
    lemma_matches_split(s, i3, w3, l4 + (w4 + l5));
    lemma_p_opt_string_roundtrip(p.content, s, i3);
    let j3 = i3 + w3.len();
    lemma_matches_split(s, j3, l4, w4 + l5);
    let i4 = j3 + l4.len();
    lemma_matches_split(s, i4, w4, l5);
    let j4 = i4 + w4.len();
    lemma_p_datetime_roundtrip(p.creation_date, s, i4);
    assert(p_paste(s, i) == Some((p, i + whole.len())));
}

/// The JSON object of an envelope: the first type tag that matches decides
/// the variant.
pub open spec fn p_msg(s: Seq<char>, i: int) -> Option<(MsgV, int)> {
    if matches_at(s, i, "{\"type\":\"Ping\"}"@) {
        Some((MsgV::Ping, i + "{\"type\":\"Ping\"}"@.len()))
    } else if matches_at(s, i, "{\"type\":\"Connected\",\"data\":"@) {
        match p_history(s, i + "{\"type\":\"Connected\",\"data\":"@.len()) {
            Some((h, j)) => if matches_at(s, j, "}"@) {
                Some((MsgV::Connected(h), j + "}"@.len()))
            } else {
                None
            },
            None => None,
        }
    } else if matches_at(s, i, "{\"type\":\"Message\",\"data\":"@) {
        match p_user_msg(s, i + "{\"type\":\"Message\",\"data\":"@.len()) {
            Some((m, j)) => if matches_at(s, j, "}"@) {
                Some((MsgV::Message(m), j + "}"@.len()))
            } else {
                None
            },
            None => None,
        }
    } else if matches_at(s, i, "{\"type\":\"Paste\",\"data\":"@) {
        match p_paste(s, i + "{\"type\":\"Paste\",\"data\":"@.len()) {
            Some((p, j)) => if matches_at(s, j, "}"@) {
                Some((MsgV::Paste(p), j + "}"@.len()))
            } else {
                None
            },
            None => None,
        }
    } else if matches_at(s, i, "{\"type\":\"NickChange\",\"data\":"@) {
        match p_string(s, i + "{\"type\":\"NickChange\",\"data\":"@.len()) {
            Some((x, j)) => if matches_at(s, j, "}"@) {
                Some((MsgV::NickChange(x), j + "}"@.len()))
            } else {
                None
            },
            None => None,
        }
    } else if matches_at(s, i, "{\"type\":\"ColorChange\",\"data\":"@) {
        match p_string(s, i + "{\"type\":\"ColorChange\",\"data\":"@.len()) {
            Some((x, j)) => if matches_at(s, j, "}"@) {
                Some((MsgV::ColorChange(x), j + "}"@.len()))
            } else {
                None
            },
            None => None,
        }
    } else {
        None
    }
}

/// Parsing inverts the rendering of an envelope.
#[verifier::rlimit(100)]
pub proof fn lemma_p_msg_roundtrip(m: MsgV, s: Seq<char>, i: int)
    requires
        matches_at(s, i, json_msg(m)),
    ensures
        p_msg(s, i) == Some((m, i + json_msg(m).len())),
{
    reveal_strlit("{\"type\":\"Ping\"}");
    reveal_strlit("{\"type\":\"Connected\",\"data\":");
    reveal_strlit("{\"type\":\"Message\",\"data\":");
    reveal_strlit("{\"type\":\"Paste\",\"data\":");
    reveal_strlit("{\"type\":\"NickChange\",\"data\":");
    reveal_strlit("{\"type\":\"ColorChange\",\"data\":");
    reveal_strlit("}");
    let whole = json_msg(m);
    match m {
        MsgV::Ping => {
            assert(matches_at(s, i, "{\"type\":\"Ping\"}"@));
        },
        MsgV::Connected(h) => {
            let l = "{\"type\":\"Connected\",\"data\":"@;
            let w = json_history(h);
            assert(whole =~= l + (w + "}"@));
            lemma_matches_split(s, i, l, w + "}"@);
            assert(!matches_at(s, i, "{\"type\":\"Ping\"}"@)) by {
                if matches_at(s, i, "{\"type\":\"Ping\"}"@) {
                    assert(s[i + 9] == "{\"type\":\"Ping\"}"@[9]);
                    assert(s[i + 9] == l[9]);
                }
            }
            let i1 = i + l.len();
            lemma_matches_split(s, i1, w, "}"@);
            lemma_p_history_roundtrip(h, s, i1);
            assert(p_msg(s, i) == Some((m, i + whole.len())));
        },
        MsgV::Message(um) => {
            let l = "{\"type\":\"Message\",\"data\":"@;
            let w = json_user_msg(um);
            assert(whole =~= l + (w + "}"@));
            lemma_matches_split(s, i, l, w + "}"@);
            assert(!matches_at(s, i, "{\"type\":\"Ping\"}"@)) by {
                if matches_at(s, i, "{\"type\":\"Ping\"}"@) {
                    assert(s[i + 9] == "{\"type\":\"Ping\"}"@[9]);
                    assert(s[i + 9] == l[9]);
                }
            }
            assert(!matches_at(s, i, "{\"type\":\"Connected\",\"data\":"@)) by {
                if matches_at(s, i, "{\"type\":\"Connected\",\"data\":"@) {
                    assert(s[i + 9] == "{\"type\":\"Connected\",\"data\":"@[9]);
                    assert(s[i + 9] == l[9]);
                }
            }
            let i1 = i + l.len();
            lemma_matches_split(s, i1, w, "}"@);
            lemma_p_user_msg_roundtrip(um, s, i1);
            assert(p_msg(s, i) == Some((m, i + whole.len())));
        },
        MsgV::Paste(p) => {
            let l = "{\"type\":\"Paste\",\"data\":"@;
            let w = json_paste(p);
            assert(whole =~= l + (w + "}"@));
            lemma_matches_split(s, i, l, w + "}"@);
            assert(!matches_at(s, i, "{\"type\":\"Ping\"}"@)) by {
                if matches_at(s, i, "{\"type\":\"Ping\"}"@) {
                    assert(s[i + 10] == "{\"type\":\"Ping\"}"@[10]);
                    assert(s[i + 10] == l[10]);
                }
            }
            assert(!matches_at(s, i, "{\"type\":\"Connected\",\"data\":"@)) by {
                if matches_at(s, i, "{\"type\":\"Connected\",\"data\":"@) {
                    assert(s[i + 9] == "{\"type\":\"Connected\",\"data\":"@[9]);
                    assert(s[i + 9] == l[9]);
                }
            }
            assert(!matches_at(s, i, "{\"type\":\"Message\",\"data\":"@)) by {
                if matches_at(s, i, "{\"type\":\"Message\",\"data\":"@) {
                    assert(s[i + 9] == "{\"type\":\"Message\",\"data\":"@[9]);
                    assert(s[i + 9] == l[9]);
                }
            }
            let i1 = i + l.len();
            lemma_matches_split(s, i1, w, "}"@);
            lemma_p_paste_roundtrip(p, s, i1);
            assert(p_msg(s, i) == Some((m, i + whole.len())));
        },
        MsgV::NickChange(x) => {
            let l = "{\"type\":\"NickChange\",\"data\":"@;
            let w = json_string(x);
            assert(whole =~= l + (w + "}"@));
            lemma_matches_split(s, i, l, w + "}"@);
            assert(!matches_at(s, i, "{\"type\":\"Ping\"}"@)) by {
                if matches_at(s, i, "{\"type\":\"Ping\"}"@) {
                    assert(s[i + 9] == "{\"type\":\"Ping\"}"@[9]);
                    assert(s[i + 9] == l[9]);
                }
            }
            assert(!matches_at(s, i, "{\"type\":\"Connected\",\"data\":"@)) by {
                if matches_at(s, i, "{\"type\":\"Connected\",\"data\":"@) {
                    assert(s[i + 9] == "{\"type\":\"Connected\",\"data\":"@[9]);
                    assert(s[i + 9] == l[9]);
                }
            }
            assert(!matches_at(s, i, "{\"type\":\"Message\",\"data\":"@)) by {
                if matches_at(s, i, "{\"type\":\"Message\",\"data\":"@) {
                    assert(s[i + 9] == "{\"type\":\"Message\",\"data\":"@[9]);
                    assert(s[i + 9] == l[9]);
                }
            }
            assert(!matches_at(s, i, "{\"type\":\"Paste\",\"data\":"@)) by {
                if matches_at(s, i, "{\"type\":\"Paste\",\"data\":"@) {
                    assert(s[i + 9] == "{\"type\":\"Paste\",\"data\":"@[9]);
                    assert(s[i + 9] == l[9]);
                }
            }
            let i1 = i + l.len();
            lemma_matches_split(s, i1, w, "}"@);
            lemma_p_string_roundtrip(x, s, i1);
            assert(p_msg(s, i) == Some((m, i + whole.len())));
        },
        MsgV::ColorChange(x) => {
            let l = "{\"type\":\"ColorChange\",\"data\":"@;
            let w = json_string(x);
            assert(whole =~= l + (w + "}"@));
            lemma_matches_split(s, i, l, w + "}"@);
            assert(!matches_at(s, i, "{\"type\":\"Ping\"}"@)) by {
                if matches_at(s, i, "{\"type\":\"Ping\"}"@) {
                    assert(s[i + 9] == "{\"type\":\"Ping\"}"@[9]);
                    assert(s[i + 9] == l[9]);
                }
            }
            assert(!matches_at(s, i, "{\"type\":\"Connected\",\"data\":"@)) by {
                if matches_at(s, i, "{\"type\":\"Connected\",\"data\":"@) {
                    assert(s[i + 11] == "{\"type\":\"Connected\",\"data\":"@[11]);
                    assert(s[i + 11] == l[11]);
                }
            }
            assert(!matches_at(s, i, "{\"type\":\"Message\",\"data\":"@)) by {
                if matches_at(s, i, "{\"type\":\"Message\",\"data\":"@) {
                    assert(s[i + 9] == "{\"type\":\"Message\",\"data\":"@[9]);
                    assert(s[i + 9] == l[9]);
                }
            }
            assert(!matches_at(s, i, "{\"type\":\"Paste\",\"data\":"@)) by {
                if matches_at(s, i, "{\"type\":\"Paste\",\"data\":"@) {
                    assert(s[i + 9] == "{\"type\":\"Paste\",\"data\":"@[9]);
                    assert(s[i + 9] == l[9]);
                }
            }
            assert(!matches_at(s, i, "{\"type\":\"NickChange\",\"data\":"@)) by {
                if matches_at(s, i, "{\"type\":\"NickChange\",\"data\":"@) {
                    assert(s[i + 9] == "{\"type\":\"NickChange\",\"data\":"@[9]);
                    assert(s[i + 9] == l[9]);
                }
            }
            let i1 = i + l.len();
            lemma_matches_split(s, i1, w, "}"@);
            lemma_p_string_roundtrip(x, s, i1);
            assert(p_msg(s, i) == Some((m, i + whole.len())));
        },
    }
}

/// A whole wire frame: the `data: ` prefix, one envelope, and the two
/// newlines, with nothing left over.
pub open spec fn p_frame(s: Seq<char>) -> Option<MsgV> {
    if matches_at(s, 0, "data: "@) {
        match p_msg(s, "data: "@.len() as int) {
            Some((m, j)) => if j + "\n\n"@.len() == s.len() && matches_at(s, j, "\n\n"@) {
                Some(m)
            } else {
                None
            },
            None => None,
        }
    } else {
        None
    }
}

/// Law: decoding inverts encoding. The wire frame of any envelope parses
/// back to a structurally equal envelope.
pub proof fn lemma_frame_roundtrip(m: MsgV)
    ensures
        p_frame(frame_of(m)) == Some(m),
{
    let s = frame_of(m);
    assert(s =~= "data: "@ + (json_msg(m) + "\n\n"@));
    assert(matches_at(s, 0, s)) by {
        assert forall|k: int| #![trigger s[k]] 0 <= k < s.len() implies s[0 + k] == s[k] by {}
    }
    lemma_matches_split(s, 0, "data: "@, json_msg(m) + "\n\n"@);
    let i1 = "data: "@.len() as int;
    lemma_matches_split(s, i1, json_msg(m), "\n\n"@);
    lemma_p_msg_roundtrip(m, s, i1);
    let j = i1 + json_msg(m).len();
    assert(j + "\n\n"@.len() == s.len());
}


use crate::json::push_char;
use crate::msg::{Msg, Paste, UserMsg};

/// The characters of `s`, one by one.
fn str_to_chars(s: &str) -> (r: Vec<char>)
    ensures
        r@ == s@,
{
    let n = s.unicode_len();
    let mut r: Vec<char> = Vec::new();
    let mut i: usize = 0;
    while i < n
        invariant
            i <= n,
            n == s@.len(),
            r@ =~= s@.subrange(0, i as int),
        decreases n - i,
    {
        r.push(s.get_char(i));
        assert(r@ =~= s@.subrange(0, i as int + 1));
        i = i + 1;
    }
    assert(r@ =~= s@);
    r
}

/// Whether the literal stands at position `i`; on success, the position
/// after it.
fn expect_lit(cs: &Vec<char>, i: usize, lit: &str) -> (r: Option<usize>)
    ensures
        match r {
            Some(j) => matches_at(cs@, i as int, lit@) && j as int == i + lit@.len() && j
                <= cs@.len(),
            None => !matches_at(cs@, i as int, lit@),
        },
{
    let n = lit.unicode_len();
    if i > cs.len() || n > cs.len() - i {
        return None;
    }
    let end: usize = i + n;
    let mut k: usize = 0;
    while k < n
        invariant
            k <= n,
            n == lit@.len(),
            end == i + n,
            i + n <= cs@.len(),
            forall|t: int| 0 <= t < k ==> cs@[i + t] == lit@[t],
        decreases n - k,
    {
        if cs[i + k] != lit.get_char(k) {
            proof {
                assert(cs@[i + k as int] != lit@[k as int]);
            }
            return None;
        }
        k = k + 1;
    }
    Some(i + n)
}

/// The value of a lower-case hexadecimal digit, if the character is one.
fn hex_digit_of(c: char) -> (r: Option<u32>)
    ensures
        match r {
            Some(v) => is_hex_digit(c) && v == hex_val(c) && v < 16,
            None => !is_hex_digit(c),
        },
{
    let u = c as u32;
    if 48 <= u && u <= 57 {
        Some(u - 48)
    } else if 97 <= u && u <= 102 {
        Some(u - 87)
    } else {
        None
    }
}

/// A JSON string starting at `i`: the unescaped text and the position after
/// the closing quote.
fn scan_string(cs: &Vec<char>, i: usize) -> (r: Option<(String, usize)>)
    ensures
        match r {
            Some(p) => p_string(cs@, i as int) == Some((p.0@, p.1 as int)) && i < p.1 && p.1
                <= cs@.len(),
            None => p_string(cs@, i as int) is None,
        },
{
    if i >= cs.len() || cs[i] != '"' {
        return None;
    }
    let ghost i0: int = i as int + 1;
    let mut out = String::new();
    let mut cur: usize = i + 1;
    loop
        invariant
            i0 <= cur as int <= cs@.len(),
            p_str_body(cs@, i0) == (match p_str_body(cs@, cur as int) {
                Some((t, j)) => Some::<(Seq<char>, int)>((out@ + t, j)),
                None => None::<(Seq<char>, int)>,
            }),
            cs@[i as int] == '"',
            i as int + 1 == i0,
        decreases cs@.len() - cur,
    {
        if cur == cs.len() {
            return None;
        }
        let c = cs[cur];
        if c == '"' {
            proof {
                assert(p_str_body(cs@, cur as int) == Some((Seq::<char>::empty(), cur as int + 1)));
                assert(out@ + Seq::<char>::empty() =~= out@);
            }
            return Some((out, cur + 1));
        } else if c == '\\' {
            if cur + 1 < cs.len() && (cs[cur + 1] == '"' || cs[cur + 1] == '\\') {
                let ghost o0 = out@;
                push_char(&mut out, cs[cur + 1]);
                proof {
                    if p_str_body(cs@, cur as int + 2) is Some {
                        let (t, j) = p_str_body(cs@, cur as int + 2).unwrap();
                        assert(o0 + (seq![cs@[cur as int + 1]] + t) =~= out@ + t);
                    }
                }
                cur = cur + 2;
            } else {
                let mut ok = false;
                let mut v: u32 = 0;
                if cs.len() - cur > 5 && cs[cur + 1] == 'u' && cs[cur + 2] == '0' && cs[cur + 3]
                    == '0' {
                    match (hex_digit_of(cs[cur + 4]), hex_digit_of(cs[cur + 5])) {
                        (Some(h1), Some(h2)) => {
                            v = 16 * h1 + h2;
                            if v < 32 {
                                ok = true;
                            }
                        },
                        _ => {},
                    }
                }
                if !ok {
                    proof {
                        assert(p_str_body(cs@, cur as int) is None);
                    }
                    return None;
                }
                let ch = (v as u8) as char;
                proof {
                    assert(ch == ((16 * hex_val(cs@[cur as int + 4]) + hex_val(
                        cs@[cur as int + 5],
                    )) as u32) as char);
                }
                let ghost o0 = out@;
                push_char(&mut out, ch);
                proof {
                    if p_str_body(cs@, cur as int + 6) is Some {
                        let (t, j) = p_str_body(cs@, cur as int + 6).unwrap();
                        assert(o0 + (seq![ch] + t) =~= out@ + t);
                    }
                }
                cur = cur + 6;
            }
        } else {
            let ghost o0 = out@;
            push_char(&mut out, c);
            proof {
                if p_str_body(cs@, cur as int + 1) is Some {
                    let (t, j) = p_str_body(cs@, cur as int + 1).unwrap();
                    assert(o0 + (seq![cs@[cur as int]] + t) =~= out@ + t);
                }
            }
            cur = cur + 1;
        }
    }
}

/// `null` or a JSON string starting at `i`.
fn scan_opt_string(cs: &Vec<char>, i: usize) -> (r: Option<(Option<String>, usize)>)
    ensures
        match r {
            Some(p) => p_opt_string(cs@, i as int) == Some(
                (
                    match p.0 {
                        Some(x) => Some(x@),
                        None => None,
                    },
                    p.1 as int,
                ),
            ) && i < p.1 && p.1 <= cs@.len(),
            None => p_opt_string(cs@, i as int) is None,
        },
{
    match expect_lit(cs, i, "null") {
        Some(j) => {
            proof {
                reveal_strlit("null");
            }
            Some((None, j))
        },
        None => {
            match scan_string(cs, i) {
                Some((x, j)) => Some((Some(x), j)),
                None => None,
            }
        },
    }
}

/// Whether the character is a decimal digit.
fn is_digit_char(c: char) -> (r: bool)
    ensures
        r == is_dec_digit(c),
{
    let u = c as u32;
    48 <= u && u <= 57
}

/// A signed 64-bit integer starting at `i`.
fn scan_i64(cs: &Vec<char>, i: usize) -> (r: Option<(i64, usize)>)
    ensures
        match r {
            Some(p) => p_i64(cs@, i as int) == Some((p.0, p.1 as int)) && i < p.1 && p.1
                <= cs@.len(),
            None => p_i64(cs@, i as int) is None,
        },
{
    if i > cs.len() {
        return None;
    }
    let negative = i < cs.len() && cs[i] == '-';
    let start: usize = if negative {
        i + 1
    } else {
        i
    };
    let mut cur: usize = start;
    let mut acc: Option<u64> = Some(0);
    proof {
        assert(cs@.subrange(start as int, start as int) =~= Seq::<char>::empty());
    }
    while cur < cs.len() && is_digit_char(cs[cur])
        invariant
            start <= cur <= cs@.len(),
            start <= cs@.len(),
            forall|k: int| start <= k < cur ==> is_dec_digit(#[trigger] cs@[k]),
            match acc {
                Some(v) => v as nat == digits_val(cs@.subrange(start as int, cur as int)),
                None => digits_val(cs@.subrange(start as int, cur as int)) > u64::MAX,
            },
        decreases cs@.len() - cur,
    {
        let d: u64 = (cs[cur] as u32 - 48) as u64;
        let ghost run0 = cs@.subrange(start as int, cur as int);
        let ghost run1 = cs@.subrange(start as int, cur as int + 1);
        proof {
            assert(run1.drop_last() =~= run0);
            assert(run1.last() == cs@[cur as int]);
            assert(digits_val(run1) == digits_val(run0) * 10 + dec_val(cs@[cur as int]));
            assert(dec_val(cs@[cur as int]) == d);
        }
        acc = match acc {
            Some(v) => {
                match v.checked_mul(10) {
                    Some(w) => {
                        match w.checked_add(d) {
                            Some(x) => Some(x),
                            None => {
                                proof {
                                    assert(digits_val(run1) > u64::MAX);
                                }
                                None
                            },
                        }
                    },
                    None => {
                        proof {
                            assert(v * 10 > u64::MAX);
                            assert(digits_val(run1) >= v * 10) by (nonlinear_arith)
                                requires
                                    digits_val(run1) == v * 10 + dec_val(cs@[cur as int]),
                            ;
                        }
                        None
                    },
                }
            },
            None => {
                proof {
                    assert(digits_val(run0) > u64::MAX);
                    assert(digits_val(run1) >= digits_val(run0)) by (nonlinear_arith)
                        requires
                            digits_val(run1) == digits_val(run0) * 10 + dec_val(cs@[cur as int]),
                            dec_val(cs@[cur as int]) >= 0,
                            digits_val(run0) >= 0,
                    ;
                }
                None
            },
        };
        cur = cur + 1;
    }
    proof {
        lemma_digit_run(cs@, start as int, cur as int);
    }
    if cur == start {
        proof {
            assert(p_nat(cs@, start as int) is None);
        }
        return None;
    }
    let magnitude: u64 = match acc {
        Some(v) => v,
        None => {
            return None;
        },
    };
    if negative {
        if magnitude > 9223372036854775808u64 {
            return None;
        }
        let value: i64 = if magnitude == 9223372036854775808u64 {
            i64::MIN
        } else {
            -(magnitude as i64)
        };
        Some((value, cur))
    } else {
        if magnitude > i64::MAX as u64 {
            return None;
        }
        Some((magnitude as i64, cur))
    }
}

/// One chat-message object starting at `i`.
fn scan_user_msg(cs: &Vec<char>, i: usize) -> (r: Option<(UserMsg, usize)>)
    ensures
        match r {
            Some(p) => p_user_msg(cs@, i as int) == Some((p.0@, p.1 as int)) && i < p.1 && p.1
                <= cs@.len(),
            None => p_user_msg(cs@, i as int) is None,
        },
{
    let i1 = match expect_lit(cs, i, "{\"nick\":") {
        Some(j) => j,
        None => {
            return None;
        },
    };
    let (nick, j1) = match scan_string(cs, i1) {
        Some(p) => p,
        None => {
            return None;
        },
    };
    let i2 = match expect_lit(cs, j1, ",\"custom_nick_color\":") {
        Some(j) => j,
        None => {
            return None;
        },
    };
    let (color, j2) = match scan_opt_string(cs, i2) {
        Some(p) => p,
        None => {
            return None;
        },
    };
    let i3 = match expect_lit(cs, j2, ",\"msg\":") {
        Some(j) => j,
        None => {
            return None;
        },
    };
    let (body, j3) = match scan_string(cs, i3) {
        Some(p) => p,
        None => {
            return None;
        },
    };
    let i4 = match expect_lit(cs, j3, ",\"time\":\"") {
        Some(j) => j,
        None => {
            return None;
        },
    };
    let (t, j4) = match scan_datetime(cs, i4) {
        Some(p) => p,
        None => {
            return None;
        },
    };
    let j5 = match expect_lit(cs, j4, "\"}") {
        Some(j) => j,
        None => {
            return None;
        },
    };
    let um = UserMsg { nick, custom_nick_color: color, msg: body, time: t };
    proof {
        reveal_strlit("{\"nick\":");
    }
    Some((um, j5))
}

/// One paste object starting at `i`.
fn scan_paste(cs: &Vec<char>, i: usize) -> (r: Option<(Paste, usize)>)
    ensures
        match r {
            Some(p) => p_paste(cs@, i as int) == Some((p.0@, p.1 as int)) && i < p.1 && p.1
                <= cs@.len(),
            None => p_paste(cs@, i as int) is None,
        },
{
    let i1 = match expect_lit(cs, i, "{\"id\":") {
        Some(j) => j,
        None => {
            return None;
        },
    };
    let (id, j1) = match scan_i64(cs, i1) {
        Some(p) => p,
        None => {
            return None;
        },
    };
    let i2 = match expect_lit(cs, j1, ",\"filename\":") {
        Some(j) => j,
        None => {
            return None;
        },
    };
    let (fname, j2) = match scan_opt_string(cs, i2) {
        Some(p) => p,
        None => {
            return None;
        },
    };
    let i3 = match expect_lit(cs, j2, ",\"content\":") {
        Some(j) => j,
        None => {
            return None;
        },
    };
    let (content, j3) = match scan_opt_string(cs, i3) {
        Some(p) => p,
        None => {
            return None;
        },
    };
    let i4 = match expect_lit(cs, j3, ",\"creation_date\":\"") {
        Some(j) => j,
        None => {
            return None;
        },
    };
    let (cd, j4) = match scan_datetime(cs, i4) {
        Some(p) => p,
        None => {
            return None;
        },
    };
    let j5 = match expect_lit(cs, j4, "\"}") {
        Some(j) => j,
        None => {
            return None;
        },
    };
    let p = Paste { id, filename: fname, content, creation_date: cd };
    proof {
        reveal_strlit("{\"id\":");
    }
    Some((p, j5))
}

/// A history array starting at `i`.
fn scan_history(cs: &Vec<char>, i: usize) -> (r: Option<(Vec<UserMsg>, usize)>)
    ensures
        match r {
            Some(p) => p_history(cs@, i as int) == Some((p.0.deep_view(), p.1 as int)) && i < p.1
                && p.1 <= cs@.len(),
            None => p_history(cs@, i as int) is None,
        },
{
    match expect_lit(cs, i, "[]") {
        Some(j) => {
            let empty: Vec<UserMsg> = Vec::new();
            proof {
                reveal_strlit("[]");
                assert(empty.deep_view() =~= Seq::<UserMsgV>::empty());
            }
            return Some((empty, j));
        },
        None => {},
    }
    if i >= cs.len() || cs[i] != '[' {
        return None;
    }
    let ghost i0: int = i as int + 1;
    let mut items: Vec<UserMsg> = Vec::new();
    let mut cur: usize = i + 1;
    proof {
        assert(items.deep_view() =~= Seq::<UserMsgV>::empty());
    }
    loop
        invariant
            i0 <= cur as int <= cs@.len(),
            i as int + 1 == i0,
            (i as int) < cs@.len(),
            cs@[i as int] == '[',
            !matches_at(cs@, i as int, "[]"@),
            p_history_items(cs@, i0) == (match p_history_items(cs@, cur as int) {
                Some((rest, k)) => Some::<(Seq<UserMsgV>, int)>((items.deep_view() + rest, k)),
                None => None::<(Seq<UserMsgV>, int)>,
            }),
        decreases cs@.len() - cur,
    {
        let (m, j) = match scan_user_msg(cs, cur) {
            Some(p) => p,
            None => {
                return None;
            },
        };
        let ghost items0 = items.deep_view();
        let ghost mv = m@;
        if j < cs.len() && cs[j] == ',' {
            items.push(m);
            proof {
                assert(items.deep_view() =~= items0.push(mv));
                if p_history_items(cs@, j as int + 1) is Some {
                    let (rest, k) = p_history_items(cs@, j as int + 1).unwrap();
                    assert(items0 + (seq![mv] + rest) =~= items.deep_view() + rest);
                }
            }
            cur = j + 1;
        } else if j < cs.len() && cs[j] == ']' {
            items.push(m);
            proof {
                assert(items.deep_view() =~= items0.push(mv));
                assert(items0 + seq![mv] =~= items.deep_view());
            }
            return Some((items, j + 1));
        } else {
            return None;
        }
    }
}

/// One envelope object starting at `i`.
fn scan_msg(cs: &Vec<char>, i: usize) -> (r: Option<(Msg, usize)>)
    ensures
        match r {
            Some(p) => p_msg(cs@, i as int) == Some((p.0@, p.1 as int)) && i < p.1 && p.1
                <= cs@.len(),
            None => p_msg(cs@, i as int) is None,
        },
{
    match expect_lit(cs, i, "{\"type\":\"Ping\"}") {
        Some(j) => {
            proof {
                reveal_strlit("{\"type\":\"Ping\"}");
            }
            return Some((Msg::Ping, j));
        },
        None => {},
    }
    match expect_lit(cs, i, "{\"type\":\"Connected\",\"data\":") {
        Some(i1) => {
            let (h, j) = match scan_history(cs, i1) {
                Some(p) => p,
                None => {
                    return None;
                },
            };
            let j1 = match expect_lit(cs, j, "}") {
                Some(k) => k,
                None => {
                    return None;
                },
            };
            return Some((Msg::Connected(h), j1));
        },
        None => {},
    }
    match expect_lit(cs, i, "{\"type\":\"Message\",\"data\":") {
        Some(i1) => {
            let (m, j) = match scan_user_msg(cs, i1) {
                Some(p) => p,
                None => {
                    return None;
                },
            };
            let j1 = match expect_lit(cs, j, "}") {
                Some(k) => k,
                None => {
                    return None;
                },
            };
            return Some((Msg::Message(m), j1));
        },
        None => {},
    }
    match expect_lit(cs, i, "{\"type\":\"Paste\",\"data\":") {
        Some(i1) => {
            let (p, j) = match scan_paste(cs, i1) {
                Some(q) => q,
                None => {
                    return None;
                },
            };
            let j1 = match expect_lit(cs, j, "}") {
                Some(k) => k,
                None => {
                    return None;
                },
            };
            return Some((Msg::Paste(p), j1));
        },
        None => {},
    }
    match expect_lit(cs, i, "{\"type\":\"NickChange\",\"data\":") {
        Some(i1) => {
            let (x, j) = match scan_string(cs, i1) {
                Some(p) => p,
                None => {
                    return None;
                },
            };
            let j1 = match expect_lit(cs, j, "}") {
                Some(k) => k,
                None => {
                    return None;
                },
            };
            return Some((Msg::NickChange(x), j1));
        },
        None => {},
    }
    match expect_lit(cs, i, "{\"type\":\"ColorChange\",\"data\":") {
        Some(i1) => {
            let (x, j) = match scan_string(cs, i1) {
                Some(p) => p,
                None => {
                    return None;
                },
            };
            let j1 = match expect_lit(cs, j, "}") {
                Some(k) => k,
                None => {
                    return None;
                },
            };
            return Some((Msg::ColorChange(x), j1));
        },
        None => {},
    }
    None
}

/// Decodes one wire frame: the inverse of `event_data` on every frame that
/// function produces, and `None` on text that is no frame of this protocol.
pub fn parse_event_data(s: &str) -> (r: Option<Msg>)
    ensures
        match r {
            Some(m) => p_frame(s@) == Some(m@),
            None => p_frame(s@) is None,
        },
{
    let cs = str_to_chars(s);
    let i1 = match expect_lit(&cs, 0, "data: ") {
        Some(j) => j,
        None => {
            return None;
        },
    };
    let (m, j) = match scan_msg(&cs, i1) {
        Some(p) => p,
        None => {
            return None;
        },
    };
    let j1 = match expect_lit(&cs, j, "\n\n") {
        Some(k) => k,
        None => {
            return None;
        },
    };
    if j1 != cs.len() {
        return None;
    }
    Some(m)
}


use crate::rfc3339::{
    civil_of, days_before_year, epoch_secs, lemma_civil_of, lemma_days_before_year_lower,
    lemma_split_year, pad2, rfc3339_of, split_year,
};

/// One expected character at a position.
pub open spec fn char_at(s: Seq<char>, i: int, c: char) -> bool {
    0 <= i < s.len() && s[i] == c
}

/// Exactly two decimal digits.
pub open spec fn p_2dig(s: Seq<char>, i: int) -> Option<(nat, int)> {
    if 0 <= i && i + 1 < s.len() && is_dec_digit(s[i]) && is_dec_digit(s[i + 1]) {
        Some((10 * dec_val(s[i]) + dec_val(s[i + 1]), i + 2))
    } else {
        None
    }
}

/// The date part `YYYY-MM-DD`, year first: value triple and next position.
pub open spec fn p_date(s: Seq<char>, i: int) -> Option<((nat, nat, nat), int)> {
    match p_nat(s, i) {
        Some((y, j0)) => if char_at(s, j0, '-') {
            match p_2dig(s, j0 + 1) {
                Some((mo, j1)) => if char_at(s, j1, '-') {
                    match p_2dig(s, j1 + 1) {
                        Some((d, j2)) => Some(((y, mo, d), j2)),
                        None => None,
                    }
                } else {
                    None
                },
                None => None,
            }
        } else {
            None
        },
        None => None,
    }
}

/// The time part `THH:MM:SSZ`: value triple and next position.
pub open spec fn p_time(s: Seq<char>, i: int) -> Option<((nat, nat, nat), int)> {
    if !char_at(s, i, 'T') {
        None
    } else {
        match p_2dig(s, i + 1) {
            Some((h, j0)) => if char_at(s, j0, ':') {
                match p_2dig(s, j0 + 1) {
                    Some((mi, j1)) => if char_at(s, j1, ':') {
                        match p_2dig(s, j1 + 1) {
                            Some((sec, j2)) => if char_at(s, j2, 'Z') {
                                Some(((h, mi, sec), j2 + 1))
                            } else {
                                None
                            },
                            None => None,
                        }
                    } else {
                        None
                    },
                    None => None,
                }
            } else {
                None
            },
            None => None,
        }
    }
}

/// Whether parsed civil fields are in range and name an instant within the
/// 64-bit range.
pub open spec fn datetime_fields_ok(y: nat, mo: nat, d: nat, h: nat, mi: nat, sec: nat) -> bool {
    &&& 1970 <= y <= u64::MAX
    &&& 1 <= mo <= 12
    &&& 1 <= d
    &&& h < 24
    &&& mi < 60
    &&& sec < 60
    &&& 0 <= epoch_secs(y, mo, d, h, mi, sec) <= u64::MAX
}

/// An RFC3339 UTC timestamp whose instant fits in 64 bits.
pub open spec fn p_datetime(s: Seq<char>, i: int) -> Option<(u64, int)> {
    match p_date(s, i) {
        Some(((y, mo, d), j)) => match p_time(s, j) {
            Some(((h, mi, sec), k)) => if datetime_fields_ok(y, mo, d, h, mi, sec) {
                Some((epoch_secs(y, mo, d, h, mi, sec) as u64, k))
            } else {
                None
            },
            None => None,
        },
        None => None,
    }
}

/// Parsing inverts two-digit rendering.
pub proof fn lemma_p_2dig_roundtrip(n: nat, s: Seq<char>, i: int)
    requires
        n < 100,
        matches_at(s, i, pad2(n)),
    ensures
        pad2(n).len() == 2,
        p_2dig(s, i) == Some((n, i + 2)),
{
    if n < 10 {
        lemma_dec_digit_val(n as int);
        assert(s[i + 0] == pad2(n)[0]);
        assert(s[i + 1] == pad2(n)[1]);
        assert(dec_val('0') == 0);
    } else {
        lemma_dec_digit_val((n / 10) as int);
        lemma_dec_digit_val((n % 10) as int);
        assert(dec_digits(n / 10) =~= seq![dec_digit((n / 10) as int)]);
        assert(pad2(n) =~= seq![dec_digit((n / 10) as int), dec_digit((n % 10) as int)]);
        assert(s[i + 0] == pad2(n)[0]);
        assert(s[i + 1] == pad2(n)[1]);
        assert(10 * (n / 10) + n % 10 == n) by {
            vstd::arithmetic::div_mod::lemma_fundamental_div_mod(n as int, 10);
        }
    }
}

/// The year of an instant that fits in 64 bits fits in 64 bits itself.
pub proof fn lemma_civil_year_bound(ts: nat)
    requires
        ts <= u64::MAX,
    ensures
        civil_of(ts).0 <= u64::MAX,
{
    lemma_split_year(ts / 86400, 1970);
    let y = civil_of(ts).0;
    assert(y == split_year(ts / 86400, 1970).0);
    lemma_days_before_year_lower(y);
    assert(days_before_year(y) <= ts / 86400);
    assert(ts / 86400 <= ts) by {
        vstd::arithmetic::div_mod::lemma_div_is_ordered_by_denominator(ts as int, 1, 86400);
        vstd::arithmetic::div_mod::lemma_div_basics(ts as int);
    }
    let a = (y - 1970) as nat;
    assert(365 * a <= u64::MAX);
    assert(a <= u64::MAX as int / 365) by (nonlinear_arith)
        requires
            365 * a <= u64::MAX,
            a >= 0,
    ;
}

/// Parsing inverts timestamp rendering.
#[verifier::rlimit(100)]
pub proof fn lemma_p_datetime_roundtrip(ts: u64, s: Seq<char>, i: int)
    requires
        matches_at(s, i, rfc3339_of(ts)),
    ensures
        p_datetime(s, i) == Some((ts, i + rfc3339_of(ts).len())),
{
    reveal(rfc3339_of);
    lemma_civil_of(ts as nat);
    lemma_civil_year_bound(ts as nat);
    let (y, mo, d, h, mi, sec) = civil_of(ts as nat);
    let w = rfc3339_of(ts);
    let wy = dec_digits(y);
    let t9 = pad2(sec) + seq!['Z'];
    let t8 = seq![':'] + t9;
    let t7 = pad2(mi) + t8;
    let t6 = seq![':'] + t7;
    let t5 = pad2(h) + t6;
    let t4 = seq!['T'] + t5;
    let t3 = pad2(d) + t4;
    let t2 = seq!['-'] + t3;
    let t1 = pad2(mo) + t2;
    let t0 = seq!['-'] + t1;
    assert(w =~= wy + t0);
    lemma_matches_split(s, i, wy, t0);
    let j0 = i + wy.len();
    lemma_matches_split(s, j0, seq!['-'], t1);
    assert(s[j0 + 0] == seq!['-'][0]);
    assert(s[j0 + 0] == '-');
    lemma_dec_digits_are_digits(y);
    assert(!is_dec_digit(s[j0]));
    lemma_p_nat_roundtrip(y, s, i);
    let i1 = j0 + 1;
    lemma_matches_split(s, i1, pad2(mo), t2);
    lemma_p_2dig_roundtrip(mo, s, i1);
    let j1 = i1 + 2;
    lemma_matches_split(s, j1, seq!['-'], t3);
    assert(s[j1 + 0] == seq!['-'][0]);
    assert(s[j1 + 0] == '-');
    let i2 = j1 + 1;
    lemma_matches_split(s, i2, pad2(d), t4);
    lemma_p_2dig_roundtrip(d, s, i2);
    let j2 = i2 + 2;
    assert(p_date(s, i) == Some(((y, mo, d), j2)));
    lemma_matches_split(s, j2, seq!['T'], t5);
    assert(s[j2 + 0] == seq!['T'][0]);
    assert(s[j2 + 0] == 'T');
    let i3 = j2 + 1;
    lemma_matches_split(s, i3, pad2(h), t6);
    lemma_p_2dig_roundtrip(h, s, i3);
    let j3 = i3 + 2;
    lemma_matches_split(s, j3, seq![':'], t7);
    assert(s[j3 + 0] == seq![':'][0]);
    assert(s[j3 + 0] == ':');
    let i4 = j3 + 1;
    lemma_matches_split(s, i4, pad2(mi), t8);
    lemma_p_2dig_roundtrip(mi, s, i4);
    let j4 = i4 + 2;
    lemma_matches_split(s, j4, seq![':'], t9);
    assert(s[j4 + 0] == seq![':'][0]);
    assert(s[j4 + 0] == ':');
    let i5 = j4 + 1;
    lemma_matches_split(s, i5, pad2(sec), seq!['Z']);
    lemma_p_2dig_roundtrip(sec, s, i5);
    let j5 = i5 + 2;
    assert(s[j5 + 0] == seq!['Z'][0]);
    assert(s[j5 + 0] == 'Z');
    assert(p_time(s, j2) == Some(((h, mi, sec), j5 + 1)));
    assert(datetime_fields_ok(y, mo, d, h, mi, sec));
    assert(p_datetime(s, i) == Some((ts, i + w.len())));
}


use crate::rfc3339::epoch_secs_x;

/// Whether the expected character stands at the position.
fn expect_char(cs: &Vec<char>, i: usize, c: char) -> (r: bool)
    ensures
        r == char_at(cs@, i as int, c),
{
    i < cs.len() && cs[i] == c
}

/// A digit run as a number, `None` inside when it exceeds 64 bits.
fn scan_nat(cs: &Vec<char>, i: usize) -> (r: Option<(Option<u64>, usize)>)
    ensures
        match r {
            Some(p) => ({
                &&& i < p.1 <= cs@.len()
                &&& match p.0 {
                    Some(v) => p_nat(cs@, i as int) == Some((v as nat, p.1 as int)),
                    None => p_nat(cs@, i as int) matches Some((n, j)) && n > u64::MAX && j
                        == p.1 as int,
                }
            }),
            None => p_nat(cs@, i as int) is None,
        },
{
    if i > cs.len() {
        return None;
    }
    let start: usize = i;
    let mut cur: usize = start;
    let mut acc: Option<u64> = Some(0);
    proof {
        assert(cs@.subrange(start as int, start as int) =~= Seq::<char>::empty());
    }
    while cur < cs.len() && is_digit_char(cs[cur])
        invariant
            start <= cur <= cs@.len(),
            start <= cs@.len(),
            forall|k: int| start <= k < cur ==> is_dec_digit(#[trigger] cs@[k]),
            match acc {
                Some(v) => v as nat == digits_val(cs@.subrange(start as int, cur as int)),
                None => digits_val(cs@.subrange(start as int, cur as int)) > u64::MAX,
            },
        decreases cs@.len() - cur,
    {
        let d: u64 = (cs[cur] as u32 - 48) as u64;
        let ghost run0 = cs@.subrange(start as int, cur as int);
        let ghost run1 = cs@.subrange(start as int, cur as int + 1);
        proof {
            assert(run1.drop_last() =~= run0);
            assert(run1.last() == cs@[cur as int]);
            assert(digits_val(run1) == digits_val(run0) * 10 + dec_val(cs@[cur as int]));
            assert(dec_val(cs@[cur as int]) == d);
        }
        acc = match acc {
            Some(v) => {
                match v.checked_mul(10) {
                    Some(w) => {
                        match w.checked_add(d) {
                            Some(x) => Some(x),
                            None => {
                                proof {
                                    assert(digits_val(run1) > u64::MAX);
                                }
                                None
                            },
                        }
                    },
                    None => {
                        proof {
                            assert(v * 10 > u64::MAX);
                            assert(digits_val(run1) >= v * 10) by (nonlinear_arith)
                                requires
                                    digits_val(run1) == v * 10 + dec_val(cs@[cur as int]),
                            ;
                        }
                        None
                    },
                }
            },
            None => {
                proof {
                    assert(digits_val(run0) > u64::MAX);
                    assert(digits_val(run1) >= digits_val(run0)) by (nonlinear_arith)
                        requires
                            digits_val(run1) == digits_val(run0) * 10 + dec_val(cs@[cur as int]),
                            dec_val(cs@[cur as int]) >= 0,
                            digits_val(run0) >= 0,
                    ;
                }
                None
            },
        };
        cur = cur + 1;
    }
    proof {
        lemma_digit_run(cs@, start as int, cur as int);
    }
    if cur == start {
        return None;
    }
    Some((acc, cur))
}

/// Exactly two decimal digits as a number below 100.
fn scan_2dig(cs: &Vec<char>, i: usize) -> (r: Option<(u64, usize)>)
    ensures
        match r {
            Some(p) => p_2dig(cs@, i as int) == Some((p.0 as nat, p.1 as int)) && p.0 < 100 && i
                < p.1 <= cs@.len(),
            None => p_2dig(cs@, i as int) is None,
        },
{
    if i < cs.len() && cs.len() - i > 1 {
        let c0 = cs[i];
        let c1 = cs[i + 1];
        if is_digit_char(c0) && is_digit_char(c1) {
            let v: u64 = ((c0 as u32 - 48) * 10 + (c1 as u32 - 48)) as u64;
            return Some((v, i + 2));
        }
    }
    None
}

/// An RFC3339 UTC timestamp as an instant.
fn scan_datetime(cs: &Vec<char>, i: usize) -> (r: Option<(u64, usize)>)
    ensures
        match r {
            Some(p) => p_datetime(cs@, i as int) == Some((p.0, p.1 as int)) && i < p.1 && p.1
                <= cs@.len(),
            None => p_datetime(cs@, i as int) is None,
        },
{
    let n = cs.len();
    proof {
        assert(n == cs@.len());
    }
    let (acc, j0) = match scan_nat(cs, i) {
        Some(p) => p,
        None => {
            return None;
        },
    };
    if !expect_char(cs, j0, '-') {
        return None;
    }
    let (mo, j1) = match scan_2dig(cs, j0 + 1) {
        Some(p) => p,
        None => {
            return None;
        },
    };
    if !expect_char(cs, j1, '-') {
        return None;
    }
    let (d, j2) = match scan_2dig(cs, j1 + 1) {
        Some(p) => p,
        None => {
            return None;
        },
    };
    if !expect_char(cs, j2, 'T') {
        return None;
    }
    let (h, j3) = match scan_2dig(cs, j2 + 1) {
        Some(p) => p,
        None => {
            return None;
        },
    };
    if !expect_char(cs, j3, ':') {
        return None;
    }
    let (mi, j4) = match scan_2dig(cs, j3 + 1) {
        Some(p) => p,
        None => {
            return None;
        },
    };
    if !expect_char(cs, j4, ':') {
        return None;
    }
    let (sec, j5) = match scan_2dig(cs, j4 + 1) {
        Some(p) => p,
        None => {
            return None;
        },
    };
    if !expect_char(cs, j5, 'Z') {
        return None;
    }
    let y = match acc {
        Some(v) => v,
        None => {
            return None;
        },
    };
    if !(1970 <= y && 1 <= mo && mo <= 12 && 1 <= d && h < 24 && mi < 60 && sec < 60) {
        return None;
    }
    match epoch_secs_x(y, mo, d, h, mi, sec) {
        Some(v) => Some((v, j5 + 1)),
        None => None,
    }
}

} // verus!
