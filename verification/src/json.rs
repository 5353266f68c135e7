//! A JSON value model with a verified emitter and parser.
//!
//! [`Json`] is the executable value; [`JsonVal`] is its mathematical
//! model.  [`emit`] defines the serialized byte form, and the parser is
//! proved to be its exact inverse: for every well-formed value `v`,
//! parsing `emit(v)` yields `v` again.  The parser also accepts the
//! common escape forms other writers produce; integers must fit `u64`.

use vstd::prelude::*;

use crate::framer::{dec_rep, dec_val, is_digit, lemma_dec_rep_digits, push_dec};

verus! {

/// The mathematical model of a JSON value.
pub enum JsonVal {
    Null,
    Bool(bool),
    UInt(u64),
    NegInt(u64),
    Str(Seq<u8>),
    Arr(Seq<JsonVal>),
    Obj(Seq<(Seq<u8>, JsonVal)>),
}

/// A JSON value: booleans, integers, UTF-8 strings held as bytes, and
/// arrays and objects with ordered members.
#[derive(Debug, PartialEq, Eq)]
pub enum Json {
    Null,
    Bool(bool),
    UInt(u64),
    NegInt(u64),
    Str(Vec<u8>),
    Arr(Vec<Json>),
    Obj(Vec<(Vec<u8>, Json)>),
}

/// The models of the values of `vs` from index `i` on.
pub open spec fn view_list(vs: Vec<Json>, i: int) -> Seq<JsonVal>
    decreases vs, vs.len() - i, 0int,
{
    if i < 0 || i >= vs.len() {
        Seq::empty()
    } else {
        seq![json_view(vs[i])] + view_list(vs, i + 1)
    }
}

/// The models of the members of `kvs` from index `i` on.
pub open spec fn view_members(kvs: Vec<(Vec<u8>, Json)>, i: int) -> Seq<(Seq<u8>, JsonVal)>
    decreases kvs, kvs.len() - i, 1int,
{
    if i < 0 || i >= kvs.len() {
        Seq::empty()
    } else {
        seq![view_member(kvs[i])] + view_members(kvs, i + 1)
    }
}

/// The model of one object member.
pub open spec fn view_member(kv: (Vec<u8>, Json)) -> (Seq<u8>, JsonVal)
    decreases kv, 0int, 0int,
{
    (kv.0@, json_view(kv.1))
}

/// The model of a JSON value.
pub open spec fn json_view(v: Json) -> JsonVal
    decreases v, 0int, 0int,
{
    match v {
        Json::Null => JsonVal::Null,
        Json::Bool(b) => JsonVal::Bool(b),
        Json::UInt(n) => JsonVal::UInt(n),
        Json::NegInt(n) => JsonVal::NegInt(n),
        Json::Str(s) => JsonVal::Str(s@),
        Json::Arr(vs) => JsonVal::Arr(view_list(vs, 0)),
        Json::Obj(kvs) => JsonVal::Obj(view_members(kvs, 0)),
    }
}

impl View for Json {
    type V = JsonVal;

    open spec fn view(&self) -> JsonVal {
        json_view(*self)
    }
}

pub proof fn lemma_view_list_index(vs: Vec<Json>, i: int, j: int)
    requires
        0 <= i <= j < vs.len(),
    ensures
        view_list(vs, i).len() == vs.len() - i,
        view_list(vs, i)[j - i] == json_view(vs[j]),
    decreases j - i,
{
    lemma_view_list_len(vs, i);
    if i < j {
        lemma_view_list_index(vs, i + 1, j);
    }
}

pub proof fn lemma_view_list_len(vs: Vec<Json>, i: int)
    requires
        0 <= i <= vs.len(),
    ensures
        view_list(vs, i).len() == vs.len() - i,
    decreases vs.len() - i,
{
    if i < vs.len() {
        lemma_view_list_len(vs, i + 1);
    }
}

pub proof fn lemma_view_members_index(kvs: Vec<(Vec<u8>, Json)>, i: int, j: int)
    requires
        0 <= i <= j < kvs.len(),
    ensures
        view_members(kvs, i).len() == kvs.len() - i,
        view_members(kvs, i)[j - i] == view_member(kvs[j]),
    decreases j - i,
{
    lemma_view_members_len(kvs, i);
    if i < j {
        lemma_view_members_index(kvs, i + 1, j);
    }
}

pub proof fn lemma_view_members_len(kvs: Vec<(Vec<u8>, Json)>, i: int)
    requires
        0 <= i <= kvs.len(),
    ensures
        view_members(kvs, i).len() == kvs.len() - i,
    decreases kvs.len() - i,
{
    if i < kvs.len() {
        lemma_view_members_len(kvs, i + 1);
    }
}

/// Well-formedness: a negative integer has magnitude at least one, and
/// the condition holds through arrays and objects.
pub open spec fn json_wf(v: JsonVal) -> bool
    decreases v, 0int, 0int,
{
    match v {
        JsonVal::NegInt(n) => n >= 1,
        JsonVal::Arr(vs) => json_wf_list(vs, 0),
        JsonVal::Obj(kvs) => json_wf_members(kvs, 0),
        _ => true,
    }
}

/// Every element of `vs` from index `i` on is well formed.
pub open spec fn json_wf_list(vs: Seq<JsonVal>, i: int) -> bool
    decreases vs, vs.len() - i, 1int,
{
    if i < 0 || i >= vs.len() {
        true
    } else {
        json_wf(vs[i]) && json_wf_list(vs, i + 1)
    }
}

/// Every member value of `kvs` from index `i` on is well formed.
pub open spec fn json_wf_members(kvs: Seq<(Seq<u8>, JsonVal)>, i: int) -> bool
    decreases kvs, kvs.len() - i, 1int,
{
    if i < 0 || i >= kvs.len() {
        true
    } else {
        json_wf_member(kvs[i]) && json_wf_members(kvs, i + 1)
    }
}

/// The value of one object member is well formed.
pub open spec fn json_wf_member(kv: (Seq<u8>, JsonVal)) -> bool
    decreases kv, 0int, 0int,
{
    json_wf(kv.1)
}

/// The escape form of one string byte: quote, backslash, newline,
/// carriage return and tab are escaped, every other byte stands as it
/// is.
pub open spec fn esc_byte(b: u8) -> Seq<u8> {
    if b == 34 {
        seq![92u8, 34u8]
    } else if b == 92 {
        seq![92u8, 92u8]
    } else if b == 10 {
        seq![92u8, 110u8]
    } else if b == 13 {
        seq![92u8, 114u8]
    } else if b == 9 {
        seq![92u8, 116u8]
    } else {
        seq![b]
    }
}

/// The escaped form of a string body.
pub open spec fn esc(s: Seq<u8>) -> Seq<u8>
    decreases s.len(),
{
    if s.len() == 0 {
        Seq::empty()
    } else {
        esc_byte(s[0]) + esc(s.drop_first())
    }
}

/// The serialized form of a string literal, quotes included.
pub open spec fn string_lit(s: Seq<u8>) -> Seq<u8> {
    seq![34u8] + esc(s) + seq![34u8]
}

/// The serialized byte form of a JSON value.
pub open spec fn emit(v: JsonVal) -> Seq<u8>
    decreases v, 0int, 0int,
{
    match v {
        JsonVal::Null => seq![110u8, 117u8, 108u8, 108u8],
        JsonVal::Bool(b) => if b {
            seq![116u8, 114u8, 117u8, 101u8]
        } else {
            seq![102u8, 97u8, 108u8, 115u8, 101u8]
        },
        JsonVal::UInt(n) => dec_rep(n as nat),
        JsonVal::NegInt(n) => seq![45u8] + dec_rep(n as nat),
        JsonVal::Str(s) => string_lit(s),
        JsonVal::Arr(vs) => seq![91u8] + emit_items(vs, 0) + seq![93u8],
        JsonVal::Obj(kvs) => seq![123u8] + emit_members(kvs, 0) + seq![125u8],
    }
}

/// The serialized elements of an array from index `i` on, separated by
/// commas.
pub open spec fn emit_items(vs: Seq<JsonVal>, i: int) -> Seq<u8>
    decreases vs, vs.len() - i, 1int,
{
    if i < 0 || i >= vs.len() {
        Seq::empty()
    } else if i == vs.len() - 1 {
        emit(vs[i])
    } else {
        emit(vs[i]) + seq![44u8] + emit_items(vs, i + 1)
    }
}

/// The serialized members of an object from index `i` on, separated by
/// commas.
pub open spec fn emit_members(kvs: Seq<(Seq<u8>, JsonVal)>, i: int) -> Seq<u8>
    decreases kvs, kvs.len() - i, 1int,
{
    if i < 0 || i >= kvs.len() {
        Seq::empty()
    } else if i == kvs.len() - 1 {
        emit_member(kvs[i])
    } else {
        emit_member(kvs[i]) + seq![44u8] + emit_members(kvs, i + 1)
    }
}

/// One serialized object member: the quoted key, a colon, the value.
pub open spec fn emit_member(kv: (Seq<u8>, JsonVal)) -> Seq<u8>
    decreases kv, 0int, 0int,
{
    string_lit(kv.0) + seq![58u8] + emit(kv.1)
}

/// The byte an escape character stands for, if it is a known escape.
pub open spec fn unescape(c: u8) -> Option<u8> {
    if c == 34 {
        Some(34u8)
    } else if c == 92 {
        Some(92u8)
    } else if c == 47 {
        Some(47u8)
    } else if c == 98 {
        Some(8u8)
    } else if c == 102 {
        Some(12u8)
    } else if c == 110 {
        Some(10u8)
    } else if c == 114 {
        Some(13u8)
    } else if c == 116 {
        Some(9u8)
    } else {
        None
    }
}

/// The first index at or after `i` that holds no decimal digit.
pub open spec fn sp_digits_end(s: Seq<u8>, i: int) -> int
    decreases s.len() - i,
{
    if 0 <= i < s.len() && is_digit(s[i]) {
        sp_digits_end(s, i + 1)
    } else {
        i
    }
}

/// Parses the rest of a string literal after its opening quote: the
/// unescaped body and the index just past the closing quote.
pub open spec fn sp_str_rest(s: Seq<u8>, i: int) -> Option<(Seq<u8>, int)>
    decreases s.len() - i,
{
    if !(0 <= i < s.len()) {
        None
    } else if s[i] == 34 {
        Some((Seq::empty(), i + 1))
    } else if s[i] == 92 {
        if i + 1 >= s.len() {
            None
        } else {
            match unescape(s[i + 1]) {
                None => None,
                Some(u) => match sp_str_rest(s, i + 2) {
                    None => None,
                    Some((cs, j)) => Some((seq![u] + cs, j)),
                },
            }
        }
    } else {
        match sp_str_rest(s, i + 1) {
            None => None,
            Some((cs, j)) => Some((seq![s[i]] + cs, j)),
        }
    }
}

/// Parses one JSON value starting at `i`: the value and the index just
/// past it.
pub open spec fn sp_value(s: Seq<u8>, i: int) -> Option<(JsonVal, int)>
    decreases s.len() - i, 1int,
{
    if !(0 <= i < s.len()) {
        None
    } else {
        let b = s[i];
        if b == 110 {
            if i + 4 <= s.len() && s[i + 1] == 117 && s[i + 2] == 108 && s[i + 3] == 108 {
                Some((JsonVal::Null, i + 4))
            } else {
                None
            }
        } else if b == 116 {
            if i + 4 <= s.len() && s[i + 1] == 114 && s[i + 2] == 117 && s[i + 3] == 101 {
                Some((JsonVal::Bool(true), i + 4))
            } else {
                None
            }
        } else if b == 102 {
            if i + 5 <= s.len() && s[i + 1] == 97 && s[i + 2] == 108 && s[i + 3] == 115 && s[i + 4]
                == 101 {
                Some((JsonVal::Bool(false), i + 5))
            } else {
                None
            }
        } else if b == 34 {
            match sp_str_rest(s, i + 1) {
                None => None,
                Some((cs, j)) => Some((JsonVal::Str(cs), j)),
            }
        } else if b == 45 {
            let e = sp_digits_end(s, i + 1);
            if e > i + 1 && dec_val(s.subrange(i + 1, e)) <= u64::MAX && dec_val(
                s.subrange(i + 1, e),
            ) >= 1 {
                Some((JsonVal::NegInt(dec_val(s.subrange(i + 1, e)) as u64), e))
            } else {
                None
            }
        } else if is_digit(b) {
            let e = sp_digits_end(s, i);
            if dec_val(s.subrange(i, e)) <= u64::MAX {
                Some((JsonVal::UInt(dec_val(s.subrange(i, e)) as u64), e))
            } else {
                None
            }
        } else if b == 91 {
            if i + 1 < s.len() && s[i + 1] == 93 {
                Some((JsonVal::Arr(Seq::empty()), i + 2))
            } else {
                match sp_items(s, i + 1) {
                    None => None,
                    Some((vs, j)) => Some((JsonVal::Arr(vs), j)),
                }
            }
        } else if b == 123 {
            if i + 1 < s.len() && s[i + 1] == 125 {
                Some((JsonVal::Obj(Seq::empty()), i + 2))
            } else {
                match sp_members(s, i + 1) {
                    None => None,
                    Some((ms, j)) => Some((JsonVal::Obj(ms), j)),
                }
            }
        } else {
            None
        }
    }
}

/// Parses the elements of a non-empty array, the closing bracket
/// included.
pub open spec fn sp_items(s: Seq<u8>, i: int) -> Option<(Seq<JsonVal>, int)>
    decreases s.len() - i, 2int,
{
    match sp_value(s, i) {
        None => None,
        Some((v, j)) => {
            if !(i < j && j < s.len()) {
                None
            } else if s[j] == 44 {
                match sp_items(s, j + 1) {
                    None => None,
                    Some((vs, k)) => Some((seq![v] + vs, k)),
                }
            } else if s[j] == 93 {
                Some((seq![v], j + 1))
            } else {
                None
            }
        },
    }
}

/// Parses the members of a non-empty object, the closing brace
/// included.
pub open spec fn sp_members(s: Seq<u8>, i: int) -> Option<(Seq<(Seq<u8>, JsonVal)>, int)>
    decreases s.len() - i, 2int,
{
    if !(0 <= i < s.len()) {
        None
    } else if s[i] != 34 {
        None
    } else {
        match sp_str_rest(s, i + 1) {
            None => None,
            Some((key, j)) => {
                if !(i < j && j < s.len()) {
                    None
                } else if s[j] != 58 {
                    None
                } else {
                    match sp_value(s, j + 1) {
                        None => None,
                        Some((v, k)) => {
                            if !(j < k && k < s.len()) {
                                None
                            } else if s[k] == 44 {
                                match sp_members(s, k + 1) {
                                    None => None,
                                    Some((ms, e)) => Some((seq![(key, v)] + ms, e)),
                                }
                            } else if s[k] == 125 {
                                Some((seq![(key, v)], k + 1))
                            } else {
                                None
                            }
                        },
                    }
                }
            },
        }
    }
}

/// Parses a complete message body: one JSON value spanning the whole of
/// `s`.
pub open spec fn sp_message(s: Seq<u8>) -> Option<JsonVal> {
    match sp_value(s, 0) {
        None => None,
        Some((v, j)) => if j == s.len() {
            Some(v)
        } else {
            None
        },
    }
}

/// `b` can start a serialized JSON value.
pub open spec fn value_start(b: u8) -> bool {
    b == 110 || b == 116 || b == 102 || b == 34 || b == 45 || is_digit(b) || b == 91 || b == 123
}

/// A serialized value is never empty, and its first byte marks a value.
pub proof fn lemma_emit_first(v: JsonVal)
    ensures
        emit(v).len() >= 1,
        value_start(emit(v)[0]),
{
    match v {
        JsonVal::UInt(n) => {
            lemma_dec_rep_digits(n as nat);
        },
        JsonVal::NegInt(n) => {
            lemma_dec_rep_digits(n as nat);
        },
        _ => {},
    }
}

proof fn lemma_sp_digits_end_lb(s: Seq<u8>, i: int)
    ensures
        sp_digits_end(s, i) >= i,
    decreases s.len() - i,
{
    if 0 <= i < s.len() && is_digit(s[i]) {
        lemma_sp_digits_end_lb(s, i + 1);
    }
}

proof fn lemma_sp_digits_end_pin(s: Seq<u8>, start: int, j: int)
    requires
        0 <= start <= j <= s.len(),
        forall|k: int| start <= k < j ==> is_digit(s[k]),
        j == s.len() || !is_digit(s[j]),
    ensures
        sp_digits_end(s, start) == j,
    decreases j - start,
{
    if start < j {
        assert(is_digit(s[start]));
        lemma_sp_digits_end_pin(s, start + 1, j);
    }
}

proof fn lemma_parse_emit_str(cs: Seq<u8>, s: Seq<u8>, i: int)
    requires
        0 <= i,
        i + esc(cs).len() + 1 <= s.len(),
        s.subrange(i, i + esc(cs).len() + 1) == esc(cs) + seq![34u8],
    ensures
        sp_str_rest(s, i) == Some((cs, i + esc(cs).len() + 1)),
    decreases cs.len(),
{
    let w = esc(cs) + seq![34u8];
    let l = w.len() as int;
    assert forall|k: int| 0 <= k < l implies s[i + k] == #[trigger] w[k] by {
        assert(s.subrange(i, i + esc(cs).len() + 1)[k] == w[k]);
    }
    if cs.len() == 0 {
        assert(w[0] == 34);
        assert(s[i] == 34);
    } else {
        let b = cs[0];
        let rest = cs.drop_first();
        assert(esc(cs) == esc_byte(b) + esc(rest));
        let d = esc_byte(b).len() as int;
        assert(w =~= esc_byte(b) + (esc(rest) + seq![34u8]));
        let wr = esc(rest) + seq![34u8];
        assert(s.subrange(i + d, i + d + esc(rest).len() + 1) =~= wr) by {
            assert forall|k: int| 0 <= k < wr.len() implies s.subrange(
                i + d,
                i + d + esc(rest).len() + 1,
            )[k] == wr[k] by {
                assert(w[d + k] == wr[k]);
                assert(s[i + (d + k)] == w[d + k]);
            }
        }
        if b == 34 || b == 92 || b == 10 || b == 13 || b == 9 {
            assert(d == 2);
            assert(w[0] == 92);
            assert(s[i] == 92);
            assert(w[1] == esc_byte(b)[1]);
            assert(s[i + 1] == esc_byte(b)[1]);
            assert(unescape(s[i + 1]) == Some(b));
            lemma_parse_emit_str(rest, s, i + 2);
            assert(seq![b] + rest =~= cs);
        } else {
            assert(d == 1);
            assert(w[0] == b);
            assert(s[i] == b);
            assert(!(b == 34) && !(b == 92));
            lemma_parse_emit_str(rest, s, i + 1);
            assert(seq![s[i]] + rest =~= cs);
        }
    }
}

proof fn lemma_parse_emit_value(v: JsonVal, s: Seq<u8>, i: int)
    requires
        json_wf(v),
        0 <= i,
        i + emit(v).len() <= s.len(),
        s.subrange(i, i + emit(v).len()) == emit(v),
        i + emit(v).len() == s.len() || !is_digit(s[i + emit(v).len()]),
    ensures
        sp_value(s, i) == Some((v, i + emit(v).len())),
    decreases v, 0int, 0int,
{
    let w = emit(v);
    let n = w.len() as int;
    lemma_emit_first(v);
    assert forall|k: int| 0 <= k < n implies s[i + k] == #[trigger] w[k] by {
        assert(s.subrange(i, i + n)[k] == w[k]);
    }
    match v {
        JsonVal::Null => {
            assert(w[0] == 110 && w[1] == 117 && w[2] == 108 && w[3] == 108);
            assert(s[i] == 110 && s[i + 1] == 117 && s[i + 2] == 108 && s[i + 3] == 108);
        },
        JsonVal::Bool(b) => {
            if b {
                assert(w[0] == 116 && w[1] == 114 && w[2] == 117 && w[3] == 101);
                assert(s[i] == 116 && s[i + 1] == 114 && s[i + 2] == 117 && s[i + 3] == 101);
            } else {
                assert(w[0] == 102 && w[1] == 97 && w[2] == 108 && w[3] == 115 && w[4] == 101);
                assert(s[i] == 102 && s[i + 1] == 97 && s[i + 2] == 108 && s[i + 3] == 115 && s[i
                    + 4] == 101);
            }
        },
        JsonVal::UInt(m) => {
            lemma_dec_rep_digits(m as nat);
            assert forall|k: int| i <= k < i + n implies is_digit(#[trigger] s[k]) by {
                assert(w[k - i] == dec_rep(m as nat)[k - i]);
                assert(s[i + (k - i)] == w[k - i]);
            }
            assert(s[i] == w[0]);
            assert(!(s[i] == 110) && !(s[i] == 116) && !(s[i] == 102) && !(s[i] == 34) && !(s[i]
                == 45));
            lemma_sp_digits_end_pin(s, i, i + n);
            assert(s.subrange(i, i + n) =~= dec_rep(m as nat));
        },
        JsonVal::NegInt(m) => {
            lemma_dec_rep_digits(m as nat);
            assert(w[0] == 45);
            assert(s[i] == 45);
            assert forall|k: int| i + 1 <= k < i + n implies is_digit(#[trigger] s[k]) by {
                assert(w[k - i] == dec_rep(m as nat)[k - i - 1]);
                assert(s[i + (k - i)] == w[k - i]);
            }
            lemma_sp_digits_end_pin(s, i + 1, i + n);
            assert(i + n == s.len() || !is_digit(s[i + n]));
            assert(s.subrange(i + 1, i + n) =~= dec_rep(m as nat)) by {
                assert forall|k: int| 0 <= k < n - 1 implies s.subrange(i + 1, i + n)[k] == dec_rep(
                    m as nat,
                )[k] by {
                    assert(w[k + 1] == dec_rep(m as nat)[k]);
                    assert(s[i + (k + 1)] == w[k + 1]);
                }
            }
        },
        JsonVal::Str(cs) => {
            assert(w[0] == 34);
            assert(s[i] == 34);
            let wr = esc(cs) + seq![34u8];
            assert(s.subrange(i + 1, i + 1 + esc(cs).len() + 1) =~= wr) by {
                assert forall|k: int| 0 <= k < wr.len() implies s.subrange(
                    i + 1,
                    i + 1 + esc(cs).len() + 1,
                )[k] == wr[k] by {
                    assert(w[1 + k] == wr[k]) by {
                        assert(w =~= seq![34u8] + wr);
                    }
                    assert(s[i + (1 + k)] == w[1 + k]);
                }
            }
            lemma_parse_emit_str(cs, s, i + 1);
        },
        JsonVal::Arr(vs) => {
            assert(w[0] == 91);
            assert(s[i] == 91);
            let inner = emit_items(vs, 0);
            if vs.len() == 0 {
                assert(inner =~= Seq::<u8>::empty());
                assert(w =~= seq![91u8, 93u8]);
                assert(w[1] == 93);
                assert(s[i + 1] == 93);
                assert(vs =~= Seq::<JsonVal>::empty());
            } else {
                let first = emit(vs[0]);
                lemma_emit_first(vs[0]);
                assert(inner[0] == first[0]) by {
                    if vs.len() == 1 {
                        assert(inner == first);
                    } else {
                        assert(inner == first + seq![44u8] + emit_items(vs, 1));
                    }
                }
                assert(w[1] == inner[0]);
                assert(s[i + 1] == inner[0]);
                assert(!(s[i + 1] == 93));
                assert(s.subrange(i + 1, i + 1 + inner.len()) =~= inner) by {
                    assert forall|k: int| 0 <= k < inner.len() implies s.subrange(
                        i + 1,
                        i + 1 + inner.len(),
                    )[k] == inner[k] by {
                        assert(w[1 + k] == inner[k]);
                        assert(s[i + (1 + k)] == w[1 + k]);
                    }
                }
                assert(w[n - 1] == 93);
                assert(s[i + (n - 1)] == w[n - 1]);
                assert(s[i + 1 + inner.len()] == 93);
                lemma_parse_emit_items(vs, 0, s, i + 1);
                assert(vs.subrange(0, vs.len() as int) =~= vs);
            }
        },
        JsonVal::Obj(kvs) => {
            assert(w[0] == 123);
            assert(s[i] == 123);
            let inner = emit_members(kvs, 0);
            if kvs.len() == 0 {
                assert(inner =~= Seq::<u8>::empty());
                assert(w =~= seq![123u8, 125u8]);
                assert(w[1] == 125);
                assert(s[i + 1] == 125);
                assert(kvs =~= Seq::<(Seq<u8>, JsonVal)>::empty());
            } else {
                let first = emit_member(kvs[0]);
                assert(first[0] == 34);
                assert(inner[0] == first[0]) by {
                    if kvs.len() == 1 {
                        assert(inner == first);
                    } else {
                        assert(inner == first + seq![44u8] + emit_members(kvs, 1));
                    }
                }
                assert(w[1] == inner[0]);
                assert(s[i + 1] == 34);
                assert(!(s[i + 1] == 125));
                assert(s.subrange(i + 1, i + 1 + inner.len()) =~= inner) by {
                    assert forall|k: int| 0 <= k < inner.len() implies s.subrange(
                        i + 1,
                        i + 1 + inner.len(),
                    )[k] == inner[k] by {
                        assert(w[1 + k] == inner[k]);
                        assert(s[i + (1 + k)] == w[1 + k]);
                    }
                }
                assert(w[n - 1] == 125);
                assert(s[i + (n - 1)] == w[n - 1]);
                assert(s[i + 1 + inner.len()] == 125);
                lemma_parse_emit_members(kvs, 0, s, i + 1);
                assert(kvs.subrange(0, kvs.len() as int) =~= kvs);
            }
        },
    }
}

proof fn lemma_parse_emit_items(vs: Seq<JsonVal>, q: int, s: Seq<u8>, i: int)
    requires
        0 <= q < vs.len(),
        json_wf_list(vs, q),
        0 <= i,
        i + emit_items(vs, q).len() < s.len(),
        s.subrange(i, i + emit_items(vs, q).len()) == emit_items(vs, q),
        s[i + emit_items(vs, q).len()] == 93,
    ensures
        sp_items(s, i) == Some((vs.subrange(q, vs.len() as int), i + emit_items(vs, q).len() + 1)),
    decreases vs, vs.len() - q, 2int,
{
    let whole = emit_items(vs, q);
    let l = whole.len() as int;
    assert forall|k: int| 0 <= k < l implies s[i + k] == #[trigger] whole[k] by {
        assert(s.subrange(i, i + l)[k] == whole[k]);
    }
    let first = emit(vs[q]);
    lemma_emit_first(vs[q]);
    let e0 = first.len() as int;
    if q == vs.len() - 1 {
        assert(whole == first);
        assert(s.subrange(i, i + e0) == first) by {
            assert(s.subrange(i, i + e0) =~= whole);
        }
        lemma_parse_emit_value(vs[q], s, i);
        let j = i + e0;
        assert(s[j] == 93);
        assert(seq![vs[q]] =~= vs.subrange(q, vs.len() as int));
    } else {
        assert(whole == first + seq![44u8] + emit_items(vs, q + 1));
        let tail = emit_items(vs, q + 1);
        assert(s.subrange(i, i + e0) =~= first) by {
            assert forall|k: int| 0 <= k < e0 implies s.subrange(i, i + e0)[k] == first[k] by {
                assert(whole[k] == first[k]);
                assert(s[i + k] == whole[k]);
            }
        }
        assert(whole[e0] == 44);
        assert(s[i + e0] == 44);
        lemma_parse_emit_value(vs[q], s, i);
        let j = i + e0;
        assert(s.subrange(j + 1, j + 1 + tail.len()) =~= tail) by {
            assert forall|k: int| 0 <= k < tail.len() implies s.subrange(
                j + 1,
                j + 1 + tail.len(),
            )[k] == tail[k] by {
                assert(whole[e0 + 1 + k] == tail[k]);
                assert(s[i + (e0 + 1 + k)] == whole[e0 + 1 + k]);
            }
        }
        assert(s[j + 1 + tail.len()] == 93);
        lemma_parse_emit_items(vs, q + 1, s, j + 1);
        assert(seq![vs[q]] + vs.subrange(q + 1, vs.len() as int) =~= vs.subrange(
            q,
            vs.len() as int,
        ));
    }
}

proof fn lemma_parse_emit_members(kvs: Seq<(Seq<u8>, JsonVal)>, q: int, s: Seq<u8>, i: int)
    requires
        0 <= q < kvs.len(),
        json_wf_members(kvs, q),
        0 <= i,
        i + emit_members(kvs, q).len() < s.len(),
        s.subrange(i, i + emit_members(kvs, q).len()) == emit_members(kvs, q),
        s[i + emit_members(kvs, q).len()] == 125,
    ensures
        sp_members(s, i) == Some(
            (kvs.subrange(q, kvs.len() as int), i + emit_members(kvs, q).len() + 1),
        ),
    decreases kvs, kvs.len() - q, 2int,
{
    let whole = emit_members(kvs, q);
    let l = whole.len() as int;
    assert forall|k: int| 0 <= k < l implies s[i + k] == #[trigger] whole[k] by {
        assert(s.subrange(i, i + l)[k] == whole[k]);
    }
    let kv = kvs[q];
    assert(json_wf_member(kvs[q]));
    assert(json_wf(kv.1));
    let first = emit_member(kv);
    let e0 = first.len() as int;
    let key_len: int = esc(kv.0).len() as int + 2;
    let val_len = emit(kv.1).len() as int;
    assert(first == string_lit(kv.0) + seq![58u8] + emit(kv.1));
    assert(e0 == key_len + 1 + val_len);
    if q == kvs.len() - 1 {
        assert(whole == first);
    } else {
        assert(whole == first + seq![44u8] + emit_members(kvs, q + 1));
    }
    assert forall|k: int| 0 <= k < e0 implies whole[k] == #[trigger] first[k] by {
        if q != kvs.len() - 1 {
            assert(whole == (first + seq![44u8]) + emit_members(kvs, q + 1));
        }
    }
    // the key string
    assert(first[0] == 34);
    assert(s[i] == 34);
    let wk = esc(kv.0) + seq![34u8];
    assert(s.subrange(i + 1, i + 1 + esc(kv.0).len() + 1) =~= wk) by {
        assert forall|k: int| 0 <= k < wk.len() implies s.subrange(
            i + 1,
            i + 1 + esc(kv.0).len() + 1,
        )[k] == wk[k] by {
            assert(first[1 + k] == wk[k]) by {
                assert(first =~= seq![34u8] + wk + seq![58u8] + emit(kv.1));
            }
            assert(whole[1 + k] == first[1 + k]);
            assert(s[i + (1 + k)] == whole[1 + k]);
        }
    }
    lemma_parse_emit_str(kv.0, s, i + 1);
    let j = i + key_len;
    assert(sp_str_rest(s, i + 1) == Some((kv.0, j)));
    // the colon
    assert(first[key_len] == 58);
    assert(whole[key_len] == first[key_len]);
    assert(s[i + key_len] == whole[key_len]);
    assert(s[j] == 58);
    // the value
    assert(s.subrange(j + 1, j + 1 + val_len) =~= emit(kv.1)) by {
        assert forall|k: int| 0 <= k < val_len implies s.subrange(j + 1, j + 1 + val_len)[k]
            == emit(kv.1)[k] by {
            assert(first[key_len + 1 + k] == emit(kv.1)[k]);
            assert(whole[key_len + 1 + k] == first[key_len + 1 + k]);
            assert(s[i + (key_len + 1 + k)] == whole[key_len + 1 + k]);
        }
    }
    let after = j + 1 + val_len;
    if q == kvs.len() - 1 {
        assert(after == i + l);
        assert(s[after] == 125);
        lemma_parse_emit_value(kv.1, s, j + 1);
        assert(seq![(kv.0, kv.1)] =~= kvs.subrange(q, kvs.len() as int));
        assert((kv.0, kv.1) == kv);
    } else {
        assert(whole[e0] == 44);
        assert(s[i + e0] == whole[e0]);
        assert(s[after] == 44);
        lemma_parse_emit_value(kv.1, s, j + 1);
        let tail = emit_members(kvs, q + 1);
        assert(s.subrange(after + 1, after + 1 + tail.len()) =~= tail) by {
            assert forall|k: int| 0 <= k < tail.len() implies s.subrange(
                after + 1,
                after + 1 + tail.len(),
            )[k] == tail[k] by {
                assert(whole[e0 + 1 + k] == tail[k]);
                assert(s[i + (e0 + 1 + k)] == whole[e0 + 1 + k]);
            }
        }
        assert(s[after + 1 + tail.len()] == 125);
        lemma_parse_emit_members(kvs, q + 1, s, after + 1);
        assert(seq![(kv.0, kv.1)] + kvs.subrange(q + 1, kvs.len() as int) =~= kvs.subrange(
            q,
            kvs.len() as int,
        ));
        assert((kv.0, kv.1) == kv);
    }
}

/// The parser is the emitter's exact inverse: parsing the serialized
/// form of any well-formed value yields that value.
pub proof fn lemma_parse_emit(v: JsonVal)
    requires
        json_wf(v),
    ensures
        sp_message(emit(v)) == Some(v),
{
    let s = emit(v);
    assert(s.subrange(0, s.len() as int) =~= s);
    lemma_parse_emit_value(v, s, 0);
}

proof fn lemma_esc_snoc(a: Seq<u8>, b: u8)
    ensures
        esc(a.push(b)) == esc(a) + esc_byte(b),
    decreases a.len(),
{
    if a.len() == 0 {
        reveal_with_fuel(esc, 2);
        assert(a.push(b)[0] == b);
        assert(a.push(b).drop_first() =~= Seq::<u8>::empty());
        assert(esc(a.push(b)) =~= esc(a) + esc_byte(b));
    } else {
        assert(a.push(b)[0] == a[0]);
        assert(a.push(b).drop_first() =~= a.drop_first().push(b));
        lemma_esc_snoc(a.drop_first(), b);
        assert(esc_byte(a[0]) + (esc(a.drop_first()) + esc_byte(b)) =~= (esc_byte(a[0]) + esc(
            a.drop_first(),
        )) + esc_byte(b));
    }
}

/// Appends the quoted, escaped form of the string body `s` to `out`.
fn write_string_lit(s: &Vec<u8>, out: &mut Vec<u8>)
    ensures
        final(out)@ == old(out)@ + string_lit(s@),
{
    out.push(34);
    let mut i: usize = 0;
    while i < s.len()
        invariant
            0 <= i <= s@.len(),
            out@ == old(out)@ + seq![34u8] + esc(s@.subrange(0, i as int)),
        decreases s@.len() - i,
    {
        let ghost pre = s@.subrange(0, i as int);
        let b = s[i];
        if b == 34 {
            out.push(92);
            out.push(34);
        } else if b == 92 {
            out.push(92);
            out.push(92);
        } else if b == 10 {
            out.push(92);
            out.push(110);
        } else if b == 13 {
            out.push(92);
            out.push(114);
        } else if b == 9 {
            out.push(92);
            out.push(116);
        } else {
            out.push(b);
        }
        proof {
            lemma_esc_snoc(pre, b);
            assert(s@.subrange(0, i + 1) =~= pre.push(b));
            assert(out@ =~= old(out)@ + seq![34u8] + esc(s@.subrange(0, i + 1)));
        }
        i = i + 1;
    }
    out.push(34);
    proof {
        assert(s@.subrange(0, s@.len() as int) =~= s@);
        assert(out@ =~= old(out)@ + string_lit(s@));
    }
}

/// Appends the serialized form of `v` to `out`.
pub fn write_json(v: &Json, out: &mut Vec<u8>)
    ensures
        final(out)@ == old(out)@ + emit(v@),
    decreases v, 0int, 0int,
{
    match v {
        Json::Null => {
            out.push(110);
            out.push(117);
            out.push(108);
            out.push(108);
            assert(out@ =~= old(out)@ + emit(v@));
        },
        Json::Bool(b) => {
            if *b {
                out.push(116);
                out.push(114);
                out.push(117);
                out.push(101);
            } else {
                out.push(102);
                out.push(97);
                out.push(108);
                out.push(115);
                out.push(101);
            }
            assert(out@ =~= old(out)@ + emit(v@));
        },
        Json::UInt(n) => {
            push_dec(out, *n);
        },
        Json::NegInt(n) => {
            out.push(45);
            let ghost mid = out@;
            push_dec(out, *n);
            assert(out@ =~= old(out)@ + emit(v@));
        },
        Json::Str(s) => {
            write_string_lit(s, out);
        },
        Json::Arr(vs) => {
            out.push(91);
            let ghost mid = out@;
            if vs.len() > 0 {
                write_list(vs, 0, out);
            } else {
                proof {
                    assert(emit_items(view_list(*vs, 0), 0) =~= Seq::<u8>::empty());
                }
            }
            out.push(93);
            proof {
                lemma_view_list_len(*vs, 0);
                assert(out@ =~= old(out)@ + emit(v@));
            }
        },
        Json::Obj(kvs) => {
            out.push(123);
            if kvs.len() > 0 {
                write_members(kvs, 0, out);
            } else {
                proof {
                    assert(emit_members(view_members(*kvs, 0), 0) =~= Seq::<u8>::empty());
                }
            }
            out.push(125);
            proof {
                lemma_view_members_len(*kvs, 0);
                assert(out@ =~= old(out)@ + emit(v@));
            }
        },
    }
}

/// Appends the elements of `vs` from `from` on, separated by commas.
fn write_list(vs: &Vec<Json>, from: usize, out: &mut Vec<u8>)
    requires
        from < vs@.len(),
    ensures
        final(out)@ == old(out)@ + emit_items(view_list(*vs, 0), from as int),
    decreases vs, vs@.len() - from, 1int,
{
    proof {
        lemma_view_list_index(*vs, 0, from as int);
    }
    write_json(&vs[from], out);
    if from + 1 < vs.len() {
        out.push(44);
        let ghost mid = out@;
        write_list(vs, from + 1, out);
        proof {
            lemma_view_list_len(*vs, 0);
            assert(out@ =~= old(out)@ + emit_items(view_list(*vs, 0), from as int));
        }
    } else {
        proof {
            lemma_view_list_len(*vs, 0);
            assert(out@ =~= old(out)@ + emit_items(view_list(*vs, 0), from as int));
        }
    }
}

/// Appends the members of `kvs` from `from` on, separated by commas.
fn write_members(kvs: &Vec<(Vec<u8>, Json)>, from: usize, out: &mut Vec<u8>)
    requires
        from < kvs@.len(),
    ensures
        final(out)@ == old(out)@ + emit_members(view_members(*kvs, 0), from as int),
    decreases kvs, kvs@.len() - from, 1int,
{
    proof {
        lemma_view_members_index(*kvs, 0, from as int);
    }
    write_member(&kvs[from], out);
    if from + 1 < kvs.len() {
        out.push(44);
        write_members(kvs, from + 1, out);
        proof {
            lemma_view_members_len(*kvs, 0);
            assert(out@ =~= old(out)@ + emit_members(view_members(*kvs, 0), from as int));
        }
    } else {
        proof {
            lemma_view_members_len(*kvs, 0);
            assert(out@ =~= old(out)@ + emit_members(view_members(*kvs, 0), from as int));
        }
    }
}

/// Appends one serialized object member to `out`.
fn write_member(kv: &(Vec<u8>, Json), out: &mut Vec<u8>)
    ensures
        final(out)@ == old(out)@ + emit_member(view_member(*kv)),
    decreases kv, 0int, 0int,
{
    write_string_lit(&kv.0, out);
    out.push(58);
    let ghost mid = out@;
    write_json(&kv.1, out);
    proof {
        assert(out@ =~= old(out)@ + emit_member(view_member(*kv)));
    }
}

/// Serializes one JSON value.
pub fn encode_json(v: &Json) -> (r: Vec<u8>)
    ensures
        r@ == emit(v@),
{
    let mut out: Vec<u8> = Vec::new();
    write_json(v, &mut out);
    proof {
        assert(Seq::<u8>::empty() + emit(v@) =~= emit(v@));
    }
    out
}

proof fn lemma_view_list_push(v1: Vec<Json>, v2: Vec<Json>, x: Json)
    requires
        v2@ == v1@.push(x),
    ensures
        view_list(v2, 0) == view_list(v1, 0).push(json_view(x)),
{
    lemma_view_list_len(v1, 0);
    lemma_view_list_len(v2, 0);
    assert(view_list(v2, 0) =~= view_list(v1, 0).push(json_view(x))) by {
        assert forall|k: int| 0 <= k < v2@.len() implies view_list(v2, 0)[k] == view_list(
            v1,
            0,
        ).push(json_view(x))[k] by {
            lemma_view_list_index(v2, 0, k);
            if k < v1@.len() {
                lemma_view_list_index(v1, 0, k);
                assert(v2@[k] == v1@[k]);
            } else {
                assert(v2@[k] == x);
            }
        }
    }
}

proof fn lemma_view_members_push(v1: Vec<(Vec<u8>, Json)>, v2: Vec<(Vec<u8>, Json)>, x: (
    Vec<u8>,
    Json,
))
    requires
        v2@ == v1@.push(x),
    ensures
        view_members(v2, 0) == view_members(v1, 0).push(view_member(x)),
{
    lemma_view_members_len(v1, 0);
    lemma_view_members_len(v2, 0);
    assert(view_members(v2, 0) =~= view_members(v1, 0).push(view_member(x))) by {
        assert forall|k: int| 0 <= k < v2@.len() implies view_members(v2, 0)[k] == view_members(
            v1,
            0,
        ).push(view_member(x))[k] by {
            lemma_view_members_index(v2, 0, k);
            if k < v1@.len() {
                lemma_view_members_index(v1, 0, k);
                assert(v2@[k] == v1@[k]);
            } else {
                assert(v2@[k] == x);
            }
        }
    }
}

spec fn str_progress(s: Seq<u8>, start: int, p: int, got: Seq<u8>) -> bool {
    match sp_str_rest(s, p) {
        Some(pr) => sp_str_rest(s, start) == Some((got + pr.0, pr.1)),
        None => sp_str_rest(s, start) is None,
    }
}

/// Collects the rest of a string literal after its opening quote.
fn parse_str_rest(s: &Vec<u8>, start: usize) -> (r: Option<(Vec<u8>, usize)>)
    requires
        start <= s@.len(),
    ensures
        match r {
            Some(p) => sp_str_rest(s@, start as int) == Some((p.0@, p.1 as int)) && start < p.1
                <= s@.len(),
            None => sp_str_rest(s@, start as int) is None,
        },
{
    let mut content: Vec<u8> = Vec::new();
    let mut p = start;
    proof {
        match sp_str_rest(s@, p as int) {
            Some(pr) => {
                assert(Seq::<u8>::empty() + pr.0 =~= pr.0);
            },
            None => {},
        }
    }
    loop
        invariant
            start <= p <= s@.len(),
            str_progress(s@, start as int, p as int, content@),
        decreases s@.len() - p,
    {
        if p >= s.len() {
            return None;
        }
        let b = s[p];
        if b == 34 {
            proof {
                assert(sp_str_rest(s@, p as int) == Some((Seq::<u8>::empty(), p + 1)));
                assert(content@ + Seq::<u8>::empty() =~= content@);
            }
            return Some((content, p + 1));
        } else if b == 92 {
            if p + 1 >= s.len() {
                return None;
            }
            let c = s[p + 1];
            let u: u8 = if c == 34 {
                34
            } else if c == 92 {
                92
            } else if c == 47 {
                47
            } else if c == 98 {
                8
            } else if c == 102 {
                12
            } else if c == 110 {
                10
            } else if c == 114 {
                13
            } else if c == 116 {
                9
            } else {
                return None;
            };
            let ghost prev = content@;
            content.push(u);
            proof {
                assert(unescape(c) == Some(u));
                match sp_str_rest(s@, p + 2) {
                    Some(pr) => {
                        assert(sp_str_rest(s@, p as int) == Some((seq![u] + pr.0, pr.1)));
                        assert(prev + (seq![u] + pr.0) =~= content@ + pr.0);
                    },
                    None => {},
                }
            }
            p = p + 2;
        } else {
            let ghost prev = content@;
            content.push(b);
            proof {
                match sp_str_rest(s@, p + 1) {
                    Some(pr) => {
                        assert(sp_str_rest(s@, p as int) == Some((seq![b] + pr.0, pr.1)));
                        assert(prev + (seq![b] + pr.0) =~= content@ + pr.0);
                    },
                    None => {},
                }
            }
            p = p + 1;
        }
    }
}

/// Scans a run of decimal digits: whether the value fits a `u64`, the
/// value when it does, and the end of the run.
fn parse_digits(s: &Vec<u8>, start: usize) -> (r: (bool, u64, usize))
    requires
        start <= s@.len(),
    ensures
        r.2 as int == sp_digits_end(s@, start as int),
        start <= r.2 <= s@.len(),
        r.0 ==> r.1 as nat == dec_val(s@.subrange(start as int, r.2 as int)) && dec_val(
            s@.subrange(start as int, r.2 as int),
        ) <= u64::MAX,
        !r.0 ==> dec_val(s@.subrange(start as int, r.2 as int)) > u64::MAX,
{
    let mut val: u64 = 0;
    let mut overflowed = false;
    let mut p = start;
    proof {
        assert(s@.subrange(start as int, start as int) =~= Seq::<u8>::empty());
    }
    while p < s.len() && s[p] >= 48 && s[p] <= 57
        invariant
            start <= p <= s@.len(),
            forall|k: int| start <= k < p ==> is_digit(s@[k]),
            !overflowed ==> val as nat == dec_val(s@.subrange(start as int, p as int)),
            overflowed ==> dec_val(s@.subrange(start as int, p as int)) > u64::MAX,
        decreases s@.len() - p,
    {
        let c = s[p];
        let d = c - 48;
        let ghost pre = s@.subrange(start as int, p as int);
        let ghost cur = s@.subrange(start as int, p + 1);
        proof {
            assert(cur.drop_last() =~= pre);
            assert(cur.last() == c);
            assert(dec_val(cur) == dec_val(pre) * 10 + d);
        }
        if !overflowed {
            if val <= (u64::MAX - d as u64) / 10 {
                proof {
                    assert(val * 10 <= u64::MAX - d);
                }
                val = val * 10 + d as u64;
            } else {
                proof {
                    assert(val * 10 + d > u64::MAX) by {
                        assert(val >= (u64::MAX - d as u64) / 10 + 1);
                    }
                }
                overflowed = true;
            }
        } else {
            proof {
                assert(dec_val(cur) >= dec_val(pre));
            }
        }
        p = p + 1;
    }
    proof {
        lemma_sp_digits_end_pin(s@, start as int, p as int);
    }
    (!overflowed, val, p)
}

spec fn items_progress(s: Seq<u8>, start: int, p: int, got: Seq<JsonVal>) -> bool {
    match sp_items(s, p) {
        Some(pr) => sp_items(s, start) == Some((got + pr.0, pr.1)),
        None => sp_items(s, start) is None,
    }
}

spec fn members_progress(s: Seq<u8>, start: int, p: int, got: Seq<(Seq<u8>, JsonVal)>) -> bool {
    match sp_members(s, p) {
        Some(pr) => sp_members(s, start) == Some((got + pr.0, pr.1)),
        None => sp_members(s, start) is None,
    }
}

/// Parses one JSON value starting at `pos`, returning the value and the
/// index just past it, exactly as the specification parser does.
pub fn parse_value(s: &Vec<u8>, pos: usize) -> (r: Option<(Json, usize)>)
    ensures
        match r {
            Some(p) => sp_value(s@, pos as int) == Some((p.0@, p.1 as int)) && pos < p.1
                <= s@.len(),
            None => sp_value(s@, pos as int) is None,
        },
    decreases s@.len() - pos,
{
    if pos >= s.len() {
        return None;
    }
    let b = s[pos];
    if b == 110 {
        if s.len() - pos >= 4 && s[pos + 1] == 117 && s[pos + 2] == 108 && s[pos + 3] == 108 {
            return Some((Json::Null, pos + 4));
        } else {
            return None;
        }
    } else if b == 116 {
        if s.len() - pos >= 4 && s[pos + 1] == 114 && s[pos + 2] == 117 && s[pos + 3] == 101 {
            return Some((Json::Bool(true), pos + 4));
        } else {
            return None;
        }
    } else if b == 102 {
        if s.len() - pos >= 5 && s[pos + 1] == 97 && s[pos + 2] == 108 && s[pos + 3] == 115 && s[pos
            + 4] == 101 {
            return Some((Json::Bool(false), pos + 5));
        } else {
            return None;
        }
    } else if b == 34 {
        match parse_str_rest(s, pos + 1) {
            None => {
                return None;
            },
            Some((content, j)) => {
                return Some((Json::Str(content), j));
            },
        }
    } else if b == 45 {
        let (fits, val, e) = parse_digits(s, pos + 1);
        if e == pos + 1 {
            return None;
        }
        if !fits {
            return None;
        }
        if val == 0 {
            return None;
        }
        return Some((Json::NegInt(val), e));
    } else if b >= 48 && b <= 57 {
        let (fits, val, e) = parse_digits(s, pos);
        proof {
            assert(is_digit(s@[pos as int]));
            lemma_sp_digits_end_lb(s@, pos as int + 1);
            assert(sp_digits_end(s@, pos as int) == sp_digits_end(s@, pos as int + 1));
        }
        if !fits {
            return None;
        }
        return Some((Json::UInt(val), e));
    } else if b == 91 {
        if pos + 1 < s.len() && s[pos + 1] == 93 {
            let empty_arr: Vec<Json> = Vec::new();
            proof {
                assert(view_list(empty_arr, 0) =~= Seq::<JsonVal>::empty());
            }
            return Some((Json::Arr(empty_arr), pos + 2));
        }
        let mut items: Vec<Json> = Vec::new();
        let mut p = pos + 1;
        proof {
            match sp_items(s@, p as int) {
                Some(pr) => {
                    assert(view_list(items, 0) + pr.0 =~= pr.0);
                },
                None => {},
            }
        }
        loop
            invariant
                pos + 1 <= p <= s@.len(),
                pos < s@.len(),
                s@[pos as int] == 91,
                !(pos + 1 < s@.len() && s@[pos as int + 1] == 93),
                items_progress(s@, pos as int + 1, p as int, view_list(items, 0)),
            decreases s@.len() - p,
        {
            match parse_value(s, p) {
                None => {
                    return None;
                },
                Some((v, j)) => {
                    if j >= s.len() {
                        return None;
                    }
                    let c = s[j];
                    if c == 44 {
                        let ghost prev = items;
                        items.push(v);
                        proof {
                            lemma_view_list_push(prev, items, v);
                            match sp_items(s@, j as int + 1) {
                                Some(pr) => {
                                    assert(sp_items(s@, p as int) == Some(
                                        (seq![v@] + pr.0, pr.1),
                                    ));
                                    assert(view_list(prev, 0) + (seq![v@] + pr.0) =~= view_list(
                                        items,
                                        0,
                                    ) + pr.0);
                                },
                                None => {},
                            }
                        }
                        p = j + 1;
                    } else if c == 93 {
                        let ghost prev = items;
                        items.push(v);
                        proof {
                            lemma_view_list_push(prev, items, v);
                            assert(sp_items(s@, p as int) == Some((seq![v@], j + 1)));
                            assert(view_list(prev, 0) + seq![v@] =~= view_list(items, 0));
                        }
                        return Some((Json::Arr(items), j + 1));
                    } else {
                        return None;
                    }
                },
            }
        }
    } else if b == 123 {
        if pos + 1 < s.len() && s[pos + 1] == 125 {
            let empty_obj: Vec<(Vec<u8>, Json)> = Vec::new();
            proof {
                assert(view_members(empty_obj, 0) =~= Seq::<(Seq<u8>, JsonVal)>::empty());
            }
            return Some((Json::Obj(empty_obj), pos + 2));
        }
        let mut members: Vec<(Vec<u8>, Json)> = Vec::new();
        let mut p = pos + 1;
        proof {
            match sp_members(s@, p as int) {
                Some(pr) => {
                    assert(view_members(members, 0) + pr.0 =~= pr.0);
                },
                None => {},
            }
        }
        loop
            invariant
                pos + 1 <= p <= s@.len(),
                pos < s@.len(),
                s@[pos as int] == 123,
                !(pos + 1 < s@.len() && s@[pos as int + 1] == 125),
                members_progress(s@, pos as int + 1, p as int, view_members(members, 0)),
            decreases s@.len() - p,
        {
            if p >= s.len() {
                return None;
            }
            if s[p] != 34 {
                return None;
            }
            match parse_str_rest(s, p + 1) {
                None => {
                    return None;
                },
                Some((key, j)) => {
                    if j >= s.len() {
                        return None;
                    }
                    if s[j] != 58 {
                        return None;
                    }
                    match parse_value(s, j + 1) {
                        None => {
                            return None;
                        },
                        Some((v, k)) => {
                            if k >= s.len() {
                                return None;
                            }
                            let c = s[k];
                            if c == 44 {
                                let ghost prev = members;
                                let ghost gkey = key@;
                                members.push((key, v));
                                proof {
                                    lemma_view_members_push(prev, members, members@[members@.len()
                                        - 1]);
                                    match sp_members(s@, k as int + 1) {
                                        Some(pr) => {
                                            assert(sp_members(s@, p as int) == Some(
                                                (seq![(gkey, v@)] + pr.0, pr.1),
                                            ));
                                            assert(view_members(prev, 0) + (seq![(gkey, v@)]
                                                + pr.0) =~= view_members(members, 0) + pr.0);
                                        },
                                        None => {},
                                    }
                                }
                                p = k + 1;
                            } else if c == 125 {
                                let ghost prev = members;
                                let ghost gkey = key@;
                                members.push((key, v));
                                proof {
                                    lemma_view_members_push(prev, members, members@[members@.len()
                                        - 1]);
                                    assert(sp_members(s@, p as int) == Some(
                                        (seq![(gkey, v@)], k + 1),
                                    ));
                                    assert(view_members(prev, 0) + seq![(gkey, v@)] =~= view_members(
                                        members,
                                        0,
                                    ));
                                }
                                return Some((Json::Obj(members), k + 1));
                            } else {
                                return None;
                            }
                        },
                    }
                },
            }
        }
    } else {
        return None;
    }
}

/// Parses a complete message body, exactly as the specification parser
/// does.
pub fn parse_message(s: &Vec<u8>) -> (r: Option<Json>)
    ensures
        match r {
            Some(v) => sp_message(s@) == Some(v@),
            None => sp_message(s@) is None,
        },
{
    match parse_value(s, 0) {
        None => None,
        Some((v, j)) => if j == s.len() {
            Some(v)
        } else {
            None
        },
    }
}

/// The value of the last member of `ms` named `key`, if any: when a
/// writer repeats a key, the later member wins.
pub open spec fn lookup(ms: Seq<(Seq<u8>, JsonVal)>, key: Seq<u8>) -> Option<JsonVal>
    decreases ms.len(),
{
    if ms.len() == 0 {
        None
    } else if ms.last().0 == key {
        Some(ms.last().1)
    } else {
        lookup(ms.drop_last(), key)
    }
}

/// Compares two byte strings.
pub fn bytes_eq(a: &[u8], b: &[u8]) -> (r: bool)
    ensures
        r == (a@ == b@),
{
    if a.len() != b.len() {
        return false;
    }
    let mut i: usize = 0;
    while i < a.len()
        invariant
            0 <= i <= a@.len(),
            a@.len() == b@.len(),
            forall|j: int| 0 <= j < i ==> a@[j] == b@[j],
        decreases a@.len() - i,
    {
        if a[i] != b[i] {
            return false;
        }
        i = i + 1;
    }
    assert(a@ =~= b@);
    true
}

/// Looks a key up among an object's members; the last occurrence wins.
pub fn obj_get<'a>(fields: &'a Vec<(Vec<u8>, Json)>, key: &[u8]) -> (r: Option<&'a Json>)
    ensures
        match r {
            Some(v) => lookup(view_members(*fields, 0), key@) == Some(v@),
            None => lookup(view_members(*fields, 0), key@) is None,
        },
{
    proof {
        lemma_view_members_len(*fields, 0);
        assert(view_members(*fields, 0).subrange(0, fields@.len() as int) =~= view_members(
            *fields,
            0,
        ));
    }
    let mut i: usize = fields.len();
    while i > 0
        invariant
            0 <= i <= fields@.len(),
            lookup(view_members(*fields, 0), key@) == lookup(
                view_members(*fields, 0).subrange(0, i as int),
                key@,
            ),
        decreases i,
    {
        let ghost vm = view_members(*fields, 0);
        proof {
            lemma_view_members_len(*fields, 0);
            lemma_view_members_index(*fields, 0, i - 1);
            assert(vm.subrange(0, i as int).last() == vm[i - 1]);
        }
        if bytes_eq(fields[i - 1].0.as_slice(), key) {
            proof {
                assert(lookup(vm.subrange(0, i as int), key@) == Some(vm[i - 1].1));
            }
            return Some(&fields[i - 1].1);
        }
        proof {
            assert(vm.subrange(0, i as int).drop_last() =~= vm.subrange(0, i - 1));
        }
        i = i - 1;
    }
    proof {
        assert(view_members(*fields, 0).subrange(0, 0) =~= Seq::<(Seq<u8>, JsonVal)>::empty());
    }
    None
}

/// Every member model of `kvs` at once.
pub proof fn lemma_view_members_all(kvs: Vec<(Vec<u8>, Json)>)
    ensures
        view_members(kvs, 0).len() == kvs@.len(),
        forall|k: int|
            0 <= k < kvs@.len() ==> view_members(kvs, 0)[k] == view_member(#[trigger] kvs@[k]),
{
    lemma_view_members_len(kvs, 0);
    assert forall|k: int|
        0 <= k < kvs@.len() implies view_members(kvs, 0)[k] == view_member(#[trigger] kvs@[k]) by {
        lemma_view_members_index(kvs, 0, k);
    }
}

/// An object whose member values are each well formed is well formed.
pub proof fn lemma_wf_members_intro(ms: Seq<(Seq<u8>, JsonVal)>, i: int)
    requires
        0 <= i <= ms.len(),
        forall|k: int| i <= k < ms.len() ==> json_wf((#[trigger] ms[k]).1),
    ensures
        json_wf_members(ms, i),
    decreases ms.len() - i,
{
    if i < ms.len() {
        lemma_wf_members_intro(ms, i + 1);
        assert(json_wf((ms[i]).1));
        assert(json_wf_member(ms[i]));
    }
}

/// The framer and the value codec round-trip together: encode any
/// well-formed value as a frame, cut the frame into chunks wherever you
/// like, and a fresh decoder fed those chunks yields exactly one
/// payload — which parses back to the very value, with no framing
/// errors and the decoder fresh again.
pub proof fn lemma_decode_encode_round_trip(v: JsonVal, chunks: Seq<Seq<u8>>)
    requires
        json_wf(v),
        emit(v).len() <= usize::MAX,
        chunks.flatten() == crate::framer::frame_bytes(emit(v)),
    ensures
        crate::framer::feed_chunks(crate::framer::init_model(), chunks) == (
            crate::framer::init_model(),
            seq![emit(v)],
            0nat,
        ),
        sp_message(emit(v)) == Some(v),
{
    crate::framer::lemma_frame_chunked_round_trip(emit(v), chunks);
    lemma_parse_emit(v);
}

} // verus!
