//! JSON-RPC message construction and response reading.
//!
//! Outgoing requests and notifications are built as [`Json`] values
//! with an exact serialized form; incoming messages are classified by
//! shape — an integer `id` together with a `result` or an `error`
//! member makes a response — and a definition reply is normalized to
//! its first location, if it has one.

use vstd::prelude::*;

use crate::json::{
    lookup, obj_get, view_member, view_members, json_view, json_wf, json_wf_member,
    json_wf_members, lemma_view_members_index, lemma_view_members_len, Json, JsonVal,
};
use crate::text::ascii_bytes;

verus! {

/// The bytes of an ASCII character sequence.
pub open spec fn ascii_seq(s: Seq<char>) -> Seq<u8> {
    s.map_values(|c: char| c as u8)
}

/// The bytes of an ASCII string literal.
pub fn key_bytes(s: &str) -> (r: Vec<u8>)
    requires
        vstd::string::is_ascii(s),
    ensures
        r@ == ascii_seq(s@),
{
    let r = ascii_bytes(s);
    proof {
        assert(r@ =~= ascii_seq(s@));
    }
    r
}

/// A request: the protocol tag, the id, the method, the parameters.
pub open spec fn spec_request(id: u64, method: Seq<u8>, params: JsonVal) -> JsonVal {
    JsonVal::Obj(
        seq![
            (ascii_seq("jsonrpc"@), JsonVal::Str(ascii_seq("2.0"@))),
            (ascii_seq("id"@), JsonVal::UInt(id)),
            (ascii_seq("method"@), JsonVal::Str(method)),
            (ascii_seq("params"@), params),
        ],
    )
}

/// A notification: as a request, but carrying no id.
pub open spec fn spec_notification(method: Seq<u8>, params: JsonVal) -> JsonVal {
    JsonVal::Obj(
        seq![
            (ascii_seq("jsonrpc"@), JsonVal::Str(ascii_seq("2.0"@))),
            (ascii_seq("method"@), JsonVal::Str(method)),
            (ascii_seq("params"@), params),
        ],
    )
}

/// Builds the request message with the given id, method and parameters.
pub fn make_request(id: u64, method: &str, params: Json) -> (r: Json)
    requires
        vstd::string::is_ascii(method),
        json_wf(params@),
    ensures
        r@ == spec_request(id, ascii_seq(method@), params@),
        json_wf(r@),
{
    proof {
        reveal_strlit("jsonrpc");
        reveal_strlit("2.0");
        reveal_strlit("id");
        reveal_strlit("method");
        reveal_strlit("params");
    }
    let mut fields: Vec<(Vec<u8>, Json)> = Vec::new();
    fields.push((key_bytes("jsonrpc"), Json::Str(key_bytes("2.0"))));
    fields.push((key_bytes("id"), Json::UInt(id)));
    fields.push((key_bytes("method"), Json::Str(key_bytes(method))));
    fields.push((key_bytes("params"), params));
    let r = Json::Obj(fields);
    proof {
        lemma_members_concrete(r, id, ascii_seq(method@));
    }
    r
}

/// Builds the notification message with the given method and
/// parameters.
pub fn make_notification(method: &str, params: Json) -> (r: Json)
    requires
        vstd::string::is_ascii(method),
        json_wf(params@),
    ensures
        r@ == spec_notification(ascii_seq(method@), params@),
        json_wf(r@),
{
    proof {
        reveal_strlit("jsonrpc");
        reveal_strlit("2.0");
        reveal_strlit("method");
        reveal_strlit("params");
    }
    let mut fields: Vec<(Vec<u8>, Json)> = Vec::new();
    fields.push((key_bytes("jsonrpc"), Json::Str(key_bytes("2.0"))));
    fields.push((key_bytes("method"), Json::Str(key_bytes(method))));
    fields.push((key_bytes("params"), params));
    let r = Json::Obj(fields);
    proof {
        lemma_notification_concrete(r, ascii_seq(method@));
    }
    r
}

proof fn lemma_members_concrete(r: Json, id: u64, method: Seq<u8>)
    requires
        r matches Json::Obj(fields) && fields@.len() == 4 && view_member(fields@[0]) == (
            ascii_seq("jsonrpc"@),
            JsonVal::Str(ascii_seq("2.0"@)),
        ) && view_member(fields@[1]) == (ascii_seq("id"@), JsonVal::UInt(id)) && view_member(
            fields@[2],
        ) == (ascii_seq("method"@), JsonVal::Str(method)) && view_member(fields@[3]).0
            == ascii_seq("params"@) && json_wf(view_member(fields@[3]).1),
    ensures
        r@ == spec_request(id, method, view_member(r->Obj_0@[3]).1),
        json_wf(r@),
{
    let fields = r->Obj_0;
    reveal_with_fuel(view_members, 6);
    reveal_with_fuel(json_wf_members, 6);
    assert(view_members(fields, 0) =~= seq![
        view_member(fields@[0]),
        view_member(fields@[1]),
        view_member(fields@[2]),
        view_member(fields@[3]),
    ]);
    assert(json_wf_members(view_members(fields, 0), 0));
    assert(r@ == JsonVal::Obj(view_members(fields, 0)));
    assert(view_members(fields, 0) =~= spec_request(id, method, view_member(fields@[3]).1)->Obj_0);
}

proof fn lemma_notification_concrete(r: Json, method: Seq<u8>)
    requires
        r matches Json::Obj(fields) && fields@.len() == 3 && view_member(fields@[0]) == (
            ascii_seq("jsonrpc"@),
            JsonVal::Str(ascii_seq("2.0"@)),
        ) && view_member(fields@[1]) == (ascii_seq("method"@), JsonVal::Str(method)) && view_member(
            fields@[2],
        ).0 == ascii_seq("params"@) && json_wf(view_member(fields@[2]).1),
    ensures
        r@ == spec_notification(method, view_member(r->Obj_0@[2]).1),
        json_wf(r@),
{
    let fields = r->Obj_0;
    reveal_with_fuel(view_members, 5);
    reveal_with_fuel(json_wf_members, 5);
    assert(view_members(fields, 0) =~= seq![
        view_member(fields@[0]),
        view_member(fields@[1]),
        view_member(fields@[2]),
    ]);
    assert(json_wf_members(view_members(fields, 0), 0));
    assert(view_members(fields, 0) =~= spec_notification(method, view_member(fields@[2]).1)->Obj_0);
}

/// An empty JSON object, often the parameter list of a bare request.
pub fn empty_object() -> (r: Json)
    ensures
        r@ == JsonVal::Obj(Seq::empty()),
        json_wf(r@),
{
    let fields: Vec<(Vec<u8>, Json)> = Vec::new();
    let r = Json::Obj(fields);
    proof {
        assert(view_members(r->Obj_0, 0) =~= Seq::<(Seq<u8>, JsonVal)>::empty());
    }
    r
}

/// What an incoming response resolves its request with.
#[derive(Debug)]
pub enum RequestOutcome {
    /// The server's `result` payload.
    Success(Json),
    /// The server's `error` payload.
    RemoteError(Json),
    /// No reply will come: the client was shut down or its stream
    /// closed; the text names the reason.
    Cancelled(String),
}

/// The model of a request outcome.
pub enum OutcomeVal {
    Success(JsonVal),
    RemoteError(JsonVal),
    Cancelled(Seq<char>),
}

impl View for RequestOutcome {
    type V = OutcomeVal;

    open spec fn view(&self) -> OutcomeVal {
        match self {
            RequestOutcome::Success(j) => OutcomeVal::Success(json_view(*j)),
            RequestOutcome::RemoteError(j) => OutcomeVal::RemoteError(json_view(*j)),
            RequestOutcome::Cancelled(s) => OutcomeVal::Cancelled(s@),
        }
    }
}

/// The response carried by a message body, if it has a response shape:
/// an object with an integer `id` and a `result` or an `error` member.
/// `result` wins when a confused writer sends both.
pub open spec fn spec_response_of(body: Seq<u8>) -> Option<(u64, OutcomeVal)> {
    match crate::json::sp_message(body) {
        Some(v) => match v {
            JsonVal::Obj(ms) => match lookup(ms, ascii_seq("id"@)) {
                Some(idv) => match idv {
                    JsonVal::UInt(id) => match lookup(ms, ascii_seq("result"@)) {
                        Some(res) => Some((id, OutcomeVal::Success(res))),
                        None => match lookup(ms, ascii_seq("error"@)) {
                            Some(e) => Some((id, OutcomeVal::RemoteError(e))),
                            None => None,
                        },
                    },
                    _ => None,
                },
                None => None,
            },
            _ => None,
        },
        None => None,
    }
}

/// Finds the last member named `key` and moves its value out.
fn take_field(fields: &mut Vec<(Vec<u8>, Json)>, key: &[u8]) -> (r: Option<Json>)
    ensures
        match r {
            Some(v) => lookup(view_members(*old(fields), 0), key@) == Some(v@),
            None => lookup(view_members(*old(fields), 0), key@) is None,
        },
        r is None ==> *final(fields) == *old(fields),
{
    proof {
        lemma_view_members_len(*fields, 0);
        assert(view_members(*fields, 0).subrange(0, fields@.len() as int) =~= view_members(
            *fields,
            0,
        ));
    }
    let mut i: usize = fields.len();
    while i > 0
        invariant
            0 <= i <= fields@.len(),
            *fields == *old(fields),
            lookup(view_members(*fields, 0), key@) == lookup(
                view_members(*fields, 0).subrange(0, i as int),
                key@,
            ),
        decreases i,
    {
        let ghost vm = view_members(*fields, 0);
        proof {
            lemma_view_members_len(*fields, 0);
            lemma_view_members_index(*fields, 0, i - 1);
            assert(vm.subrange(0, i as int).last() == vm[i - 1]);
        }
        if crate::json::bytes_eq(fields[i - 1].0.as_slice(), key) {
            proof {
                assert(lookup(vm.subrange(0, i as int), key@) == Some(vm[i - 1].1));
            }
            let pair = fields.remove(i - 1);
            return Some(pair.1);
        }
        proof {
            assert(vm.subrange(0, i as int).drop_last() =~= vm.subrange(0, i - 1));
        }
        i = i - 1;
    }
    proof {
        assert(view_members(*old(fields), 0).subrange(0, 0) =~= Seq::<(Seq<u8>, JsonVal)>::empty());
    }
    None
}

/// Classifies one decoded message body: its response, or nothing when
/// it is not a response — a notification, a server-initiated request,
/// or an unparseable body.
pub fn response_of(body: &Vec<u8>) -> (r: Option<(u64, RequestOutcome)>)
    ensures
        match r {
            Some(p) => spec_response_of(body@) == Some((p.0, p.1@)),
            None => spec_response_of(body@) is None,
        },
{
    proof {
        reveal_strlit("id");
        reveal_strlit("result");
        reveal_strlit("error");
    }
    match crate::json::parse_message(body) {
        None => None,
        Some(msg) => match msg {
            Json::Obj(fields) => {
                let mut fields = fields;
                let ghost ms = view_members(fields, 0);
                let id_key = key_bytes("id");
                let id: u64 = match obj_get(&fields, id_key.as_slice()) {
                    Some(v) => match v {
                        Json::UInt(n) => *n,
                        _ => {
                            return None;
                        },
                    },
                    None => {
                        return None;
                    },
                };
                let res_key = key_bytes("result");
                match take_field(&mut fields, res_key.as_slice()) {
                    Some(res) => Some((id, RequestOutcome::Success(res))),
                    None => {
                        let err_key = key_bytes("error");
                        match take_field(&mut fields, err_key.as_slice()) {
                            Some(e) => Some((id, RequestOutcome::RemoteError(e))),
                            None => None,
                        }
                    },
                }
            },
            _ => None,
        },
    }
}

/// A position in a document: zero-based line and column.
#[derive(Clone, Copy, PartialEq, Eq, Structural, Debug)]
pub struct Position {
    pub line: u32,
    pub character: u32,
}

/// A span in a document.
#[derive(Clone, Copy, PartialEq, Eq, Structural, Debug)]
pub struct LocationRange {
    pub start: Position,
    pub end: Position,
}

/// A place in a document: its URI and the span pointed at.
#[derive(Clone, PartialEq, Eq, Debug)]
pub struct Location {
    pub uri: Vec<u8>,
    pub range: LocationRange,
}

/// The `u32` a JSON value holds, if it is one.
pub open spec fn spec_u32(v: JsonVal) -> Option<u32> {
    match v {
        JsonVal::UInt(n) => if n <= u32::MAX {
            Some(n as u32)
        } else {
            None
        },
        _ => None,
    }
}

/// The position an object describes, if it is position-shaped.
pub open spec fn spec_position(v: JsonVal) -> Option<Position> {
    match v {
        JsonVal::Obj(ms) => match (lookup(ms, ascii_seq("line"@)), lookup(
            ms,
            ascii_seq("character"@),
        )) {
            (Some(lv), Some(cv)) => match (spec_u32(lv), spec_u32(cv)) {
                (Some(line), Some(character)) => Some(Position { line, character }),
                _ => None,
            },
            _ => None,
        },
        _ => None,
    }
}

/// The range an object describes, if it is range-shaped.
pub open spec fn spec_range(v: JsonVal) -> Option<LocationRange> {
    match v {
        JsonVal::Obj(ms) => match (lookup(ms, ascii_seq("start"@)), lookup(
            ms,
            ascii_seq("end"@),
        )) {
            (Some(sv), Some(ev)) => match (spec_position(sv), spec_position(ev)) {
                (Some(start), Some(end)) => Some(LocationRange { start, end }),
                _ => None,
            },
            _ => None,
        },
        _ => None,
    }
}

/// The location an object describes, if it is location-shaped.
pub open spec fn spec_location(v: JsonVal) -> Option<(Seq<u8>, LocationRange)> {
    match v {
        JsonVal::Obj(ms) => match (lookup(ms, ascii_seq("uri"@)), lookup(
            ms,
            ascii_seq("range"@),
        )) {
            (Some(uv), Some(rv)) => match uv {
                JsonVal::Str(u) => match spec_range(rv) {
                    Some(range) => Some((u, range)),
                    None => None,
                },
                _ => None,
            },
            _ => None,
        },
        _ => None,
    }
}

/// A definition reply normalized to "first location, or none": a single
/// location wins, then a non-empty array whose members are all
/// locations; anything else — `null` included — is none.
pub open spec fn spec_first_location(v: JsonVal) -> Option<(Seq<u8>, LocationRange)> {
    if spec_location(v) is Some {
        spec_location(v)
    } else {
        match v {
            JsonVal::Arr(vs) => if vs.len() > 0 && (forall|k: int|
                0 <= k < vs.len() ==> spec_location(#[trigger] vs[k]) is Some) {
                spec_location(vs[0])
            } else {
                None
            },
            _ => None,
        }
    }
}

fn parse_u32(v: &Json) -> (r: Option<u32>)
    ensures
        r == spec_u32(v@),
{
    match v {
        Json::UInt(n) => if *n <= 0xffff_ffff {
            Some(*n as u32)
        } else {
            None
        },
        _ => None,
    }
}

fn parse_position(v: &Json) -> (r: Option<Position>)
    ensures
        r == spec_position(v@),
{
    proof {
        reveal_strlit("line");
        reveal_strlit("character");
    }
    match v {
        Json::Obj(fields) => {
            let line_key = key_bytes("line");
            let ch_key = key_bytes("character");
            let lv = match obj_get(fields, line_key.as_slice()) {
                Some(x) => x,
                None => {
                    return None;
                },
            };
            let cv = match obj_get(fields, ch_key.as_slice()) {
                Some(x) => x,
                None => {
                    return None;
                },
            };
            match (parse_u32(lv), parse_u32(cv)) {
                (Some(line), Some(character)) => Some(Position { line, character }),
                _ => None,
            }
        },
        _ => None,
    }
}

fn parse_range(v: &Json) -> (r: Option<LocationRange>)
    ensures
        r == spec_range(v@),
{
    proof {
        reveal_strlit("start");
        reveal_strlit("end");
    }
    match v {
        Json::Obj(fields) => {
            let start_key = key_bytes("start");
            let end_key = key_bytes("end");
            let sv = match obj_get(fields, start_key.as_slice()) {
                Some(x) => x,
                None => {
                    return None;
                },
            };
            let ev = match obj_get(fields, end_key.as_slice()) {
                Some(x) => x,
                None => {
                    return None;
                },
            };
            match (parse_position(sv), parse_position(ev)) {
                (Some(start), Some(end)) => Some(LocationRange { start, end }),
                _ => None,
            }
        },
        _ => None,
    }
}

fn parse_location(v: &Json) -> (r: Option<Location>)
    ensures
        match r {
            Some(loc) => spec_location(v@) == Some((loc.uri@, loc.range)),
            None => spec_location(v@) is None,
        },
{
    proof {
        reveal_strlit("uri");
        reveal_strlit("range");
    }
    match v {
        Json::Obj(fields) => {
            let uri_key = key_bytes("uri");
            let range_key = key_bytes("range");
            let uv = match obj_get(fields, uri_key.as_slice()) {
                Some(x) => x,
                None => {
                    return None;
                },
            };
            let rv = match obj_get(fields, range_key.as_slice()) {
                Some(x) => x,
                None => {
                    return None;
                },
            };
            let uri: Vec<u8> = match uv {
                Json::Str(u) => vstd::slice::slice_to_vec(u.as_slice()),
                _ => {
                    return None;
                },
            };
            match parse_range(rv) {
                Some(range) => Some(Location { uri, range }),
                None => None,
            }
        },
        _ => None,
    }
}

/// Normalizes a definition reply to its first location, or none.
pub fn definition_location(v: &Json) -> (r: Option<Location>)
    ensures
        match r {
            Some(loc) => spec_first_location(v@) == Some((loc.uri@, loc.range)),
            None => spec_first_location(v@) is None,
        },
{
    match parse_location(v) {
        Some(loc) => {
            return Some(loc);
        },
        None => {},
    }
    match v {
        Json::Arr(vs) => {
            if vs.len() == 0 {
                proof {
                    crate::json::lemma_view_list_len(*vs, 0);
                }
                return None;
            }
            let mut first: Option<Location> = None;
            let mut k: usize = 0;
            proof {
                crate::json::lemma_view_list_len(*vs, 0);
            }
            while k < vs.len()
                invariant
                    0 <= k <= vs@.len(),
                    vs@.len() > 0,
                    spec_location(v@) is None,
                    v@ == JsonVal::Arr(crate::json::view_list(*vs, 0)),
                    crate::json::view_list(*vs, 0).len() == vs@.len(),
                    forall|j: int|
                        0 <= j < k ==> spec_location(
                            #[trigger] crate::json::view_list(*vs, 0)[j],
                        ) is Some,
                    k > 0 ==> (first matches Some(loc) && spec_location(
                        crate::json::view_list(*vs, 0)[0],
                    ) == Some((loc.uri@, loc.range))),
                    k == 0 ==> first is None,
                decreases vs@.len() - k,
            {
                proof {
                    crate::json::lemma_view_list_index(*vs, 0, k as int);
                }
                match parse_location(&vs[k]) {
                    None => {
                        return None;
                    },
                    Some(loc) => {
                        if k == 0 {
                            first = Some(loc);
                        }
                    },
                }
                k = k + 1;
            }
            first
        },
        _ => None,
    }
}

} // verus!
