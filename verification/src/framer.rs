//! Length-prefixed message framing over a raw byte stream.
//!
//! A frame is a header line `Content-Length: <N>` terminated by CRLF, a
//! blank CRLF line, and then exactly `N` bytes of payload.  The payload
//! is consumed as a fixed-length byte span, never by scanning for line
//! ends, so a payload may itself contain newline or carriage-return
//! bytes.  The decoder is an incremental state machine: it accepts
//! chunks cut at arbitrary boundaries and yields each payload as soon as
//! its frame completes; a malformed header line is reported as one
//! recoverable error and resets the framing state.

use vstd::prelude::*;

use crate::text::ascii_bytes;

verus! {

pub const CR: u8 = 13;

pub const LF: u8 = 10;

/// `b` is an ASCII decimal digit.
pub open spec fn is_digit(b: u8) -> bool {
    48 <= b <= 57
}

/// `b` is an ASCII space or horizontal tab.
pub open spec fn is_sp(b: u8) -> bool {
    b == 32 || b == 9
}

/// The decimal digits of `n`, most significant first.
pub open spec fn dec_rep(n: nat) -> Seq<u8>
    decreases n,
{
    if n < 10 {
        seq![(48 + n) as u8]
    } else {
        dec_rep(n / 10).push((48 + n % 10) as u8)
    }
}

/// The value of a digit sequence, most significant first.
pub open spec fn dec_val(s: Seq<u8>) -> nat
    decreases s.len(),
{
    if s.len() == 0 {
        0
    } else {
        (dec_val(s.drop_last()) * 10 + (s.last() - 48)) as nat
    }
}

/// Every byte of `s` is a decimal digit.
pub open spec fn all_digits(s: Seq<u8>) -> bool {
    forall|i: int| 0 <= i < s.len() ==> is_digit(s[i])
}

pub proof fn lemma_dec_rep_digits(n: nat)
    ensures
        dec_rep(n).len() >= 1,
        all_digits(dec_rep(n)),
        dec_val(dec_rep(n)) == n,
    decreases n,
{
    if n < 10 {
        reveal_with_fuel(dec_val, 2);
        let s = seq![(48 + n) as u8];
        assert(s.drop_last() =~= Seq::<u8>::empty());
        assert(dec_val(s) == n);
    } else {
        lemma_dec_rep_digits(n / 10);
        let d = (48 + n % 10) as u8;
        let r = dec_rep(n / 10).push(d);
        assert(r.drop_last() =~= dec_rep(n / 10));
        assert(r.last() == d);
        assert(forall|i: int|
            0 <= i < r.len() ==> is_digit(
                #[trigger] r[i],
            )) by {
            assert(forall|i: int| 0 <= i < r.len() - 1 ==> r[i] == dec_rep(n / 10)[i]);
        }
    }
}

/// The bytes of the header name `Content-Length:`.
pub open spec fn header_name() -> Seq<u8> {
    "Content-Length:"@.map_values(|c: char| c as u8)
}

/// The header line announcing a payload of `n` bytes, without its CRLF.
pub open spec fn header_line(n: nat) -> Seq<u8> {
    header_name() + seq![32u8] + dec_rep(n)
}

/// The full frame carrying `body`.
pub open spec fn frame_bytes(body: Seq<u8>) -> Seq<u8> {
    header_line(body.len()) + seq![CR, LF, CR, LF] + body
}

/// The first index at or after `i` that does not hold a space or tab.
pub open spec fn sp_end(s: Seq<u8>, i: int) -> int
    decreases s.len() - i,
{
    if 0 <= i < s.len() && is_sp(s[i]) {
        sp_end(s, i + 1)
    } else {
        i
    }
}

/// The start of the space-and-tab run that ends at `j`.
pub open spec fn sp_back(s: Seq<u8>, j: int) -> int
    decreases j,
{
    if 0 < j <= s.len() && is_sp(s[j - 1]) {
        sp_back(s, j - 1)
    } else {
        j
    }
}

proof fn lemma_sp_end(s: Seq<u8>, start: int, j: int)
    requires
        0 <= start <= j <= s.len(),
        forall|k: int| start <= k < j ==> is_sp(s[k]),
        j < s.len() ==> !is_sp(s[j]),
    ensures
        sp_end(s, start) == j,
    decreases j - start,
{
    if start < j {
        assert(is_sp(s[start]));
        lemma_sp_end(s, start + 1, j);
    }
}

proof fn lemma_sp_back(s: Seq<u8>, j: int, end: int)
    requires
        0 <= j <= end <= s.len(),
        forall|k: int| j <= k < end ==> is_sp(s[k]),
        j > 0 ==> !is_sp(s[j - 1]),
    ensures
        sp_back(s, end) == j,
    decreases end - j,
{
    if j < end {
        assert(is_sp(s[end - 1]));
        lemma_sp_back(s, j, end - 1);
    }
}

/// The payload length announced by a complete header line, if the line
/// is well formed: the header name, then a decimal number surrounded by
/// optional spaces or tabs, whose value fits a `usize`.
pub open spec fn parse_content_length(line: Seq<u8>) -> Option<nat> {
    if line.len() < 15 || line.subrange(0, 15) != header_name() {
        None
    } else {
        let a = sp_end(line, 15);
        let b = sp_back(line, line.len() as int);
        if a >= b {
            None
        } else {
            let num = line.subrange(a, b);
            if all_digits(num) && dec_val(num) <= usize::MAX {
                Some(dec_val(num))
            } else {
                None
            }
        }
    }
}

/// The decoder's abstract state: collecting a header line, or collecting
/// the announced number of payload bytes.
pub enum DecoderModel {
    Header { line: Seq<u8>, expect: Option<nat> },
    Body { need: nat, got: Seq<u8> },
}

/// The state of a decoder that has seen no bytes of a frame.
pub open spec fn init_model() -> DecoderModel {
    DecoderModel::Header { line: Seq::empty(), expect: None }
}

/// One byte of input: the next state, the payload completed by this
/// byte, if any, and how many framing errors the byte caused (0 or 1).
pub open spec fn step_byte(m: DecoderModel, b: u8) -> (DecoderModel, Option<Seq<u8>>, nat) {
    match m {
        DecoderModel::Header { line, expect } => {
            let l2 = line.push(b);
            if l2.len() >= 2 && l2[l2.len() - 2] == CR && l2[l2.len() - 1] == LF {
                let content = l2.subrange(0, l2.len() - 2);
                if content.len() == 0 {
                    match expect {
                        Some(n) => if n == 0 {
                            (init_model(), Some(Seq::empty()), 0)
                        } else {
                            (DecoderModel::Body { need: n, got: Seq::empty() }, None, 0)
                        },
                        None => (init_model(), None, 1),
                    }
                } else {
                    match parse_content_length(content) {
                        Some(n) => (
                            DecoderModel::Header { line: Seq::empty(), expect: Some(n) },
                            None,
                            0,
                        ),
                        None => (init_model(), None, 1),
                    }
                }
            } else {
                (DecoderModel::Header { line: l2, expect }, None, 0)
            }
        },
        DecoderModel::Body { need, got } => {
            let g2 = got.push(b);
            if g2.len() >= need {
                (init_model(), Some(g2), 0)
            } else {
                (DecoderModel::Body { need, got: g2 }, None, 0)
            }
        },
    }
}

/// The sequence wrapping of an optional payload.
pub open spec fn opt_msg(e: Option<Seq<u8>>) -> Seq<Seq<u8>> {
    match e {
        Some(x) => seq![x],
        None => Seq::empty(),
    }
}

/// Feeding `bs` byte by byte: the final state, every payload completed,
/// and the number of framing errors.
pub open spec fn feed_bytes(m: DecoderModel, bs: Seq<u8>) -> (DecoderModel, Seq<Seq<u8>>, nat)
    decreases bs.len(),
{
    if bs.len() == 0 {
        (m, Seq::empty(), 0)
    } else {
        let s1 = step_byte(m, bs[0]);
        let rest = feed_bytes(s1.0, bs.drop_first());
        (rest.0, opt_msg(s1.1) + rest.1, s1.2 + rest.2)
    }
}

/// What the decoder does with a byte stream depends only on the bytes,
/// not on how they are cut into chunks: feeding a concatenation equals
/// feeding its parts in order.
pub proof fn lemma_feed_bytes_concat(m: DecoderModel, a: Seq<u8>, b: Seq<u8>)
    ensures
        ({
            let first = feed_bytes(m, a);
            let second = feed_bytes(first.0, b);
            feed_bytes(m, a + b) == (second.0, first.1 + second.1, (first.2 + second.2) as nat)
        }),
    decreases a.len(),
{
    if a.len() == 0 {
        assert(a + b =~= b);
        let second = feed_bytes(m, b);
        assert(Seq::<Seq<u8>>::empty() + second.1 =~= second.1);
    } else {
        let s1 = step_byte(m, a[0]);
        assert((a + b)[0] == a[0]);
        assert(a.drop_first() + b =~= (a + b).drop_first());
        lemma_feed_bytes_concat(s1.0, a.drop_first(), b);
        let firstr = feed_bytes(s1.0, a.drop_first());
        let first = feed_bytes(m, a);
        let second = feed_bytes(first.0, b);
        assert(opt_msg(s1.1) + (firstr.1 + second.1) =~= (opt_msg(s1.1) + firstr.1) + second.1);
    }
}

/// Feeding a whole sequence of chunks in order.
pub open spec fn feed_chunks(m: DecoderModel, chunks: Seq<Seq<u8>>) -> (
    DecoderModel,
    Seq<Seq<u8>>,
    nat,
)
    decreases chunks.len(),
{
    if chunks.len() == 0 {
        (m, Seq::empty(), 0)
    } else {
        let first = feed_bytes(m, chunks[0]);
        let rest = feed_chunks(first.0, chunks.drop_first());
        (rest.0, first.1 + rest.1, (first.2 + rest.2) as nat)
    }
}

/// Chunking is irrelevant: feeding chunks one by one equals feeding
/// their concatenation.
pub proof fn lemma_feed_chunks_flatten(m: DecoderModel, chunks: Seq<Seq<u8>>)
    ensures
        feed_chunks(m, chunks) == feed_bytes(m, chunks.flatten()),
    decreases chunks.len(),
{
    if chunks.len() == 0 {
        assert(chunks.flatten() =~= Seq::<u8>::empty());
    } else {
        let first = feed_bytes(m, chunks[0]);
        lemma_feed_chunks_flatten(first.0, chunks.drop_first());
        lemma_feed_bytes_concat(m, chunks[0], chunks.drop_first().flatten());
        assert(chunks.flatten() == chunks[0] + chunks.drop_first().flatten());
    }
}

/// Feeding a single byte is one step of the state machine.
proof fn lemma_feed_one(m: DecoderModel, b: u8)
    ensures
        ({
            let s = step_byte(m, b);
            feed_bytes(m, seq![b]) == (s.0, opt_msg(s.1), s.2)
        }),
{
    reveal_with_fuel(feed_bytes, 2);
    assert(seq![b].drop_first() =~= Seq::<u8>::empty());
    let s = step_byte(m, b);
    assert(opt_msg(s.1) + Seq::<Seq<u8>>::empty() =~= opt_msg(s.1));
}

proof fn lemma_feed_header_no_lf(line: Seq<u8>, expect: Option<nat>, s: Seq<u8>)
    requires
        forall|i: int| 0 <= i < s.len() ==> s[i] != LF,
    ensures
        feed_bytes(DecoderModel::Header { line, expect }, s) == (
            (DecoderModel::Header { line: line + s, expect }),
            Seq::<Seq<u8>>::empty(),
            0nat,
        ),
    decreases s.len(),
{
    if s.len() == 0 {
        assert(line + s =~= line);
    } else {
        let l2 = line.push(s[0]);
        assert(l2[l2.len() - 1] == s[0]);
        assert(s[0] != LF);
        lemma_feed_header_no_lf(l2, expect, s.drop_first());
        assert(l2 + s.drop_first() =~= line + s);
        assert(opt_msg(None) + Seq::<Seq<u8>>::empty() =~= Seq::<Seq<u8>>::empty());
    }
}

proof fn lemma_feed_body_exact(need: nat, got: Seq<u8>, s: Seq<u8>)
    requires
        s.len() >= 1,
        got.len() + s.len() == need,
    ensures
        feed_bytes(DecoderModel::Body { need, got }, s) == (
            init_model(),
            seq![got + s],
            0nat,
        ),
    decreases s.len(),
{
    let g2 = got.push(s[0]);
    if s.len() == 1 {
        assert(g2.len() >= need);
        assert(g2 =~= got + s);
        assert(feed_bytes(init_model(), s.drop_first()) == (
            init_model(),
            Seq::<Seq<u8>>::empty(),
            0nat,
        ));
        assert(seq![g2] + Seq::<Seq<u8>>::empty() =~= seq![got + s]);
    } else {
        assert(g2.len() < need);
        lemma_feed_body_exact(need, g2, s.drop_first());
        assert(g2 + s.drop_first() =~= got + s);
        assert(opt_msg(None) + seq![g2 + s.drop_first()] =~= seq![got + s]);
    }
}

proof fn lemma_header_name_bytes()
    ensures
        header_name().len() == 15,
        forall|i: int| 0 <= i < 15 ==> header_name()[i] != LF && header_name()[i] != CR,
        !is_sp(header_name()[14]),
        !is_digit(header_name()[14]),
{
    reveal_strlit("Content-Length:");
}

/// Parsing the very header line the encoder writes yields the length
/// the encoder wrote.
proof fn lemma_parse_header_line(n: nat)
    requires
        n <= usize::MAX,
    ensures
        parse_content_length(header_line(n)) == Some(n),
{
    lemma_header_name_bytes();
    lemma_dec_rep_digits(n);
    let l = header_line(n);
    assert(l.subrange(0, 15) =~= header_name());
    assert(is_sp(l[15]));
    assert(forall|k: int| 16 <= k < l.len() ==> is_digit(#[trigger] l[k])) by {
        assert(forall|k: int|
            16 <= k < l.len() ==> l[k] == #[trigger] dec_rep(n)[k - 16]);
    }
    assert(!is_sp(l[16]));
    lemma_sp_end(l, 15, 16);
    assert(!is_sp(l[l.len() - 1]));
    lemma_sp_back(l, l.len() as int, l.len() as int);
    let num = l.subrange(16, l.len() as int);
    assert(num =~= dec_rep(n));
}

/// Feeding exactly one encoded frame to a fresh decoder yields exactly
/// its payload, no errors, and a fresh decoder again.
pub proof fn lemma_feed_frame(body: Seq<u8>)
    requires
        body.len() <= usize::MAX,
    ensures
        feed_bytes(init_model(), frame_bytes(body)) == (init_model(), seq![body], 0nat),
{
    let n = body.len();
    lemma_header_name_bytes();
    lemma_dec_rep_digits(n);
    lemma_parse_header_line(n);
    let hl = header_line(n);
    assert(hl.len() >= 17);
    assert(forall|i: int| 0 <= i < hl.len() ==> #[trigger] hl[i] != LF) by {
        assert(forall|i: int| 0 <= i < 15 ==> hl[i] == #[trigger] header_name()[i]);
        assert(hl[15] == 32u8);
        assert(forall|i: int|
            16 <= i < hl.len() ==> hl[i] == #[trigger] dec_rep(n)[i - 16] && is_digit(dec_rep(
                n,
            )[i - 16]));
    }
    let m0 = init_model();
    // 1. the header line accumulates unchanged
    lemma_feed_header_no_lf(Seq::empty(), None, hl);
    assert(Seq::empty() + hl =~= hl);
    let s1 = DecoderModel::Header { line: hl, expect: None };
    assert(feed_bytes(m0, hl) == (s1, Seq::<Seq<u8>>::empty(), 0nat));
    // 2. CR alone completes no line
    let s2 = DecoderModel::Header { line: hl.push(CR), expect: None };
    lemma_feed_one(s1, CR);
    assert(step_byte(s1, CR) == (s2, Option::<Seq<u8>>::None, 0nat)) by {
        let l2 = hl.push(CR);
        assert(l2[l2.len() - 1] == CR);
    }
    lemma_feed_bytes_concat(m0, hl, seq![CR]);
    let p2 = hl + seq![CR];
    assert(feed_bytes(m0, p2).0 == s2);
    assert(feed_bytes(m0, p2).1 =~= Seq::<Seq<u8>>::empty());
    assert(feed_bytes(m0, p2).2 == 0nat);
    // 3. LF completes the header line, which parses to n
    let s3 = DecoderModel::Header { line: Seq::empty(), expect: Some(n) };
    lemma_feed_one(s2, LF);
    assert(step_byte(s2, LF) == (s3, Option::<Seq<u8>>::None, 0nat)) by {
        let l3 = hl.push(CR).push(LF);
        assert(l3[l3.len() - 2] == CR && l3[l3.len() - 1] == LF);
        assert(l3.subrange(0, l3.len() - 2) =~= hl);
    }
    lemma_feed_bytes_concat(m0, p2, seq![LF]);
    let p3 = p2 + seq![LF];
    assert(feed_bytes(m0, p3).0 == s3);
    assert(feed_bytes(m0, p3).1 =~= Seq::<Seq<u8>>::empty());
    assert(feed_bytes(m0, p3).2 == 0nat);
    // 4. the blank line: CR accumulates, LF completes it
    let s4 = DecoderModel::Header { line: seq![CR], expect: Some(n) };
    lemma_feed_one(s3, CR);
    assert(step_byte(s3, CR) == (s4, Option::<Seq<u8>>::None, 0nat)) by {
        let l4 = Seq::<u8>::empty().push(CR);
        assert(l4 =~= seq![CR]);
        assert(l4.len() == 1);
    }
    lemma_feed_bytes_concat(m0, p3, seq![CR]);
    let p4 = p3 + seq![CR];
    assert(feed_bytes(m0, p4).0 == s4);
    assert(feed_bytes(m0, p4).1 =~= Seq::<Seq<u8>>::empty());
    assert(feed_bytes(m0, p4).2 == 0nat);
    // 5. after the blank line the payload is consumed as an exact span
    let s5 = if n == 0 {
        init_model()
    } else {
        DecoderModel::Body { need: n, got: Seq::empty() }
    };
    let e5: Seq<Seq<u8>> = if n == 0 {
        seq![Seq::<u8>::empty()]
    } else {
        Seq::<Seq<u8>>::empty()
    };
    lemma_feed_one(s4, LF);
    assert(step_byte(s4, LF) == (
        s5,
        if n == 0 {
            Some(Seq::<u8>::empty())
        } else {
            Option::<Seq<u8>>::None
        },
        0nat,
    )) by {
        let l5 = seq![CR].push(LF);
        assert(l5[l5.len() - 2] == CR && l5[l5.len() - 1] == LF);
        assert(l5.subrange(0, 0) =~= Seq::<u8>::empty());
    }
    lemma_feed_bytes_concat(m0, p4, seq![LF]);
    let p5 = p4 + seq![LF];
    assert(feed_bytes(m0, p5).0 == s5);
    assert(feed_bytes(m0, p5).1 =~= e5);
    assert(feed_bytes(m0, p5).2 == 0nat);
    // 6. the payload itself
    lemma_feed_bytes_concat(m0, p5, body);
    assert(p5 + body =~= frame_bytes(body));
    if n == 0 {
        assert(body =~= Seq::<u8>::empty());
        assert(feed_bytes(s5, body) == (s5, Seq::<Seq<u8>>::empty(), 0nat));
        assert(feed_bytes(m0, frame_bytes(body)).0 == init_model());
        assert(feed_bytes(m0, frame_bytes(body)).1 =~= seq![body]);
        assert(feed_bytes(m0, frame_bytes(body)).2 == 0nat);
    } else {
        lemma_feed_body_exact(n, Seq::empty(), body);
        assert(Seq::<u8>::empty() + body =~= body);
        assert(feed_bytes(m0, frame_bytes(body)).0 == init_model());
        assert(feed_bytes(m0, frame_bytes(body)).1 =~= seq![body]);
        assert(feed_bytes(m0, frame_bytes(body)).2 == 0nat);
    }
}

/// However an encoded frame is cut into chunks, a fresh decoder fed
/// those chunks yields exactly the frame's payload and ends fresh.
pub proof fn lemma_frame_chunked_round_trip(body: Seq<u8>, chunks: Seq<Seq<u8>>)
    requires
        body.len() <= usize::MAX,
        chunks.flatten() == frame_bytes(body),
    ensures
        feed_chunks(init_model(), chunks) == (init_model(), seq![body], 0nat),
{
    lemma_feed_chunks_flatten(init_model(), chunks);
    lemma_feed_frame(body);
}

/// The incremental frame decoder.
pub struct FrameDecoder {
    in_body: bool,
    line: Vec<u8>,
    have_expect: bool,
    expect: usize,
    body: Vec<u8>,
}

impl FrameDecoder {
    /// The abstract state the decoder is in.
    pub closed spec fn model(&self) -> DecoderModel {
        if self.in_body {
            DecoderModel::Body { need: self.expect as nat, got: self.body@ }
        } else {
            DecoderModel::Header {
                line: self.line@,
                expect: if self.have_expect {
                    Some(self.expect as nat)
                } else {
                    None
                },
            }
        }
    }

    /// A decoder that has seen nothing.
    pub fn new() -> (r: FrameDecoder)
        ensures
            r.model() == init_model(),
    {
        let r = FrameDecoder {
            in_body: false,
            line: Vec::new(),
            have_expect: false,
            expect: 0,
            body: Vec::new(),
        };
        assert(r.model() == init_model());
        r
    }

    fn reset(&mut self)
        ensures
            final(self).model() == init_model(),
    {
        self.in_body = false;
        self.line = Vec::new();
        self.have_expect = false;
        self.expect = 0;
        self.body = Vec::new();
    }

    /// Parses the collected header line as a `Content-Length` header.
    fn parse_line(&self, end: usize) -> (r: Option<usize>)
        requires
            end <= self.line@.len(),
        ensures
            match r {
                Some(v) => parse_content_length(self.line@.subrange(0, end as int)) == Some(
                    v as nat,
                ),
                None => parse_content_length(self.line@.subrange(0, end as int)) is None,
            },
    {
        let ghost content = self.line@.subrange(0, end as int);
        if end < 15 {
            return None;
        }
        proof {
            reveal_strlit("Content-Length:");
            assert(vstd::string::is_ascii("Content-Length:"));
        }
        let name: Vec<u8> = ascii_bytes("Content-Length:");
        proof {
            assert(name@ =~= header_name());
        }
        let mut i: usize = 0;
        while i < 15
            invariant
                0 <= i <= 15 <= end <= self.line@.len(),
                name@ == header_name(),
                content == self.line@.subrange(0, end as int),
                forall|j: int| 0 <= j < i ==> self.line@[j] == header_name()[j],
            decreases 15 - i,
        {
            proof {
                lemma_header_name_bytes();
            }
            if self.line[i] != name[i] {
                proof {
                    assert(content.subrange(0, 15)[i as int] != header_name()[i as int]);
                }
                return None;
            }
            i = i + 1;
        }
        proof {
            lemma_header_name_bytes();
            assert(content.subrange(0, 15) =~= header_name());
        }
        // skip spaces and tabs around the number
        let mut a: usize = 15;
        while a < end && (self.line[a] == 32 || self.line[a] == 9)
            invariant
                15 <= a <= end <= self.line@.len(),
                forall|k: int| 15 <= k < a ==> is_sp(self.line@[k]),
            decreases end - a,
        {
            a = a + 1;
        }
        let mut b: usize = end;
        while b > a && (self.line[b - 1] == 32 || self.line[b - 1] == 9)
            invariant
                a <= b <= end <= self.line@.len(),
                forall|k: int| b <= k < end ==> is_sp(self.line@[k]),
            decreases b,
        {
            b = b - 1;
        }
        proof {
            assert(forall|k: int| 15 <= k < a ==> is_sp(#[trigger] content[k]));
            assert(a < end ==> !is_sp(content[a as int]));
            if a < end {
                lemma_sp_end(content, 15, a as int);
            } else {
                lemma_sp_end(content, 15, end as int);
            }
            assert(sp_end(content, 15) == a as int);
        }
        if a >= b {
            proof {
                assert(a == b);
                lemma_sp_back_le(content, a as int, end as int);
            }
            return None;
        }
        proof {
            assert(forall|k: int| b <= k < end ==> is_sp(#[trigger] content[k]));
            assert(!is_sp(content[b - 1]));
            lemma_sp_back(content, b as int, end as int);
        }
        let ghost num = content.subrange(a as int, b as int);
        let mut val: usize = 0;
        let mut overflowed = false;
        let mut k: usize = a;
        while k < b
            invariant
                15 <= a <= k <= b <= end <= self.line@.len(),
                num == content.subrange(a as int, b as int),
                content == self.line@.subrange(0, end as int),
                content.subrange(0, 15) == header_name(),
                sp_end(content, 15) == a as int,
                sp_back(content, end as int) == b as int,
                forall|j: int| a <= j < k ==> is_digit(self.line@[j]),
                !overflowed ==> val as nat == dec_val(content.subrange(a as int, k as int)),
                overflowed ==> dec_val(content.subrange(a as int, k as int)) > usize::MAX,
            decreases b - k,
        {
            let c = self.line[k];
            if c < 48 || c > 57 {
                proof {
                    assert(!is_digit(num[k - a]));
                }
                return None;
            }
            let d = c - 48;
            let ghost pre = content.subrange(a as int, k as int);
            let ghost cur = content.subrange(a as int, k + 1);
            proof {
                assert(cur.drop_last() =~= pre);
                assert(cur.last() == c);
                assert(dec_val(cur) == dec_val(pre) * 10 + d);
            }
            if !overflowed {
                if val <= (usize::MAX - d as usize) / 10 {
                    proof {
                        assert(val * 10 <= usize::MAX - d);
                    }
                    val = val * 10 + d as usize;
                } else {
                    proof {
                        assert(val * 10 + d > usize::MAX) by {
                            assert(val >= (usize::MAX - d as usize) / 10 + 1);
                        }
                    }
                    overflowed = true;
                }
            } else {
                proof {
                    assert(dec_val(cur) >= dec_val(pre));
                }
            }
            k = k + 1;
        }
        proof {
            assert(content.subrange(a as int, b as int) =~= num);
            assert(all_digits(num));
        }
        if overflowed {
            return None;
        }
        Some(val)
    }

    /// Advances the decoder by one byte.
    fn step(&mut self, b: u8) -> (r: (Option<Vec<u8>>, bool))
        ensures
            ({
                let s = step_byte(old(self).model(), b);
                &&& final(self).model() == s.0
                &&& match r.0 {
                    Some(v) => s.1 == Some(v@),
                    None => s.1 is None,
                }
                &&& (if r.1 {
                    1nat
                } else {
                    0nat
                }) == s.2
            }),
    {
        if !self.in_body {
            self.line.push(b);
            let len = self.line.len();
            if len >= 2 && self.line[len - 2] == CR && self.line[len - 1] == LF {
                let ghost content = self.line@.subrange(0, len - 2);
                if len == 2 {
                    proof {
                        assert(content =~= Seq::<u8>::empty());
                    }
                    if self.have_expect {
                        if self.expect == 0 {
                            self.reset();
                            return (Some(Vec::new()), false);
                        } else {
                            self.in_body = true;
                            self.line = Vec::new();
                            self.body = Vec::new();
                            return (None, false);
                        }
                    } else {
                        self.reset();
                        return (None, true);
                    }
                } else {
                    let parsed = self.parse_line(len - 2);
                    match parsed {
                        Some(n) => {
                            self.line = Vec::new();
                            self.have_expect = true;
                            self.expect = n;
                            return (None, false);
                        },
                        None => {
                            self.reset();
                            return (None, true);
                        },
                    }
                }
            } else {
                return (None, false);
            }
        } else {
            self.body.push(b);
            if self.body.len() >= self.expect {
                let mut out: Vec<u8> = Vec::new();
                core::mem::swap(&mut out, &mut self.body);
                self.reset();
                return (Some(out), false);
            } else {
                return (None, false);
            }
        }
    }

    /// Feeds one chunk of raw bytes; returns every payload completed
    /// within it and the number of framing errors it caused.
    pub fn feed(&mut self, chunk: &[u8]) -> (r: (Vec<Vec<u8>>, usize))
        ensures
            ({
                let f = feed_bytes(old(self).model(), chunk@);
                &&& final(self).model() == f.0
                &&& r.0.deep_view() == f.1
                &&& r.1 as nat == f.2
            }),
    {
        let ghost m0 = self.model();
        let mut out: Vec<Vec<u8>> = Vec::new();
        let mut errs: usize = 0;
        let mut i: usize = 0;
        while i < chunk.len()
            invariant
                0 <= i <= chunk@.len(),
                errs <= i,
                ({
                    let f = feed_bytes(m0, chunk@.subrange(0, i as int));
                    &&& self.model() == f.0
                    &&& out.deep_view() == f.1
                    &&& errs as nat == f.2
                }),
            decreases chunk@.len() - i,
        {
            let ghost pre = chunk@.subrange(0, i as int);
            let ghost mid = self.model();
            let b = chunk[i];
            let (msg, err) = self.step(b);
            proof {
                lemma_feed_bytes_concat(m0, pre, seq![b]);
                lemma_feed_one(mid, b);
                assert(chunk@.subrange(0, i + 1) =~= pre + seq![b]);
            }
            let ghost old_out = out.deep_view();
            match msg {
                Some(v) => {
                    out.push(v);
                    proof {
                        assert(out.deep_view() =~~= old_out + seq![v@]);
                    }
                },
                None => {
                    proof {
                        assert(out.deep_view() =~~= old_out + Seq::<Seq<u8>>::empty());
                    }
                },
            }
            if err {
                errs = errs + 1;
            }
            i = i + 1;
        }
        proof {
            assert(chunk@.subrange(0, chunk@.len() as int) =~= chunk@);
        }
        (out, errs)
    }
}

proof fn lemma_sp_back_ub(s: Seq<u8>, j: int)
    ensures
        sp_back(s, j) <= j,
    decreases j,
{
    if 0 < j <= s.len() && is_sp(s[j - 1]) {
        lemma_sp_back_ub(s, j - 1);
    }
}

proof fn lemma_sp_back_le(s: Seq<u8>, a: int, end: int)
    requires
        0 <= a <= end <= s.len(),
        forall|k: int| a <= k < end ==> is_sp(s[k]),
    ensures
        sp_back(s, end) <= a,
    decreases end - a,
{
    if a < end {
        assert(is_sp(s[end - 1]));
        lemma_sp_back_le(s, a, end - 1);
    } else {
        lemma_sp_back_ub(s, end);
    }
}

/// Writes `n` in decimal onto `out`.
pub fn push_dec(out: &mut Vec<u8>, n: u64)
    ensures
        final(out)@ == old(out)@ + dec_rep(n as nat),
    decreases n,
{
    if n < 10 {
        out.push(48 + n as u8);
        assert(out@ =~= old(out)@ + dec_rep(n as nat));
    } else {
        push_dec(out, n / 10);
        out.push(48 + (n % 10) as u8);
        assert(out@ =~= old(out)@ + dec_rep(n as nat));
    }
}

/// Encodes one payload as a complete frame.
pub fn encode_frame(body: &Vec<u8>) -> (r: Vec<u8>)
    ensures
        r@ == frame_bytes(body@),
{
    proof {
        reveal_strlit("Content-Length: ");
        assert(vstd::string::is_ascii("Content-Length: "));
    }
    let mut r = ascii_bytes("Content-Length: ");
    proof {
        reveal_strlit("Content-Length:");
        assert(r@ =~= header_name() + seq![32u8]);
    }
    push_dec(&mut r, body.len() as u64);
    r.push(CR);
    r.push(LF);
    r.push(CR);
    r.push(LF);
    let mut i: usize = 0;
    while i < body.len()
        invariant
            0 <= i <= body@.len(),
            r@ == header_line(body@.len()) + seq![CR, LF, CR, LF] + body@.subrange(0, i as int),
        decreases body@.len() - i,
    {
        r.push(body[i]);
        proof {
            assert(r@ =~= header_line(body@.len()) + seq![CR, LF, CR, LF] + body@.subrange(
                0,
                i + 1,
            ));
        }
        i = i + 1;
    }
    proof {
        assert(body@.subrange(0, body@.len() as int) =~= body@);
    }
    r
}

} // verus!
