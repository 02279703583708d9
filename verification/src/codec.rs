//! Wire representation of a `Message`: one JSON object per line.
//!
//! The serialized form is canonical — fixed key order, strings with a
//! fixed escaping scheme, no interior whitespace — and never contains
//! the frame delimiter `'\n'`.  The parser accepts exactly the
//! canonical image (with the `metadata` member optionally absent, which
//! reads back as an empty mapping), so deserialization is the exact
//! left inverse of serialization.

use vstd::prelude::*;
use vstd::string::StrSliceExecFns;
use crate::errors::CodecError;
use crate::message::{Message, MessageType, MsgView};

verus! {

// ------------------------------------------------------------------
// Spec-level serialization
// ------------------------------------------------------------------
/// The sixteen lowercase hex digit characters.
pub open spec fn hex_digit(n: int) -> char {
    seq!['0', '1', '2', '3', '4', '5', '6', '7', '8', '9', 'a', 'b', 'c', 'd', 'e', 'f'][n]
}

/// How one character appears inside a JSON string: `"` and `\` get a
/// backslash escape, control characters a `\u00xy` escape, everything
/// else stands as itself.
pub open spec fn escape_char(c: char) -> Seq<char> {
    if c == '"' {
        seq!['\\', '"']
    } else if c == '\\' {
        seq!['\\', '\\']
    } else if (c as u32) < 32 {
        seq!['\\', 'u', '0', '0', hex_digit((c as u32) as int / 16), hex_digit(
            (c as u32) as int % 16,
        )]
    } else {
        seq![c]
    }
}

/// A whole string body, escaped character by character.
pub open spec fn escape_seq(s: Seq<char>) -> Seq<char>
    decreases s.len(),
{
    if s.len() == 0 {
        Seq::empty()
    } else {
        escape_char(s[0]) + escape_seq(s.drop_first())
    }
}

/// The tag under the `type` key.
pub open spec fn kind_tag(k: MessageType) -> Seq<char> {
    match k {
        MessageType::Text => seq!['t', 'e', 'x', 't'],
        MessageType::File => seq!['f', 'i', 'l', 'e'],
        MessageType::FileChunk => seq!['f', 'i', 'l', 'e', 'c', 'h', 'u', 'n', 'k'],
        MessageType::FileComplete => seq!['f', 'i', 'l', 'e', 'c', 'o', 'm', 'p', 'l', 'e', 't', 'e'],
        MessageType::Heartbeat => seq!['h', 'e', 'a', 'r', 't', 'b', 'e', 'a', 't'],
        MessageType::Ack => seq!['a', 'c', 'k'],
        MessageType::Error => seq!['e', 'r', 'r', 'o', 'r'],
    }
}

/// Decimal digits of `n >= 0`, most significant first.
pub open spec fn dec_nat(n: int) -> Seq<char>
    decreases n,
{
    if n < 10 {
        seq![hex_digit(n)]
    } else {
        dec_nat(n / 10) + seq![hex_digit(n % 10)]
    }
}

/// Decimal form of an integer, with a leading `-` when negative.
pub open spec fn dec_int(n: int) -> Seq<char> {
    if n < 0 {
        seq!['-'] + dec_nat(-n)
    } else {
        dec_nat(n)
    }
}

/// One serialized metadata pair: `"key":"value"`.
pub open spec fn meta_pair(p: (Seq<char>, Seq<char>)) -> Seq<char> {
    seq!['"'] + escape_seq(p.0) + seq!['"', ':', '"'] + escape_seq(p.1) + seq!['"']
}

/// The members of the serialized metadata object, comma-separated.
pub open spec fn meta_body(ps: Seq<(Seq<char>, Seq<char>)>) -> Seq<char>
    decreases ps.len(),
{
    if ps.len() == 0 {
        Seq::empty()
    } else if ps.len() == 1 {
        meta_pair(ps[0])
    } else {
        meta_pair(ps[0]) + seq![','] + meta_body(ps.drop_first())
    }
}

pub open spec fn lit_id() -> Seq<char> {
    seq!['{', '"', 'i', 'd', '"', ':', '"']
}

pub open spec fn lit_type() -> Seq<char> {
    seq![',', '"', 't', 'y', 'p', 'e', '"', ':', '"']
}

pub open spec fn lit_from() -> Seq<char> {
    seq![',', '"', 'f', 'r', 'o', 'm', '"', ':', '"']
}

pub open spec fn lit_to() -> Seq<char> {
    seq![',', '"', 't', 'o', '"', ':', '"']
}

pub open spec fn lit_content() -> Seq<char> {
    seq![',', '"', 'c', 'o', 'n', 't', 'e', 'n', 't', '"', ':', '"']
}

pub open spec fn lit_timestamp() -> Seq<char> {
    seq![',', '"', 't', 'i', 'm', 'e', 's', 't', 'a', 'm', 'p', '"', ':']
}

pub open spec fn lit_metadata() -> Seq<char> {
    seq![',', '"', 'm', 'e', 't', 'a', 'd', 'a', 't', 'a', '"', ':', '{']
}

/// The canonical serialized form of a message.
pub open spec fn spec_serialize(v: MsgView) -> Seq<char> {
    lit_id() + escape_seq(v.id) + seq!['"'] + lit_type() + kind_tag(v.kind) + seq!['"'] + lit_from()
        + escape_seq(v.from) + seq!['"'] + lit_to() + escape_seq(v.to) + seq!['"'] + lit_content()
        + escape_seq(v.content) + seq!['"'] + lit_timestamp() + dec_int(v.timestamp)
        + lit_metadata() + meta_body(v.metadata) + seq!['}', '}']
}

// ------------------------------------------------------------------
// Small verified helpers shared by serializer and parser
// ------------------------------------------------------------------
/// Relies on `String::push`: appends exactly one character.
#[verifier::external_body]
pub(crate) fn push_char(out: &mut String, c: char)
    ensures
        final (out)@ == old(out)@ + seq![c],
{
    out.push(c);
}

proof fn lemma_hex_digit_u32(n: int)
    requires
        0 <= n < 16,
    ensures
        n < 10 ==> hex_digit(n) as u32 == 48 + n,
        n >= 10 ==> hex_digit(n) as u32 == 87 + n,
{
    if n == 0 {
        assert(hex_digit(0) == '0');
    } else if n == 1 {
        assert(hex_digit(1) == '1');
    } else if n == 2 {
        assert(hex_digit(2) == '2');
    } else if n == 3 {
        assert(hex_digit(3) == '3');
    } else if n == 4 {
        assert(hex_digit(4) == '4');
    } else if n == 5 {
        assert(hex_digit(5) == '5');
    } else if n == 6 {
        assert(hex_digit(6) == '6');
    } else if n == 7 {
        assert(hex_digit(7) == '7');
    } else if n == 8 {
        assert(hex_digit(8) == '8');
    } else if n == 9 {
        assert(hex_digit(9) == '9');
    } else if n == 10 {
        assert(hex_digit(10) == 'a');
    } else if n == 11 {
        assert(hex_digit(11) == 'b');
    } else if n == 12 {
        assert(hex_digit(12) == 'c');
    } else if n == 13 {
        assert(hex_digit(13) == 'd');
    } else if n == 14 {
        assert(hex_digit(14) == 'e');
    } else {
        assert(hex_digit(15) == 'f');
    }
}

/// The lowercase hex digit for `n`.
pub(crate) fn hex_char(n: u8) -> (c: char)
    requires
        n < 16,
    ensures
        c == hex_digit(n as int),
{
    proof {
        lemma_hex_digit_u32(n as int);
    }
    if n < 10 {
        (48 + n) as char
    } else {
        (87 + n) as char
    }
}

proof fn lemma_escape_snoc(s: Seq<char>, c: char)
    ensures
        escape_seq(s.push(c)) =~= escape_seq(s) + escape_char(c),
    decreases s.len(),
{
    if s.len() == 0 {
        assert(s.push(c)[0] == c);
        assert(s.push(c).drop_first() =~= Seq::<char>::empty());
        assert(escape_seq(s.push(c)) == escape_char(c) + escape_seq(Seq::<char>::empty()));
        assert(escape_char(c) + Seq::<char>::empty() =~= escape_char(c));
        assert(escape_seq(s) + escape_char(c) =~= escape_char(c));
    } else {
        assert(s.push(c).drop_first() =~= s.drop_first().push(c));
        lemma_escape_snoc(s.drop_first(), c);
        assert(s.push(c)[0] == s[0]);
        assert(escape_seq(s.push(c)) == escape_char(s[0]) + escape_seq(s.drop_first().push(c)));
        assert(escape_char(s[0]) + (escape_seq(s.drop_first()) + escape_char(c)) =~= (escape_char(
            s[0],
        ) + escape_seq(s.drop_first())) + escape_char(c));
    }
}

/// Append the escaped form of `s` to `out`.
fn append_escaped(out: &mut String, s: &str)
    ensures
        final (out)@ == old(out)@ + escape_seq(s@),
{
    let n = s.unicode_len();
    let mut i: usize = 0;
    while i < n
        invariant
            n == s@.len(),
            0 <= i <= n,
            out@ == old(out)@ + escape_seq(s@.take(i as int)),
        decreases n - i,
    {
        let c = s.get_char(i);
        let cu = c as u32;
        if c == '"' {
            push_char(out, '\\');
            push_char(out, '"');
        } else if c == '\\' {
            push_char(out, '\\');
            push_char(out, '\\');
        } else if cu < 32 {
            push_char(out, '\\');
            push_char(out, 'u');
            push_char(out, '0');
            push_char(out, '0');
            push_char(out, hex_char((cu / 16) as u8));
            push_char(out, hex_char((cu % 16) as u8));
        } else {
            push_char(out, c);
        }
        proof {
            lemma_escape_snoc(s@.take(i as int), c);
            assert(s@.take(i as int).push(c) =~= s@.take(i as int + 1));
            assert(out@ =~= old(out)@ + escape_seq(s@.take(i as int + 1)));
        }
        i = i + 1;
    }
    proof {
        assert(s@.take(n as int) =~= s@);
    }
}

/// Append the decimal digits of `n` to `out`.
pub(crate) fn append_dec_u64(out: &mut String, n: u64)
    ensures
        final (out)@ == old(out)@ + dec_nat(n as int),
    decreases n,
{
    if n < 10 {
        proof {
            lemma_hex_digit_u32(n as int);
        }
        push_char(out, hex_char(n as u8));
    } else {
        append_dec_u64(out, n / 10);
        push_char(out, hex_char((n % 10) as u8));
        proof {
            assert(out@ =~= old(out)@ + dec_nat(n as int));
        }
    }
}

/// Append the decimal form of `n`, `-` first when negative.
fn append_dec_i64(out: &mut String, n: i64)
    ensures
        final (out)@ == old(out)@ + dec_int(n as int),
{
    if n >= 0 {
        append_dec_u64(out, n as u64);
    } else {
        push_char(out, '-');
        let m: u64 = if n == i64::MIN {
            9223372036854775808u64
        } else {
            (-n) as u64
        };
        proof {
            assert(m as int == -(n as int));
        }
        append_dec_u64(out, m);
        proof {
            assert(out@ =~= old(out)@ + dec_int(n as int));
        }
    }
}

proof fn lemma_meta_body_snoc(ps: Seq<(Seq<char>, Seq<char>)>, p: (Seq<char>, Seq<char>))
    ensures
        ps.len() == 0 ==> meta_body(ps.push(p)) =~= meta_pair(p),
        ps.len() > 0 ==> meta_body(ps.push(p)) =~= meta_body(ps) + seq![','] + meta_pair(p),
    decreases ps.len(),
{
    if ps.len() == 0 {
        assert(ps.push(p)[0] == p);
    } else {
        assert(ps.push(p).drop_first() =~= ps.drop_first().push(p));
        lemma_meta_body_snoc(ps.drop_first(), p);
        assert(ps.push(p)[0] == ps[0]);
        if ps.len() == 1 {
            assert(meta_body(ps.push(p)) =~= meta_body(ps) + seq![','] + meta_pair(p));
        } else {
            assert(meta_body(ps.push(p)) =~= meta_body(ps) + seq![','] + meta_pair(p));
        }
    }
}

impl Message {
    /// Serialize to the canonical single-line JSON form.
    #[verifier::rlimit(100)]
    pub fn to_json(&self) -> (r: String)
        ensures
            r@ == spec_serialize(self@),
    {
        let mut out = String::new();
        out.append("{\"id\":\"");
        proof {
            reveal_strlit("{\"id\":\"");
            assert(out@ =~= lit_id());
        }
        append_escaped(&mut out, self.id.as_str());
        out.append("\",\"type\":\"");
        proof {
            reveal_strlit("\",\"type\":\"");
            assert(("\",\"type\":\"")@ =~= seq!['"'] + lit_type());
        }
        match self.msg_type {
            MessageType::Text => {
                out.append("text");
                proof {
                    reveal_strlit("text");
                    assert(("text")@ =~= kind_tag(self.msg_type));
                }
            },
            MessageType::File => {
                out.append("file");
                proof {
                    reveal_strlit("file");
                    assert(("file")@ =~= kind_tag(self.msg_type));
                }
            },
            MessageType::FileChunk => {
                out.append("filechunk");
                proof {
                    reveal_strlit("filechunk");
                    assert(("filechunk")@ =~= kind_tag(self.msg_type));
                }
            },
            MessageType::FileComplete => {
                out.append("filecomplete");
                proof {
                    reveal_strlit("filecomplete");
                    assert(("filecomplete")@ =~= kind_tag(self.msg_type));
                }
            },
            MessageType::Heartbeat => {
                out.append("heartbeat");
                proof {
                    reveal_strlit("heartbeat");
                    assert(("heartbeat")@ =~= kind_tag(self.msg_type));
                }
            },
            MessageType::Ack => {
                out.append("ack");
                proof {
                    reveal_strlit("ack");
                    assert(("ack")@ =~= kind_tag(self.msg_type));
                }
            },
            MessageType::Error => {
                out.append("error");
                proof {
                    reveal_strlit("error");
                    assert(("error")@ =~= kind_tag(self.msg_type));
                }
            },
        }
        out.append("\",\"from\":\"");
        proof {
            reveal_strlit("\",\"from\":\"");
            assert(("\",\"from\":\"")@ =~= seq!['"'] + lit_from());
        }
        append_escaped(&mut out, self.from.as_str());
        out.append("\",\"to\":\"");
        proof {
            reveal_strlit("\",\"to\":\"");
            assert(("\",\"to\":\"")@ =~= seq!['"'] + lit_to());
        }
        append_escaped(&mut out, self.to.as_str());
        out.append("\",\"content\":\"");
        proof {
            reveal_strlit("\",\"content\":\"");
            assert(("\",\"content\":\"")@ =~= seq!['"'] + lit_content());
        }
        append_escaped(&mut out, self.content.as_str());
        out.append("\",\"timestamp\":");
        proof {
            reveal_strlit("\",\"timestamp\":");
            assert(("\",\"timestamp\":")@ =~= seq!['"'] + lit_timestamp());
        }
        append_dec_i64(&mut out, self.timestamp);
        out.append(",\"metadata\":{");
        proof {
            reveal_strlit(",\"metadata\":{");
            assert((",\"metadata\":{")@ =~= lit_metadata());
        }
        let ghost base = out@;
        let ghost ps = self@.metadata;
        let mut i: usize = 0;
        while i < self.metadata.len()
            invariant
                0 <= i <= self.metadata.len(),
                ps == self@.metadata,
                ps.len() == self.metadata.len(),
                out@ == base + meta_body(ps.take(i as int)),
            decreases self.metadata.len() - i,
        {
            if i > 0 {
                push_char(&mut out, ',');
            }
            push_char(&mut out, '"');
            append_escaped(&mut out, self.metadata[i].0.as_str());
            out.append("\":\"");
            proof {
                reveal_strlit("\":\"");
                assert(("\":\"")@ =~= seq!['"', ':', '"']);
            }
            append_escaped(&mut out, self.metadata[i].1.as_str());
            push_char(&mut out, '"');
            proof {
                assert(ps[i as int] == (self.metadata@[i as int].0@, self.metadata@[i as int].1@));
                lemma_meta_body_snoc(ps.take(i as int), ps[i as int]);
                assert(ps.take(i as int).push(ps[i as int]) =~= ps.take(i as int + 1));
                assert(out@ =~= base + meta_body(ps.take(i as int + 1)));
            }
            i = i + 1;
        }
        proof {
            assert(ps.take(ps.len() as int) =~= ps);
        }
        out.append("}}");
        proof {
            reveal_strlit("}}");
            assert(("}}")@ =~= seq!['}', '}']);
            assert(out@ =~= spec_serialize(self@));
        }
        out
    }
}

// ------------------------------------------------------------------
// Spec-level parsing
// ------------------------------------------------------------------
// The parser accepts one JSON object carrying the schema's members in
// any order, with optional whitespace between tokens and the standard
// JSON string escapes, as an ordinary JSON reader would.  A member
// given twice, a member outside the schema, a wrong value type, or a
// missing required member is an error; a missing `metadata` member
// alone is not: it reads back as the empty mapping.
pub open spec fn is_digit(c: char) -> bool {
    48 <= c as u32 <= 57
}

pub open spec fn digit_val(c: char) -> int {
    c as u32 - 48
}

/// A hex digit, either case.
pub open spec fn is_hexc(c: char) -> bool {
    (48 <= c as u32 <= 57) || (97 <= c as u32 <= 102) || (65 <= c as u32 <= 70)
}

pub open spec fn hex_vc(c: char) -> int {
    if c as u32 <= 57 {
        c as u32 - 48
    } else if c as u32 >= 97 {
        c as u32 - 87
    } else {
        c as u32 - 55
    }
}

/// The whitespace JSON allows between tokens.
pub open spec fn is_ws(c: char) -> bool {
    c == ' ' || c == '\t' || c == '\n' || c == '\r'
}

/// The input with its leading whitespace removed.
pub open spec fn skip_ws(s: Seq<char>) -> Seq<char>
    decreases s.len(),
{
    if s.len() > 0 && is_ws(s[0]) {
        skip_ws(s.skip(1))
    } else {
        s
    }
}

pub proof fn lemma_skip_ws_len(s: Seq<char>)
    ensures
        skip_ws(s).len() <= s.len(),
    decreases s.len(),
{
    if s.len() > 0 && is_ws(s[0]) {
        lemma_skip_ws_len(s.skip(1));
    }
}

/// Four hex digits stand at position `i`.
pub open spec fn hex4_ok(s: Seq<char>, i: int) -> bool {
    i + 4 <= s.len() && is_hexc(s[i]) && is_hexc(s[i + 1]) && is_hexc(s[i + 2]) && is_hexc(
        s[i + 3],
    )
}

pub open spec fn hex4_val(s: Seq<char>, i: int) -> int {
    hex_vc(s[i]) * 4096 + hex_vc(s[i + 1]) * 256 + hex_vc(s[i + 2]) * 16 + hex_vc(s[i + 3])
}

/// The single-character escapes of JSON.
pub open spec fn short_escape(c: char) -> Option<char> {
    if c == '"' {
        Some('"')
    } else if c == '\\' {
        Some('\\')
    } else if c == '/' {
        Some('/')
    } else if c == 'b' {
        Some(8 as char)
    } else if c == 'f' {
        Some(12 as char)
    } else if c == 'n' {
        Some('\n')
    } else if c == 'r' {
        Some('\r')
    } else if c == 't' {
        Some('\t')
    } else {
        None
    }
}

/// Consume a string body up to and including its closing quote,
/// decoding the standard JSON escapes, surrogate pairs included.  A
/// raw control character or a lone surrogate is an error.
pub open spec fn parse_body(s: Seq<char>) -> Option<(Seq<char>, Seq<char>)>
    decreases s.len(),
{
    if s.len() == 0 {
        None
    } else if s[0] == '"' {
        Some((Seq::empty(), s.skip(1)))
    } else if s[0] == '\\' {
        if s.len() >= 2 && short_escape(s[1]) is Some {
            match parse_body(s.skip(2)) {
                Some(p) => Some((seq![short_escape(s[1])->Some_0] + p.0, p.1)),
                None => None,
            }
        } else if s.len() >= 6 && s[1] == 'u' && hex4_ok(s, 2) {
            let v = hex4_val(s, 2);
            if v < 0xD800 || v >= 0xE000 {
                match parse_body(s.skip(6)) {
                    Some(p) => Some((seq![v as char] + p.0, p.1)),
                    None => None,
                }
            } else if v < 0xDC00 {
                if s.len() >= 12 && s[6] == '\\' && s[7] == 'u' && hex4_ok(s, 8) {
                    let w = hex4_val(s, 8);
                    if 0xDC00 <= w < 0xE000 {
                        match parse_body(s.skip(12)) {
                            Some(p) => Some(
                                (
                                    seq![(0x10000 + (v - 0xD800) * 0x400 + (w - 0xDC00)) as char]
                                        + p.0,
                                    p.1,
                                ),
                            ),
                            None => None,
                        }
                    } else {
                        None
                    }
                } else {
                    None
                }
            } else {
                None
            }
        } else {
            None
        }
    } else if (s[0] as u32) >= 32 {
        match parse_body(s.skip(1)) {
            Some(p) => Some((seq![s[0]] + p.0, p.1)),
            None => None,
        }
    } else {
        None
    }
}

/// Consume an opening quote and a string body.
pub open spec fn parse_quoted(s: Seq<char>) -> Option<(Seq<char>, Seq<char>)> {
    if s.len() > 0 && s[0] == '"' {
        parse_body(s.skip(1))
    } else {
        None
    }
}

/// The message kind a decoded tag string denotes, if any.
pub open spec fn kind_of_tag(t: Seq<char>) -> Option<MessageType> {
    if t == kind_tag(MessageType::Text) {
        Some(MessageType::Text)
    } else if t == kind_tag(MessageType::File) {
        Some(MessageType::File)
    } else if t == kind_tag(MessageType::FileChunk) {
        Some(MessageType::FileChunk)
    } else if t == kind_tag(MessageType::FileComplete) {
        Some(MessageType::FileComplete)
    } else if t == kind_tag(MessageType::Heartbeat) {
        Some(MessageType::Heartbeat)
    } else if t == kind_tag(MessageType::Ack) {
        Some(MessageType::Ack)
    } else if t == kind_tag(MessageType::Error) {
        Some(MessageType::Error)
    } else {
        None
    }
}

/// Length of the leading run of decimal digits.
pub open spec fn digits_len(s: Seq<char>) -> int
    decreases s.len(),
{
    if s.len() > 0 && is_digit(s[0]) {
        1 + digits_len(s.drop_first())
    } else {
        0
    }
}

pub proof fn lemma_digits_len_bounds(s: Seq<char>)
    ensures
        0 <= digits_len(s) <= s.len(),
    decreases s.len(),
{
    if s.len() > 0 && is_digit(s[0]) {
        lemma_digits_len_bounds(s.drop_first());
    }
}

/// Value of a sequence of decimal digits, most significant first.
pub open spec fn digits_val(d: Seq<char>) -> int
    decreases d.len(),
{
    if d.len() == 0 {
        0
    } else {
        digits_val(d.drop_last()) * 10 + digit_val(d.last())
    }
}

/// Consume a run of digits with no redundant leading zero, as a JSON
/// integer is written.
pub open spec fn parse_nat(s: Seq<char>) -> Option<(int, Seq<char>)> {
    let j = digits_len(s);
    if j == 0 {
        None
    } else if s[0] == '0' && j > 1 {
        None
    } else {
        Some((digits_val(s.take(j)), s.skip(j)))
    }
}

/// Consume a decimal integer in the value range of `i64`.
pub open spec fn parse_int(s: Seq<char>) -> Option<(int, Seq<char>)> {
    if s.len() > 0 && s[0] == '-' {
        match parse_nat(s.skip(1)) {
            Some(p) => if p.0 <= 0x8000000000000000 {
                Some((-p.0, p.1))
            } else {
                None
            },
            None => None,
        }
    } else {
        match parse_nat(s) {
            Some(p) => if p.0 <= 0x7fffffffffffffff {
                Some(p)
            } else {
                None
            },
            None => None,
        }
    }
}

pub proof fn lemma_parse_body_len(s: Seq<char>)
    ensures
        match parse_body(s) {
            Some(p) => p.1.len() < s.len(),
            None => true,
        },
    decreases s.len(),
{
    if s.len() == 0 {
    } else if s[0] == '"' {
    } else if s[0] == '\\' {
        if s.len() >= 2 && short_escape(s[1]) is Some {
            lemma_parse_body_len(s.skip(2));
        } else if s.len() >= 6 && s[1] == 'u' && hex4_ok(s, 2) {
            let v = hex4_val(s, 2);
            if v < 0xD800 || v >= 0xE000 {
                lemma_parse_body_len(s.skip(6));
            } else if v < 0xDC00 && s.len() >= 12 && s[6] == '\\' && s[7] == 'u' && hex4_ok(s, 8) {
                lemma_parse_body_len(s.skip(12));
            }
        }
    } else if (s[0] as u32) >= 32 {
        lemma_parse_body_len(s.skip(1));
    }
}

proof fn lemma_parse_int_len(s: Seq<char>)
    ensures
        match parse_int(s) {
            Some(p) => p.1.len() < s.len(),
            None => true,
        },
{
    lemma_digits_len_bounds(s);
    if s.len() > 0 && s[0] == '-' {
        lemma_digits_len_bounds(s.skip(1));
    }
}

/// The members of a message object, collected as they are read.
#[verifier::ext_equal]
pub ghost struct PartialMsg {
    pub id: Option<Seq<char>>,
    pub kind: Option<MessageType>,
    pub from: Option<Seq<char>>,
    pub to: Option<Seq<char>>,
    pub content: Option<Seq<char>>,
    pub timestamp: Option<int>,
    pub metadata: Option<Seq<(Seq<char>, Seq<char>)>>,
}

/// No member read yet.
pub open spec fn no_members() -> PartialMsg {
    PartialMsg {
        id: None,
        kind: None,
        from: None,
        to: None,
        content: None,
        timestamp: None,
        metadata: None,
    }
}

pub open spec fn name_id() -> Seq<char> {
    seq!['i', 'd']
}

pub open spec fn name_type() -> Seq<char> {
    seq!['t', 'y', 'p', 'e']
}

pub open spec fn name_from() -> Seq<char> {
    seq!['f', 'r', 'o', 'm']
}

pub open spec fn name_to() -> Seq<char> {
    seq!['t', 'o']
}

pub open spec fn name_content() -> Seq<char> {
    seq!['c', 'o', 'n', 't', 'e', 'n', 't']
}

pub open spec fn name_timestamp() -> Seq<char> {
    seq!['t', 'i', 'm', 'e', 's', 't', 'a', 'm', 'p']
}

pub open spec fn name_metadata() -> Seq<char> {
    seq!['m', 'e', 't', 'a', 'd', 'a', 't', 'a']
}

/// Consume the members of a metadata object that holds at least one
/// pair, and its closing brace.  A key given twice overwrites, as an
/// insertion into a mapping would.
pub open spec fn parse_meta_pairs(s: Seq<char>, acc: Seq<(Seq<char>, Seq<char>)>) -> Option<
    (Seq<(Seq<char>, Seq<char>)>, Seq<char>),
>
    decreases s.len(),
    via parse_meta_pairs_decreases
{
    match parse_quoted(s) {
        Some(kp) => {
            let r1 = skip_ws(kp.1);
            if r1.len() > 0 && r1[0] == ':' {
                let r2 = skip_ws(r1.skip(1));
                match parse_quoted(r2) {
                    Some(vp) => {
                        let r3 = skip_ws(vp.1);
                        let acc2 = crate::message::meta_insert(acc, kp.0, vp.0);
                        if r3.len() > 0 && r3[0] == ',' {
                            parse_meta_pairs(skip_ws(r3.skip(1)), acc2)
                        } else if r3.len() > 0 && r3[0] == '}' {
                            Some((acc2, r3.skip(1)))
                        } else {
                            None
                        }
                    },
                    None => None,
                }
            } else {
                None
            }
        },
        None => None,
    }
}

#[via_fn]
proof fn parse_meta_pairs_decreases(s: Seq<char>, acc: Seq<(Seq<char>, Seq<char>)>) {
    if s.len() > 0 && s[0] == '"' {
        lemma_parse_body_len(s.skip(1));
        match parse_quoted(s) {
            Some(kp) => {
                lemma_skip_ws_len(kp.1);
                let r1 = skip_ws(kp.1);
                if r1.len() > 0 && r1[0] == ':' {
                    lemma_skip_ws_len(r1.skip(1));
                    let r2 = skip_ws(r1.skip(1));
                    if r2.len() > 0 && r2[0] == '"' {
                        lemma_parse_body_len(r2.skip(1));
                        match parse_quoted(r2) {
                            Some(vp) => {
                                lemma_skip_ws_len(vp.1);
                                let r3 = skip_ws(vp.1);
                                if r3.len() > 0 && r3[0] == ',' {
                                    lemma_skip_ws_len(r3.skip(1));
                                }
                            },
                            None => {},
                        }
                    }
                }
            },
            None => {},
        }
    }
}

/// Consume a metadata object from just after its opening brace, with
/// leading whitespace already skipped.
pub open spec fn parse_meta_obj(s: Seq<char>) -> Option<(Seq<(Seq<char>, Seq<char>)>, Seq<char>)> {
    if s.len() > 0 && s[0] == '}' {
        Some((Seq::empty(), s.skip(1)))
    } else {
        parse_meta_pairs(s, Seq::empty())
    }
}

/// Consume a whole metadata object, brace to brace.
pub open spec fn parse_meta_from(s: Seq<char>) -> Option<(Seq<(Seq<char>, Seq<char>)>, Seq<char>)> {
    if s.len() > 0 && s[0] == '{' {
        parse_meta_obj(skip_ws(s.skip(1)))
    } else {
        None
    }
}

proof fn lemma_parse_meta_pairs_len(s: Seq<char>, acc: Seq<(Seq<char>, Seq<char>)>)
    ensures
        match parse_meta_pairs(s, acc) {
            Some(p) => p.1.len() < s.len(),
            None => true,
        },
    decreases s.len(),
{
    if s.len() > 0 && s[0] == '"' {
        lemma_parse_body_len(s.skip(1));
        match parse_quoted(s) {
            Some(kp) => {
                lemma_skip_ws_len(kp.1);
                let r1 = skip_ws(kp.1);
                if r1.len() > 0 && r1[0] == ':' {
                    lemma_skip_ws_len(r1.skip(1));
                    let r2 = skip_ws(r1.skip(1));
                    if r2.len() > 0 && r2[0] == '"' {
                        lemma_parse_body_len(r2.skip(1));
                        match parse_quoted(r2) {
                            Some(vp) => {
                                lemma_skip_ws_len(vp.1);
                                let r3 = skip_ws(vp.1);
                                if r3.len() > 0 && r3[0] == ',' {
                                    lemma_skip_ws_len(r3.skip(1));
                                    lemma_parse_meta_pairs_len(
                                        skip_ws(r3.skip(1)),
                                        crate::message::meta_insert(acc, kp.0, vp.0),
                                    );
                                }
                            },
                            None => {},
                        }
                    }
                }
            },
            None => {},
        }
    }
}

/// Read one member's value, dispatched on the decoded member name,
/// into the partial message.  A name outside the schema, a wrong
/// value type, or a member already read is an error.
pub open spec fn parse_member_value(name: Seq<char>, s: Seq<char>, acc: PartialMsg) -> Option<
    (PartialMsg, Seq<char>),
> {
    if name == name_id() {
        if acc.id is None {
            match parse_quoted(s) {
                Some(p) => Some((PartialMsg { id: Some(p.0), ..acc }, p.1)),
                None => None,
            }
        } else {
            None
        }
    } else if name == name_type() {
        if acc.kind is None {
            match parse_quoted(s) {
                Some(p) => match kind_of_tag(p.0) {
                    Some(k) => Some((PartialMsg { kind: Some(k), ..acc }, p.1)),
                    None => None,
                },
                None => None,
            }
        } else {
            None
        }
    } else if name == name_from() {
        if acc.from is None {
            match parse_quoted(s) {
                Some(p) => Some((PartialMsg { from: Some(p.0), ..acc }, p.1)),
                None => None,
            }
        } else {
            None
        }
    } else if name == name_to() {
        if acc.to is None {
            match parse_quoted(s) {
                Some(p) => Some((PartialMsg { to: Some(p.0), ..acc }, p.1)),
                None => None,
            }
        } else {
            None
        }
    } else if name == name_content() {
        if acc.content is None {
            match parse_quoted(s) {
                Some(p) => Some((PartialMsg { content: Some(p.0), ..acc }, p.1)),
                None => None,
            }
        } else {
            None
        }
    } else if name == name_timestamp() {
        if acc.timestamp is None {
            match parse_int(s) {
                Some(p) => Some((PartialMsg { timestamp: Some(p.0), ..acc }, p.1)),
                None => None,
            }
        } else {
            None
        }
    } else if name == name_metadata() {
        if acc.metadata is None {
            match parse_meta_from(s) {
                Some(p) => Some((PartialMsg { metadata: Some(p.0), ..acc }, p.1)),
                None => None,
            }
        } else {
            None
        }
    } else {
        None
    }
}

/// Read one `"name": value` member.
pub open spec fn parse_member(s: Seq<char>, acc: PartialMsg) -> Option<(PartialMsg, Seq<char>)> {
    match parse_quoted(s) {
        Some(np) => {
            let r1 = skip_ws(np.1);
            if r1.len() > 0 && r1[0] == ':' {
                parse_member_value(np.0, skip_ws(r1.skip(1)), acc)
            } else {
                None
            }
        },
        None => None,
    }
}

proof fn lemma_parse_member_len(s: Seq<char>, acc: PartialMsg)
    ensures
        match parse_member(s, acc) {
            Some(p) => p.1.len() < s.len(),
            None => true,
        },
{
    if s.len() > 0 && s[0] == '"' {
        lemma_parse_body_len(s.skip(1));
        match parse_quoted(s) {
            Some(np) => {
                lemma_skip_ws_len(np.1);
                let r1 = skip_ws(np.1);
                if r1.len() > 0 && r1[0] == ':' {
                    lemma_skip_ws_len(r1.skip(1));
                    let r2 = skip_ws(r1.skip(1));
                    if r2.len() > 0 && r2[0] == '"' {
                        lemma_parse_body_len(r2.skip(1));
                    }
                    lemma_parse_int_len(r2);
                    if r2.len() > 0 && r2[0] == '{' {
                        lemma_skip_ws_len(r2.skip(1));
                        lemma_parse_meta_pairs_len(skip_ws(r2.skip(1)), Seq::empty());
                    }
                }
            },
            None => {},
        }
    }
}

/// Read members from the first one on, to and including the closing
/// brace of the object.
pub open spec fn parse_members(s: Seq<char>, acc: PartialMsg) -> Option<(PartialMsg, Seq<char>)>
    decreases s.len(),
    via parse_members_decreases
{
    match parse_member(s, acc) {
        Some(mp) => {
            let r = skip_ws(mp.1);
            if r.len() > 0 && r[0] == ',' {
                parse_members(skip_ws(r.skip(1)), mp.0)
            } else if r.len() > 0 && r[0] == '}' {
                Some((mp.0, r.skip(1)))
            } else {
                None
            }
        },
        None => None,
    }
}

#[via_fn]
proof fn parse_members_decreases(s: Seq<char>, acc: PartialMsg) {
    lemma_parse_member_len(s, acc);
    match parse_member(s, acc) {
        Some(mp) => {
            lemma_skip_ws_len(mp.1);
            let r = skip_ws(mp.1);
            if r.len() > 0 && r[0] == ',' {
                lemma_skip_ws_len(r.skip(1));
            }
        },
        None => {},
    }
}

/// A message from the members read, if every required one is present;
/// an absent `metadata` member is the empty mapping.
pub open spec fn members_complete(p: PartialMsg) -> Option<MsgView> {
    if p.id is Some && p.kind is Some && p.from is Some && p.to is Some && p.content is Some
        && p.timestamp is Some {
        Some(
            MsgView {
                id: p.id->Some_0,
                kind: p.kind->Some_0,
                from: p.from->Some_0,
                to: p.to->Some_0,
                content: p.content->Some_0,
                timestamp: p.timestamp->Some_0,
                metadata: if p.metadata is Some {
                    p.metadata->Some_0
                } else {
                    Seq::empty()
                },
            },
        )
    } else {
        None
    }
}

/// Parse a whole serialized message: one JSON object of the schema,
/// members in any order, nothing but whitespace around it.  `None`
/// means the input denotes no message.
pub open spec fn parse_message(s: Seq<char>) -> Option<MsgView> {
    let t = skip_ws(s);
    if t.len() > 0 && t[0] == '{' {
        let t2 = skip_ws(t.skip(1));
        if t2.len() > 0 && t2[0] == '}' {
            None
        } else {
            match parse_members(t2, no_members()) {
                Some(p) => if skip_ws(p.1).len() == 0 {
                    members_complete(p.0)
                } else {
                    None
                },
                None => None,
            }
        }
    } else {
        None
    }
}

// ------------------------------------------------------------------
// Exec parsing
// ------------------------------------------------------------------
/// The value of a hex digit character of either case, if it is one.
fn hex_vc_exec(c: char) -> (r: Option<u8>)
    ensures
        match r {
            Some(v) => is_hexc(c) && v < 16 && v as int == hex_vc(c),
            None => !is_hexc(c),
        },
{
    let cu = c as u32;
    if 48 <= cu && cu <= 57 {
        Some((cu - 48) as u8)
    } else if 97 <= cu && cu <= 102 {
        Some((cu - 87) as u8)
    } else if 65 <= cu && cu <= 70 {
        Some((cu - 55) as u8)
    } else {
        None
    }
}

/// Relies on `char::from_u32`: the character with this code point.
/// The requires keeps to the scalar values, where it returns `Some`.
#[verifier::external_body]
fn char_from_u32(v: u32) -> (c: char)
    requires
        v < 0xD800 || (0xE000 <= v && v <= 0x10FFFF),
    ensures
        c as u32 == v,
{
    char::from_u32(v).unwrap()
}

/// Read four hex digits at `i`, as the value they denote.
fn hex4_exec(s: &str, i: usize, n: usize) -> (r: Option<u32>)
    requires
        i <= n,
        n == s@.len(),
    ensures
        match r {
            Some(v) => i + 4 <= n && hex4_ok(s@, i as int) && v as int == hex4_val(s@, i as int)
                && v < 0x10000,
            None => !hex4_ok(s@, i as int),
        },
{
    if n - i < 4 {
        return None;
    }
    let h0 = match hex_vc_exec(s.get_char(i)) {
        Some(v) => v,
        None => {
            return None;
        },
    };
    let h1 = match hex_vc_exec(s.get_char(i + 1)) {
        Some(v) => v,
        None => {
            return None;
        },
    };
    let h2 = match hex_vc_exec(s.get_char(i + 2)) {
        Some(v) => v,
        None => {
            return None;
        },
    };
    let h3 = match hex_vc_exec(s.get_char(i + 3)) {
        Some(v) => v,
        None => {
            return None;
        },
    };
    Some((h0 as u32) * 4096 + (h1 as u32) * 256 + (h2 as u32) * 16 + (h3 as u32))
}

/// Skip whitespace from position `i` on.
fn skip_ws_exec(s: &str, i: usize, n: usize) -> (j: usize)
    requires
        i <= n,
        n == s@.len(),
    ensures
        i <= j <= n,
        skip_ws(s@.skip(i as int)) == s@.skip(j as int),
{
    let mut j: usize = i;
    loop
        invariant
            i <= j <= n,
            n == s@.len(),
            skip_ws(s@.skip(i as int)) == skip_ws(s@.skip(j as int)),
        decreases n - j,
    {
        if j >= n {
            proof {
                assert(s@.skip(j as int).len() == 0);
            }
            return j;
        }
        let c = s.get_char(j);
        proof {
            assert(s@.skip(j as int)[0] == s@[j as int]);
        }
        if c == ' ' || c == '\t' || c == '\n' || c == '\r' {
            proof {
                assert(s@.skip(j as int).skip(1) =~= s@.skip(j as int + 1));
            }
            j = j + 1;
        } else {
            return j;
        }
    }
}

/// Read a string body starting at `i` (just inside the quotes),
/// up to and including the closing quote.
#[verifier::rlimit(100)]
fn parse_body_exec(s: &str, i: usize, n: usize) -> (r: Option<(String, usize)>)
    requires
        i <= n,
        n == s@.len(),
    ensures
        match r {
            Some(p) => i <= p.1 <= n && parse_body(s@.skip(i as int)) == Some(
                (p.0@, s@.skip(p.1 as int)),
            ),
            None => parse_body(s@.skip(i as int)) is None,
        },
{
    let mut acc = String::new();
    let mut idx: usize = i;
    loop
        invariant
            i <= idx <= n,
            n == s@.len(),
            parse_body(s@.skip(i as int)) == (match parse_body(s@.skip(idx as int)) {
                Some(p) => Some((acc@ + p.0, p.1)),
                None => None::<(Seq<char>, Seq<char>)>,
            }),
        decreases n - idx,
    {
        if idx >= n {
            proof {
                assert(s@.skip(idx as int).len() == 0);
            }
            return None;
        }
        let c = s.get_char(idx);
        proof {
            assert(s@.skip(idx as int)[0] == s@[idx as int]);
        }
        if c == '"' {
            proof {
                assert(s@.skip(idx as int).skip(1) =~= s@.skip(idx as int + 1));
                assert(acc@ + Seq::<char>::empty() =~= acc@);
            }
            return Some((acc, idx + 1));
        } else if c == '\\' {
            if idx + 1 >= n {
                proof {
                    assert(s@.skip(idx as int).len() < 2);
                }
                return None;
            }
            let c2 = s.get_char(idx + 1);
            proof {
                assert(s@.skip(idx as int)[1] == s@[idx as int + 1]);
            }
            let sc: Option<char> = match c2 {
                '"' => Some('"'),
                '\\' => Some('\\'),
                '/' => Some('/'),
                'b' => Some(8u8 as char),
                'f' => Some(12u8 as char),
                'n' => Some('\n'),
                'r' => Some('\r'),
                't' => Some('\t'),
                _ => None,
            };
            proof {
                assert(short_escape(c2) == sc);
            }
            match sc {
                Some(e) => {
                    let ghost pre = acc@;
                    push_char(&mut acc, e);
                    proof {
                        assert(s@.skip(idx as int).skip(2) =~= s@.skip(idx as int + 2));
                        assert forall|q: Seq<char>| (pre + seq![e]) + q =~= pre + (seq![e] + q) by {}
                    }
                    idx = idx + 2;
                },
                None => {
                    if c2 != 'u' {
                        return None;
                    }
                    let v = match hex4_exec(s, idx + 2, n) {
                        Some(v) => v,
                        None => {
                            proof {
                                if s@.skip(idx as int).len() >= 6 {
                                    assert(s@.skip(idx as int).skip(2) =~= s@.skip(idx as int + 2));
                                    assert(!hex4_ok(s@.skip(idx as int), 2));
                                }
                            }
                            return None;
                        },
                    };
                    proof {
                        assert(s@.skip(idx as int).skip(2) =~= s@.skip(idx as int + 2));
                        assert(hex4_ok(s@.skip(idx as int), 2));
                        assert(hex4_val(s@.skip(idx as int), 2) == v as int);
                    }
                    if v < 0xD800 || v >= 0xE000 {
                        let e = char_from_u32(v);
                        proof {
                            vstd::utf8::char_u32_cast(e, v);
                        }
                        let ghost pre = acc@;
                        push_char(&mut acc, e);
                        proof {
                            assert(s@.skip(idx as int).skip(6) =~= s@.skip(idx as int + 6));
                            assert forall|q: Seq<char>| (pre + seq![e]) + q =~= pre + (seq![e] + q) by {}
                        }
                        idx = idx + 6;
                    } else if v < 0xDC00 {
                        // a high surrogate: a low one must follow
                        if n - idx < 8 || s.get_char(idx + 6) != '\\' || s.get_char(idx + 7) != 'u'
                        {
                            proof {
                                if s@.skip(idx as int).len() >= 12 {
                                    assert(s@.skip(idx as int)[6] == s@[idx as int + 6]);
                                    assert(s@.skip(idx as int)[7] == s@[idx as int + 7]);
                                }
                            }
                            return None;
                        }
                        proof {
                            assert(s@.skip(idx as int)[6] == s@[idx as int + 6]);
                            assert(s@.skip(idx as int)[7] == s@[idx as int + 7]);
                        }
                        let w = match hex4_exec(s, idx + 8, n) {
                            Some(w) => w,
                            None => {
                                proof {
                                    if s@.skip(idx as int).len() >= 12 {
                                        assert(s@.skip(idx as int).skip(8) =~= s@.skip(
                                            idx as int + 8,
                                        ));
                                        assert(!hex4_ok(s@.skip(idx as int), 8));
                                    }
                                }
                                return None;
                            },
                        };
                        proof {
                            assert(s@.skip(idx as int).skip(8) =~= s@.skip(idx as int + 8));
                            assert(hex4_ok(s@.skip(idx as int), 8));
                            assert(hex4_val(s@.skip(idx as int), 8) == w as int);
                        }
                        if w < 0xDC00 || w >= 0xE000 {
                            return None;
                        }
                        let code: u32 = 0x10000 + (v - 0xD800) * 0x400 + (w - 0xDC00);
                        let e = char_from_u32(code);
                        proof {
                            vstd::utf8::char_u32_cast(e, code);
                        }
                        let ghost pre = acc@;
                        push_char(&mut acc, e);
                        proof {
                            assert(s@.skip(idx as int).skip(12) =~= s@.skip(idx as int + 12));
                            assert forall|q: Seq<char>| (pre + seq![e]) + q =~= pre + (seq![e] + q) by {}
                        }
                        idx = idx + 12;
                    } else {
                        // a lone low surrogate
                        return None;
                    }
                },
            }
        } else {
            let cu = c as u32;
            if cu >= 32 {
                let ghost pre = acc@;
                push_char(&mut acc, c);
                proof {
                    assert(s@.skip(idx as int).skip(1) =~= s@.skip(idx as int + 1));
                    assert forall|q: Seq<char>| (pre + seq![c]) + q =~= pre + (seq![c] + q) by {}
                }
                idx = idx + 1;
            } else {
                return None;
            }
        }
    }
}

/// Read an opening quote and a string body at position `i`.
fn parse_quoted_exec(s: &str, i: usize, n: usize) -> (r: Option<(String, usize)>)
    requires
        i <= n,
        n == s@.len(),
    ensures
        match r {
            Some(p) => i <= p.1 <= n && parse_quoted(s@.skip(i as int)) == Some(
                (p.0@, s@.skip(p.1 as int)),
            ),
            None => parse_quoted(s@.skip(i as int)) is None,
        },
{
    if i >= n || s.get_char(i) != '"' {
        proof {
            if i < n {
                assert(s@.skip(i as int)[0] == s@[i as int]);
            }
        }
        return None;
    }
    proof {
        assert(s@.skip(i as int)[0] == s@[i as int]);
        assert(s@.skip(i as int).skip(1) =~= s@.skip(i as int + 1));
    }
    parse_body_exec(s, i + 1, n)
}

/// The kind a decoded tag string denotes, if any.
fn kind_of_tag_exec(t: &str) -> (r: Option<MessageType>)
    ensures
        r == kind_of_tag(t@),
{
    proof {
        reveal_strlit("text");
        reveal_strlit("file");
        reveal_strlit("filechunk");
        reveal_strlit("filecomplete");
        reveal_strlit("heartbeat");
        reveal_strlit("ack");
        reveal_strlit("error");
        assert(("text")@ =~= kind_tag(MessageType::Text));
        assert(("file")@ =~= kind_tag(MessageType::File));
        assert(("filechunk")@ =~= kind_tag(MessageType::FileChunk));
        assert(("filecomplete")@ =~= kind_tag(MessageType::FileComplete));
        assert(("heartbeat")@ =~= kind_tag(MessageType::Heartbeat));
        assert(("ack")@ =~= kind_tag(MessageType::Ack));
        assert(("error")@ =~= kind_tag(MessageType::Error));
    }
    if crate::message::str_eq(t, "text") {
        Some(MessageType::Text)
    } else if crate::message::str_eq(t, "file") {
        Some(MessageType::File)
    } else if crate::message::str_eq(t, "filechunk") {
        Some(MessageType::FileChunk)
    } else if crate::message::str_eq(t, "filecomplete") {
        Some(MessageType::FileComplete)
    } else if crate::message::str_eq(t, "heartbeat") {
        Some(MessageType::Heartbeat)
    } else if crate::message::str_eq(t, "ack") {
        Some(MessageType::Ack)
    } else if crate::message::str_eq(t, "error") {
        Some(MessageType::Error)
    } else {
        None
    }
}

/// Whether the character at position `j` is a decimal digit.
fn digit_at(s: &str, j: usize) -> (b: bool)
    requires
        j < s@.len(),
    ensures
        b == is_digit(s@[j as int]),
{
    let cu = s.get_char(j) as u32;
    48 <= cu && cu <= 57
}

/// Every digit appended on the right leaves the value of a digit run
/// no smaller.
proof fn lemma_digits_val_mono(d: Seq<char>, m: int)
    requires
        0 <= m <= d.len(),
        forall|q: int| 0 <= q < d.len() ==> is_digit(d[q]),
    ensures
        digits_val(d) >= digits_val(d.take(m)),
        digits_val(d) >= 0,
    decreases d.len(),
{
    if d.len() == 0 {
    } else {
        assert(forall|q: int| 0 <= q < d.drop_last().len() ==> is_digit(d.drop_last()[q]));
        lemma_digits_val_mono(d.drop_last(), if m <= d.len() - 1 {
            m
        } else {
            d.len() - 1
        });
        assert(digit_val(d.last()) >= 0);
        if m == d.len() {
            assert(d.take(m) =~= d);
        } else {
            assert(d.drop_last().take(m) =~= d.take(m));
        }
    }
}

/// Read a decimal integer (optional leading `-`) at position `i`.
#[verifier::loop_isolation(false)]
#[verifier::rlimit(100)]
fn parse_int_exec(s: &str, i: usize, n: usize) -> (r: Option<(i64, usize)>)
    requires
        i <= n,
        n == s@.len(),
    ensures
        match r {
            Some(p) => i <= p.1 <= n && parse_int(s@.skip(i as int)) == Some(
                (p.0 as int, s@.skip(p.1 as int)),
            ),
            None => parse_int(s@.skip(i as int)) is None,
        },
{
    let neg = i < n && s.get_char(i) == '-';
    proof {
        if i < n {
            assert(s@.skip(i as int)[0] == s@[i as int]);
        }
    }
    let start: usize = if neg {
        i + 1
    } else {
        i
    };
    // length of the digit run
    let mut j: usize = start;
    while j < n && digit_at(s, j)
        invariant
            start <= j <= n,
            n == s@.len(),
            i <= start <= n,
            digits_len(s@.skip(start as int)) == j - start + digits_len(s@.skip(j as int)),
            forall|q: int| start <= q < j ==> is_digit(s@[q]),
        decreases n - j,
    {
        proof {
            assert(s@.skip(j as int)[0] == s@[j as int]);
            assert(s@.skip(j as int).drop_first() =~= s@.skip(j as int + 1));
        }
        j = j + 1;
    }
    proof {
        if j < n {
            assert(s@.skip(j as int)[0] == s@[j as int]);
        }
        assert(digits_len(s@.skip(j as int)) == 0);
        assert(digits_len(s@.skip(start as int)) == j - start);
        if neg {
            assert(s@.skip(i as int).skip(1) =~= s@.skip(start as int));
        }
    }
    if j == start {
        return None;
    }
    if s.get_char(start) == '0' && j - start > 1 {
        proof {
            assert(s@.skip(start as int)[0] == s@[start as int]);
        }
        return None;
    }
    proof {
        assert(s@.skip(start as int)[0] == s@[start as int]);
    }
    // value of the digit run
    let ghost run = s@.skip(start as int).take((j - start) as int);
    proof {
        assert(forall|q: int| 0 <= q < run.len() ==> run[q] == s@[start + q]);
    }
    let mut acc: u128 = 0;
    let mut k: usize = start;
    while k < j
        invariant
            start <= k <= j <= n,
            n == s@.len(),
            run == s@.skip(start as int).take((j - start) as int),
            run.len() == j - start,
            digits_len(s@.skip(start as int)) == j - start,
            !(s@[start as int] == '0' && j - start > 1),
            forall|q: int| 0 <= q < run.len() ==> run[q] == s@[start + q] && is_digit(run[q]),
            acc as int == digits_val(run.take((k - start) as int)),
            acc <= 0x8000000000000000,
        decreases j - k,
    {
        let c = s.get_char(k);
        proof {
            assert(run[(k - start) as int] == s@[k as int]);
            assert(is_digit(c));
        }
        let d = (c as u32 - 48) as u8;
        proof {
            assert(digit_val(c) == d as int);
            assert(run.take((k - start) as int + 1).drop_last() =~= run.take((k - start) as int));
            assert(run.take((k - start) as int + 1).last() == c);
        }
        let a2: u128 = acc * 10 + (d as u128);
        if a2 > 0x8000000000000000 {
            proof {
                assert(a2 as int == digits_val(run.take((k - start) as int + 1)));
                lemma_digits_val_mono(run, (k - start) as int + 1);
                assert(digits_val(run) >= a2 as int);
                assert(digits_val(s@.skip(start as int).take(digits_len(s@.skip(start as int))))
                    > 0x8000000000000000);
                if neg {
                    assert(s@.skip(i as int).skip(1) =~= s@.skip(start as int));
                }
            }
            return None;
        }
        acc = a2;
        k = k + 1;
    }
    proof {
        assert(run.take((j - start) as int) =~= run);
        assert(acc as int == digits_val(run));
    }
    if neg {
        let v: i64 = if acc == 0x8000000000000000 {
            i64::MIN
        } else {
            -((acc as u64) as i64)
        };
        proof {
            assert(v as int == -(acc as int));
            assert(s@.skip(start as int).skip((j - start) as int) =~= s@.skip(j as int));
            assert(s@.skip(i as int).skip(1) =~= s@.skip(start as int));
        }
        Some((v, j))
    } else {
        if acc > 0x7fffffffffffffff {
            return None;
        }
        let v: i64 = (acc as u64) as i64;
        proof {
            assert(v as int == acc as int);
            assert(s@.skip(start as int).skip((j - start) as int) =~= s@.skip(j as int));
        }
        Some((v, j))
    }
}

/// Read a whole metadata object, brace to brace, at position `i`.
#[verifier::loop_isolation(false)]
#[verifier::rlimit(100)]
fn parse_meta_from_exec(s: &str, i: usize, n: usize) -> (r: Option<(Vec<(String, String)>, usize)>)
    requires
        i <= n,
        n == s@.len(),
    ensures
        match r {
            Some(p) => i <= p.1 <= n && parse_meta_from(s@.skip(i as int)) == Some(
                (crate::message::pairs_of(p.0@), s@.skip(p.1 as int)),
            ),
            None => parse_meta_from(s@.skip(i as int)) is None,
        },
{
    if i >= n || s.get_char(i) != '{' {
        proof {
            if i < n {
                assert(s@.skip(i as int)[0] == s@[i as int]);
            }
        }
        return None;
    }
    proof {
        assert(s@.skip(i as int)[0] == s@[i as int]);
        assert(s@.skip(i as int).skip(1) =~= s@.skip(i as int + 1));
    }
    let j0 = skip_ws_exec(s, i + 1, n);
    if j0 < n && s.get_char(j0) == '}' {
        proof {
            assert(s@.skip(j0 as int)[0] == s@[j0 as int]);
            assert(s@.skip(j0 as int).skip(1) =~= s@.skip(j0 as int + 1));
            assert(crate::message::pairs_of(Seq::<(String, String)>::empty()) =~= Seq::<
                (Seq<char>, Seq<char>),
            >::empty());
        }
        return Some((Vec::new(), j0 + 1));
    }
    proof {
        if j0 < n {
            assert(s@.skip(j0 as int)[0] == s@[j0 as int]);
        }
        assert(parse_meta_obj(s@.skip(j0 as int)) == parse_meta_pairs(
            s@.skip(j0 as int),
            Seq::empty(),
        ));
        assert(crate::message::pairs_of(Seq::<(String, String)>::empty()) =~= Seq::<
            (Seq<char>, Seq<char>),
        >::empty());
    }
    let mut acc: Vec<(String, String)> = Vec::new();
    let mut idx: usize = j0;
    loop
        invariant
            i < idx <= n,
            n == s@.len(),
            parse_meta_obj(s@.skip(j0 as int)) == parse_meta_pairs(
                s@.skip(idx as int),
                crate::message::pairs_of(acc@),
            ),
        decreases n - idx,
    {
        let kp = match parse_quoted_exec(s, idx, n) {
            Some(p) => p,
            None => {
                return None;
            },
        };
        let (key, j1) = kp;
        let j2 = skip_ws_exec(s, j1, n);
        if j2 >= n || s.get_char(j2) != ':' {
            proof {
                if j2 < n {
                    assert(s@.skip(j2 as int)[0] == s@[j2 as int]);
                }
            }
            return None;
        }
        proof {
            assert(s@.skip(j2 as int)[0] == s@[j2 as int]);
            assert(s@.skip(j2 as int).skip(1) =~= s@.skip(j2 as int + 1));
        }
        let j3 = skip_ws_exec(s, j2 + 1, n);
        let vp = match parse_quoted_exec(s, j3, n) {
            Some(p) => p,
            None => {
                return None;
            },
        };
        let (val, j4) = vp;
        let j5 = skip_ws_exec(s, j4, n);
        let ghost accv = crate::message::pairs_of(acc@);
        crate::message::vec_meta_insert(&mut acc, key, val);
        if j5 < n && s.get_char(j5) == ',' {
            proof {
                assert(s@.skip(j5 as int)[0] == s@[j5 as int]);
                assert(s@.skip(j5 as int).skip(1) =~= s@.skip(j5 as int + 1));
            }
            let j6 = skip_ws_exec(s, j5 + 1, n);
            idx = j6;
        } else if j5 < n && s.get_char(j5) == '}' {
            proof {
                assert(s@.skip(j5 as int)[0] == s@[j5 as int]);
                assert(s@.skip(j5 as int).skip(1) =~= s@.skip(j5 as int + 1));
            }
            return Some((acc, j5 + 1));
        } else {
            proof {
                if j5 < n {
                    assert(s@.skip(j5 as int)[0] == s@[j5 as int]);
                }
            }
            return None;
        }
    }
}

/// The members of a message object, as read so far.
struct MsgAccum {
    id: Option<String>,
    kind: Option<MessageType>,
    from: Option<String>,
    to: Option<String>,
    content: Option<String>,
    timestamp: Option<i64>,
    metadata: Option<Vec<(String, String)>>,
}

impl MsgAccum {
    spec fn view_partial(&self) -> PartialMsg {
        PartialMsg {
            id: match self.id {
                Some(x) => Some(x@),
                None => None,
            },
            kind: self.kind,
            from: match self.from {
                Some(x) => Some(x@),
                None => None,
            },
            to: match self.to {
                Some(x) => Some(x@),
                None => None,
            },
            content: match self.content {
                Some(x) => Some(x@),
                None => None,
            },
            timestamp: match self.timestamp {
                Some(x) => Some(x as int),
                None => None,
            },
            metadata: match self.metadata {
                Some(x) => Some(crate::message::pairs_of(x@)),
                None => None,
            },
        }
    }
}

/// Read one `"name": value` member at position `i` into the
/// accumulated members.
#[verifier::rlimit(100)]
fn parse_member_exec(s: &str, i: usize, n: usize, acc: MsgAccum) -> (r: Option<(MsgAccum, usize)>)
    requires
        i <= n,
        n == s@.len(),
    ensures
        match r {
            Some(p) => i <= p.1 <= n && parse_member(s@.skip(i as int), acc.view_partial())
                == Some((p.0.view_partial(), s@.skip(p.1 as int))),
            None => parse_member(s@.skip(i as int), acc.view_partial()) is None,
        },
{
    proof {
        reveal_strlit("id");
        reveal_strlit("type");
        reveal_strlit("from");
        reveal_strlit("to");
        reveal_strlit("content");
        reveal_strlit("timestamp");
        reveal_strlit("metadata");
        assert(("id")@ =~= name_id());
        assert(("type")@ =~= name_type());
        assert(("from")@ =~= name_from());
        assert(("to")@ =~= name_to());
        assert(("content")@ =~= name_content());
        assert(("timestamp")@ =~= name_timestamp());
        assert(("metadata")@ =~= name_metadata());
    }
    let np = match parse_quoted_exec(s, i, n) {
        Some(p) => p,
        None => {
            return None;
        },
    };
    let (name, j1) = np;
    let j2 = skip_ws_exec(s, j1, n);
    if j2 >= n || s.get_char(j2) != ':' {
        proof {
            if j2 < n {
                assert(s@.skip(j2 as int)[0] == s@[j2 as int]);
            }
        }
        return None;
    }
    proof {
        assert(s@.skip(j2 as int)[0] == s@[j2 as int]);
        assert(s@.skip(j2 as int).skip(1) =~= s@.skip(j2 as int + 1));
    }
    let j3 = skip_ws_exec(s, j2 + 1, n);
    if crate::message::str_eq(name.as_str(), "id") {
        if acc.id.is_some() {
            return None;
        }
        match parse_quoted_exec(s, j3, n) {
            Some(p) => Some((MsgAccum { id: Some(p.0), ..acc }, p.1)),
            None => None,
        }
    } else if crate::message::str_eq(name.as_str(), "type") {
        if acc.kind.is_some() {
            return None;
        }
        match parse_quoted_exec(s, j3, n) {
            Some(p) => match kind_of_tag_exec(p.0.as_str()) {
                Some(k) => Some((MsgAccum { kind: Some(k), ..acc }, p.1)),
                None => None,
            },
            None => None,
        }
    } else if crate::message::str_eq(name.as_str(), "from") {
        if acc.from.is_some() {
            return None;
        }
        match parse_quoted_exec(s, j3, n) {
            Some(p) => Some((MsgAccum { from: Some(p.0), ..acc }, p.1)),
            None => None,
        }
    } else if crate::message::str_eq(name.as_str(), "to") {
        if acc.to.is_some() {
            return None;
        }
        match parse_quoted_exec(s, j3, n) {
            Some(p) => Some((MsgAccum { to: Some(p.0), ..acc }, p.1)),
            None => None,
        }
    } else if crate::message::str_eq(name.as_str(), "content") {
        if acc.content.is_some() {
            return None;
        }
        match parse_quoted_exec(s, j3, n) {
            Some(p) => Some((MsgAccum { content: Some(p.0), ..acc }, p.1)),
            None => None,
        }
    } else if crate::message::str_eq(name.as_str(), "timestamp") {
        if acc.timestamp.is_some() {
            return None;
        }
        match parse_int_exec(s, j3, n) {
            Some(p) => Some((MsgAccum { timestamp: Some(p.0), ..acc }, p.1)),
            None => None,
        }
    } else if crate::message::str_eq(name.as_str(), "metadata") {
        if acc.metadata.is_some() {
            return None;
        }
        match parse_meta_from_exec(s, j3, n) {
            Some(p) => Some((MsgAccum { metadata: Some(p.0), ..acc }, p.1)),
            None => None,
        }
    } else {
        None
    }
}

impl Message {
    /// Deserialize one JSON-encoded message.  Succeeds on exactly the
    /// inputs that `parse_message` accepts — the schema's members in
    /// any order, standard escapes and whitespace included — and
    /// returns the message the text denotes.
    #[verifier::loop_isolation(false)]
    #[verifier::rlimit(100)]
    pub fn from_json(s: &str) -> (r: Result<Message, CodecError>)
        ensures
            match r {
                Ok(m) => parse_message(s@) == Some(m@),
                Err(_) => parse_message(s@) is None,
            },
    {
        let n = s.unicode_len();
        proof {
            assert(s@.skip(0) =~= s@);
        }
        let i0 = skip_ws_exec(s, 0, n);
        if i0 >= n || s.get_char(i0) != '{' {
            proof {
                if i0 < n {
                    assert(s@.skip(i0 as int)[0] == s@[i0 as int]);
                }
            }
            return Err(CodecError::MalformedMessage);
        }
        proof {
            assert(s@.skip(i0 as int)[0] == s@[i0 as int]);
            assert(s@.skip(i0 as int).skip(1) =~= s@.skip(i0 as int + 1));
        }
        let start = skip_ws_exec(s, i0 + 1, n);
        if start < n && s.get_char(start) == '}' {
            proof {
                assert(s@.skip(start as int)[0] == s@[start as int]);
            }
            return Err(CodecError::MalformedMessage);
        }
        proof {
            if start < n {
                assert(s@.skip(start as int)[0] == s@[start as int]);
            }
        }
        let mut acc = MsgAccum {
            id: None,
            kind: None,
            from: None,
            to: None,
            content: None,
            timestamp: None,
            metadata: None,
        };
        proof {
            assert(acc.view_partial() =~= no_members());
        }
        let mut idx: usize = start;
        loop
            invariant
                i0 < idx <= n,
                n == s@.len(),
                parse_members(s@.skip(start as int), no_members()) == parse_members(
                    s@.skip(idx as int),
                    acc.view_partial(),
                ),
            decreases n - idx,
        {
            let mp = match parse_member_exec(s, idx, n, acc) {
                Some(p) => p,
                None => {
                    return Err(CodecError::MalformedMessage);
                },
            };
            acc = mp.0;
            let j = mp.1;
            let r = skip_ws_exec(s, j, n);
            if r < n && s.get_char(r) == ',' {
                proof {
                    assert(s@.skip(r as int)[0] == s@[r as int]);
                    assert(s@.skip(r as int).skip(1) =~= s@.skip(r as int + 1));
                }
                idx = skip_ws_exec(s, r + 1, n);
            } else if r < n && s.get_char(r) == '}' {
                proof {
                    assert(s@.skip(r as int)[0] == s@[r as int]);
                    assert(s@.skip(r as int).skip(1) =~= s@.skip(r as int + 1));
                }
                let after = skip_ws_exec(s, r + 1, n);
                if after < n {
                    proof {
                        assert(skip_ws(s@.skip(r as int + 1)).len() > 0);
                    }
                    return Err(CodecError::MalformedMessage);
                }
                proof {
                    assert(s@.skip(after as int).len() == 0);
                }
                // every required member must have arrived
                let id = match acc.id {
                    Some(x) => x,
                    None => {
                        return Err(CodecError::MalformedMessage);
                    },
                };
                let kind = match acc.kind {
                    Some(x) => x,
                    None => {
                        return Err(CodecError::MalformedMessage);
                    },
                };
                let from = match acc.from {
                    Some(x) => x,
                    None => {
                        return Err(CodecError::MalformedMessage);
                    },
                };
                let to = match acc.to {
                    Some(x) => x,
                    None => {
                        return Err(CodecError::MalformedMessage);
                    },
                };
                let content = match acc.content {
                    Some(x) => x,
                    None => {
                        return Err(CodecError::MalformedMessage);
                    },
                };
                let timestamp = match acc.timestamp {
                    Some(x) => x,
                    None => {
                        return Err(CodecError::MalformedMessage);
                    },
                };
                let metadata = match acc.metadata {
                    Some(x) => x,
                    None => Vec::new(),
                };
                let m = Message { id, msg_type: kind, from, to, content, timestamp, metadata };
                proof {
                    assert(m@.metadata =~= (match acc.metadata {
                        Some(x) => crate::message::pairs_of(x@),
                        None => Seq::<(Seq<char>, Seq<char>)>::empty(),
                    }));
                    assert(members_complete(acc.view_partial()) == Some(m@));
                }
                return Ok(m);
            } else {
                proof {
                    if r < n {
                        assert(s@.skip(r as int)[0] == s@[r as int]);
                    }
                }
                return Err(CodecError::MalformedMessage);
            }
        }
    }
}

// ------------------------------------------------------------------
// Framing
// ------------------------------------------------------------------
/// A received line with its trailing frame delimiter, if any, removed.
pub open spec fn frame_core(s: Seq<char>) -> Seq<char> {
    if s.len() > 0 && s.last() == '\n' {
        s.drop_last()
    } else {
        s
    }
}

/// The frame written on the wire for one message: its serialization
/// followed by the single delimiter byte.
pub fn encode_frame(m: &Message) -> (r: String)
    ensures
        r@ == spec_serialize(m@) + seq!['\n'],
{
    let mut out = m.to_json();
    push_char(&mut out, '\n');
    out
}

/// Decode one received frame, tolerating the trailing delimiter that a
/// line read leaves in place.
pub fn decode_frame(line: &str) -> (r: Result<Message, CodecError>)
    ensures
        match r {
            Ok(m) => parse_message(frame_core(line@)) == Some(m@),
            Err(_) => parse_message(frame_core(line@)) is None,
        },
{
    let n = line.unicode_len();
    if n > 0 && line.get_char(n - 1) == '\n' {
        let core = line.substring_char(0, n - 1);
        proof {
            assert(core@ =~= line@.drop_last());
        }
        Message::from_json(core)
    } else {
        Message::from_json(line)
    }
}

// ------------------------------------------------------------------
// The codec laws
// ------------------------------------------------------------------
proof fn lemma_hex_digit_val(d: int)
    requires
        0 <= d < 16,
    ensures
        is_hexc(hex_digit(d)),
        hex_vc(hex_digit(d)) == d,
{
    lemma_hex_digit_u32(d);
}

/// A string free of quotes, backslashes and control characters
/// escapes to itself.
proof fn lemma_escape_plain(s: Seq<char>)
    requires
        forall|i: int|
            0 <= i < s.len() ==> (#[trigger] s[i]) != '"' && s[i] != '\\' && (s[i] as u32) >= 32,
    ensures
        escape_seq(s) =~= s,
    decreases s.len(),
{
    if s.len() > 0 {
        assert(forall|i: int|
            0 <= i < s.drop_first().len() ==> (#[trigger] s.drop_first()[i]) == s[i + 1]);
        lemma_escape_plain(s.drop_first());
        assert(escape_char(s[0]) =~= seq![s[0]]);
        assert(escape_seq(s) =~= seq![s[0]] + s.drop_first());
    }
}

/// Unescaping a string body undoes the escaping exactly, leaving the
/// input after the closing quote untouched.
proof fn lemma_body_roundtrip(content: Seq<char>, rest: Seq<char>)
    ensures
        parse_body(escape_seq(content) + seq!['"'] + rest) == Some((content, rest)),
    decreases content.len(),
{
    let s = escape_seq(content) + seq!['"'] + rest;
    if content.len() == 0 {
        assert(escape_seq(content) =~= Seq::<char>::empty());
        assert(s[0] == '"');
        assert(s.skip(1) =~= rest);
    } else {
        let c = content[0];
        let tail = escape_seq(content.drop_first()) + seq!['"'] + rest;
        assert(escape_seq(content) == escape_char(c) + escape_seq(content.drop_first()));
        assert(s =~= escape_char(c) + tail);
        lemma_body_roundtrip(content.drop_first(), rest);
        if c == '"' {
            assert(s[0] == '\\' && s[1] == '"');
            assert(short_escape('"') == Some('"'));
            assert(s.skip(2) =~= tail);
            assert(seq![short_escape(s[1])->Some_0] + content.drop_first() =~= content);
        } else if c == '\\' {
            assert(s[0] == '\\' && s[1] == '\\');
            assert(short_escape('\\') == Some('\\'));
            assert(s.skip(2) =~= tail);
            assert(seq![short_escape(s[1])->Some_0] + content.drop_first() =~= content);
        } else if (c as u32) < 32 {
            let cu = (c as u32) as int;
            assert(s[0] == '\\' && s[1] == 'u' && s[2] == '0' && s[3] == '0');
            assert(s[4] == hex_digit(cu / 16) && s[5] == hex_digit(cu % 16));
            assert(short_escape('u') is None);
            lemma_hex_digit_val(0);
            lemma_hex_digit_val(cu / 16);
            lemma_hex_digit_val(cu % 16);
            assert(hex_vc('0') == 0);
            assert(hex4_ok(s, 2));
            assert(hex4_val(s, 2) == cu);
            assert(cu < 0xD800);
            assert(s.skip(6) =~= tail);
            vstd::utf8::char_u32_cast(c, c as u32);
            assert((cu as char) == c);
            assert(seq![hex4_val(s, 2) as char] + content.drop_first() =~= content);
        } else {
            assert(s[0] == c);
            assert(s[0] != '"' && s[0] != '\\' && (s[0] as u32) >= 32);
            assert(s.skip(1) =~= tail);
            assert(seq![s[0]] + content.drop_first() =~= content);
        }
    }
}

/// Basic shape of `dec_nat`: nonempty, all digits, and a leading zero
/// only for the number zero itself.
proof fn lemma_dec_nat_shape(n: int)
    requires
        n >= 0,
    ensures
        dec_nat(n).len() >= 1,
        forall|i: int| 0 <= i < dec_nat(n).len() ==> is_digit(#[trigger] dec_nat(n)[i]),
        n > 0 ==> dec_nat(n)[0] != '0',
        n == 0 ==> dec_nat(n) =~= seq!['0'],
    decreases n,
{
    if n < 10 {
        lemma_hex_digit_u32(n);
        assert(dec_nat(n) == seq![hex_digit(n)]);
        if n > 0 {
            assert(hex_digit(n) as u32 == 48 + n);
            assert(('0' as u32) == 48);
        }
    } else {
        lemma_dec_nat_shape(n / 10);
        lemma_hex_digit_u32(n % 10);
        assert(dec_nat(n) == dec_nat(n / 10) + seq![hex_digit(n % 10)]);
        assert(dec_nat(n)[0] == dec_nat(n / 10)[0]);
        assert forall|i: int| 0 <= i < dec_nat(n).len() implies is_digit(
            #[trigger] dec_nat(n)[i],
        ) by {
            if i < dec_nat(n / 10).len() {
                assert(dec_nat(n)[i] == dec_nat(n / 10)[i]);
            } else {
                assert(dec_nat(n)[i] == hex_digit(n % 10));
            }
        }
    }
}

/// A run of digits followed by a non-digit scans as exactly that run.
proof fn lemma_digits_len_concat(d: Seq<char>, rest: Seq<char>)
    requires
        forall|i: int| 0 <= i < d.len() ==> is_digit(#[trigger] d[i]),
        rest.len() == 0 || !is_digit(rest[0]),
    ensures
        digits_len(d + rest) == d.len(),
    decreases d.len(),
{
    if d.len() == 0 {
        assert(d + rest =~= rest);
    } else {
        assert((d + rest)[0] == d[0]);
        assert((d + rest).drop_first() =~= d.drop_first() + rest);
        assert(forall|i: int|
            0 <= i < d.drop_first().len() ==> is_digit(#[trigger] d.drop_first()[i]));
        lemma_digits_len_concat(d.drop_first(), rest);
    }
}

proof fn lemma_digits_val_dec_nat(n: int)
    requires
        n >= 0,
    ensures
        digits_val(dec_nat(n)) == n,
    decreases n,
{
    if n < 10 {
        lemma_hex_digit_u32(n);
        assert(dec_nat(n) == seq![hex_digit(n)]);
        assert(dec_nat(n).drop_last() =~= Seq::<char>::empty());
        assert(dec_nat(n).last() == hex_digit(n));
        assert(digits_val(Seq::<char>::empty()) == 0);
        assert(digit_val(hex_digit(n)) == n);
    } else {
        lemma_digits_val_dec_nat(n / 10);
        lemma_hex_digit_u32(n % 10);
        assert(dec_nat(n) == dec_nat(n / 10) + seq![hex_digit(n % 10)]);
        assert(dec_nat(n).drop_last() =~= dec_nat(n / 10));
        assert(dec_nat(n).last() == hex_digit(n % 10));
        assert(digit_val(hex_digit(n % 10)) == n % 10);
    }
}

/// Reading back the decimal form of an integer in `i64` range yields
/// the integer, when what follows does not begin with a digit.
proof fn lemma_int_roundtrip(n: int, rest: Seq<char>)
    requires
        -0x8000000000000000 <= n <= 0x7fffffffffffffff,
        rest.len() == 0 || !is_digit(rest[0]),
    ensures
        parse_int(dec_int(n) + rest) == Some((n, rest)),
{
    let s = dec_int(n) + rest;
    if n >= 0 {
        lemma_dec_nat_shape(n);
        assert(s[0] == dec_nat(n)[0]);
        assert(is_digit(s[0]));
        assert(('-' as u32) == 45);
        assert(s[0] != '-');
        lemma_digits_len_concat(dec_nat(n), rest);
        assert(digits_len(s) == dec_nat(n).len());
        assert(s.take(dec_nat(n).len() as int) =~= dec_nat(n));
        assert(s.skip(dec_nat(n).len() as int) =~= rest);
        lemma_digits_val_dec_nat(n);
        if n == 0 {
            assert(digits_len(s) == 1);
        } else {
            assert(s[0] != '0');
        }
    } else {
        let m = -n;
        lemma_dec_nat_shape(m);
        assert(dec_int(n) == seq!['-'] + dec_nat(m));
        assert(s[0] == '-');
        assert(s.skip(1) =~= dec_nat(m) + rest);
        lemma_digits_len_concat(dec_nat(m), rest);
        let q = dec_nat(m) + rest;
        assert(digits_len(q) == dec_nat(m).len());
        assert(q.take(dec_nat(m).len() as int) =~= dec_nat(m));
        assert(q.skip(dec_nat(m).len() as int) =~= rest);
        lemma_digits_val_dec_nat(m);
        assert(q[0] == dec_nat(m)[0]);
        assert(q[0] != '0');
        assert(parse_nat(q) == Some((m, rest)));
    }
}

/// The tag of each kind denotes that kind and no other.
proof fn lemma_kind_of_tag(k: MessageType)
    ensures
        kind_of_tag(kind_tag(k)) == Some(k),
        forall|i: int|
            0 <= i < kind_tag(k).len() ==> (#[trigger] kind_tag(k)[i]) != '"' && kind_tag(k)[i]
                != '\\' && (kind_tag(k)[i] as u32) >= 32,
{
    assert(kind_tag(MessageType::Text).len() == 4);
    assert(kind_tag(MessageType::File).len() == 4);
    assert(kind_tag(MessageType::FileChunk).len() == 9);
    assert(kind_tag(MessageType::FileComplete).len() == 12);
    assert(kind_tag(MessageType::Heartbeat).len() == 9);
    assert(kind_tag(MessageType::Ack).len() == 3);
    assert(kind_tag(MessageType::Error).len() == 5);
    match k {
        MessageType::Text => {},
        MessageType::File => {
            assert(kind_tag(MessageType::File) != kind_tag(MessageType::Text)) by {
                assert(kind_tag(MessageType::File)[0] == 'f');
                assert(kind_tag(MessageType::Text)[0] == 't');
            }
        },
        MessageType::FileChunk => {},
        MessageType::FileComplete => {},
        MessageType::Heartbeat => {
            assert(kind_tag(MessageType::Heartbeat) != kind_tag(MessageType::FileChunk)) by {
                assert(kind_tag(MessageType::Heartbeat)[0] == 'h');
                assert(kind_tag(MessageType::FileChunk)[0] == 'f');
            }
        },
        MessageType::Ack => {},
        MessageType::Error => {},
    }
}

/// One member holding a string: `"name":"value"`, dispatched to the
/// field `name` picks.  One lemma per concrete name.
#[verifier::rlimit(100)]
proof fn lemma_member_id(value: Seq<char>, rest: Seq<char>, acc: PartialMsg)
    requires
        acc.id is None,
    ensures
        parse_member(seq!['"', 'i', 'd', '"', ':', '"'] + escape_seq(value) + seq!['"'] + rest, acc)
            == Some((PartialMsg { id: Some(value), ..acc }, rest)),
{
    let s = seq!['"', 'i', 'd', '"', ':', '"'] + escape_seq(value) + seq!['"'] + rest;
    let after_name = seq![':', '"'] + escape_seq(value) + seq!['"'] + rest;
    assert(s[0] == '"');
    lemma_escape_plain(name_id());
    lemma_body_roundtrip(name_id(), after_name);
    assert(s.skip(1) =~= escape_seq(name_id()) + seq!['"'] + after_name);
    assert(parse_quoted(s) == Some((name_id(), after_name)));
    assert(!is_ws(':'));
    assert(skip_ws(after_name) == after_name);
    assert(after_name[0] == ':');
    let r2 = after_name.skip(1);
    assert(r2 =~= seq!['"'] + (escape_seq(value) + seq!['"'] + rest));
    assert(!is_ws('"'));
    assert(r2[0] == '"');
    assert(skip_ws(r2) == r2);
    lemma_body_roundtrip(value, rest);
    assert(r2.skip(1) =~= escape_seq(value) + seq!['"'] + rest);
    assert(parse_quoted(r2) == Some((value, rest)));
}

#[verifier::rlimit(100)]
proof fn lemma_member_from(value: Seq<char>, rest: Seq<char>, acc: PartialMsg)
    requires
        acc.from is None,
    ensures
        parse_member(
            seq!['"', 'f', 'r', 'o', 'm', '"', ':', '"'] + escape_seq(value) + seq!['"'] + rest,
            acc,
        ) == Some((PartialMsg { from: Some(value), ..acc }, rest)),
{
    let s = seq!['"', 'f', 'r', 'o', 'm', '"', ':', '"'] + escape_seq(value) + seq!['"'] + rest;
    let after_name = seq![':', '"'] + escape_seq(value) + seq!['"'] + rest;
    assert(s[0] == '"');
    lemma_escape_plain(name_from());
    lemma_body_roundtrip(name_from(), after_name);
    assert(s.skip(1) =~= escape_seq(name_from()) + seq!['"'] + after_name);
    assert(parse_quoted(s) == Some((name_from(), after_name)));
    assert(name_from() != name_type()) by {
        assert(name_from()[0] == 'f');
        assert(name_type()[0] == 't');
    }
    assert(!is_ws(':'));
    assert(skip_ws(after_name) == after_name);
    assert(after_name[0] == ':');
    let r2 = after_name.skip(1);
    assert(r2 =~= seq!['"'] + (escape_seq(value) + seq!['"'] + rest));
    assert(!is_ws('"'));
    assert(r2[0] == '"');
    assert(skip_ws(r2) == r2);
    lemma_body_roundtrip(value, rest);
    assert(r2.skip(1) =~= escape_seq(value) + seq!['"'] + rest);
    assert(parse_quoted(r2) == Some((value, rest)));
}

#[verifier::rlimit(100)]
proof fn lemma_member_to(value: Seq<char>, rest: Seq<char>, acc: PartialMsg)
    requires
        acc.to is None,
    ensures
        parse_member(seq!['"', 't', 'o', '"', ':', '"'] + escape_seq(value) + seq!['"'] + rest, acc)
            == Some((PartialMsg { to: Some(value), ..acc }, rest)),
{
    let s = seq!['"', 't', 'o', '"', ':', '"'] + escape_seq(value) + seq!['"'] + rest;
    let after_name = seq![':', '"'] + escape_seq(value) + seq!['"'] + rest;
    assert(s[0] == '"');
    lemma_escape_plain(name_to());
    lemma_body_roundtrip(name_to(), after_name);
    assert(s.skip(1) =~= escape_seq(name_to()) + seq!['"'] + after_name);
    assert(parse_quoted(s) == Some((name_to(), after_name)));
    assert(name_to() != name_id()) by {
        assert(name_to()[0] == 't');
        assert(name_id()[0] == 'i');
    }
    assert(!is_ws(':'));
    assert(skip_ws(after_name) == after_name);
    assert(after_name[0] == ':');
    let r2 = after_name.skip(1);
    assert(r2 =~= seq!['"'] + (escape_seq(value) + seq!['"'] + rest));
    assert(!is_ws('"'));
    assert(r2[0] == '"');
    assert(skip_ws(r2) == r2);
    lemma_body_roundtrip(value, rest);
    assert(r2.skip(1) =~= escape_seq(value) + seq!['"'] + rest);
    assert(parse_quoted(r2) == Some((value, rest)));
}

#[verifier::rlimit(100)]
proof fn lemma_member_content(value: Seq<char>, rest: Seq<char>, acc: PartialMsg)
    requires
        acc.content is None,
    ensures
        parse_member(
            seq!['"', 'c', 'o', 'n', 't', 'e', 'n', 't', '"', ':', '"'] + escape_seq(value)
                + seq!['"'] + rest,
            acc,
        ) == Some((PartialMsg { content: Some(value), ..acc }, rest)),
{
    let s = seq!['"', 'c', 'o', 'n', 't', 'e', 'n', 't', '"', ':', '"'] + escape_seq(value)
        + seq!['"'] + rest;
    let after_name = seq![':', '"'] + escape_seq(value) + seq!['"'] + rest;
    assert(s[0] == '"');
    lemma_escape_plain(name_content());
    lemma_body_roundtrip(name_content(), after_name);
    assert(s.skip(1) =~= escape_seq(name_content()) + seq!['"'] + after_name);
    assert(parse_quoted(s) == Some((name_content(), after_name)));
    assert(!is_ws(':'));
    assert(skip_ws(after_name) == after_name);
    assert(after_name[0] == ':');
    let r2 = after_name.skip(1);
    assert(r2 =~= seq!['"'] + (escape_seq(value) + seq!['"'] + rest));
    assert(!is_ws('"'));
    assert(r2[0] == '"');
    assert(skip_ws(r2) == r2);
    lemma_body_roundtrip(value, rest);
    assert(r2.skip(1) =~= escape_seq(value) + seq!['"'] + rest);
    assert(parse_quoted(r2) == Some((value, rest)));
}

#[verifier::rlimit(100)]
proof fn lemma_member_type(k: MessageType, rest: Seq<char>, acc: PartialMsg)
    requires
        acc.kind is None,
    ensures
        parse_member(
            seq!['"', 't', 'y', 'p', 'e', '"', ':', '"'] + kind_tag(k) + seq!['"'] + rest,
            acc,
        ) == Some((PartialMsg { kind: Some(k), ..acc }, rest)),
{
    let s = seq!['"', 't', 'y', 'p', 'e', '"', ':', '"'] + kind_tag(k) + seq!['"'] + rest;
    let after_name = seq![':', '"'] + kind_tag(k) + seq!['"'] + rest;
    assert(s[0] == '"');
    lemma_escape_plain(name_type());
    lemma_body_roundtrip(name_type(), after_name);
    assert(s.skip(1) =~= escape_seq(name_type()) + seq!['"'] + after_name);
    assert(parse_quoted(s) == Some((name_type(), after_name)));
    assert(!is_ws(':'));
    assert(skip_ws(after_name) == after_name);
    assert(after_name[0] == ':');
    let r2 = after_name.skip(1);
    assert(r2 =~= seq!['"'] + (kind_tag(k) + seq!['"'] + rest));
    assert(!is_ws('"'));
    assert(r2[0] == '"');
    assert(skip_ws(r2) == r2);
    lemma_kind_of_tag(k);
    lemma_escape_plain(kind_tag(k));
    lemma_body_roundtrip(kind_tag(k), rest);
    assert(r2.skip(1) =~= escape_seq(kind_tag(k)) + seq!['"'] + rest);
    assert(parse_quoted(r2) == Some((kind_tag(k), rest)));
}

#[verifier::rlimit(100)]
proof fn lemma_member_timestamp(n: int, rest: Seq<char>, acc: PartialMsg)
    requires
        acc.timestamp is None,
        -0x8000000000000000 <= n <= 0x7fffffffffffffff,
        rest.len() == 0 || !is_digit(rest[0]),
    ensures
        parse_member(
            seq!['"', 't', 'i', 'm', 'e', 's', 't', 'a', 'm', 'p', '"', ':'] + dec_int(n) + rest,
            acc,
        ) == Some((PartialMsg { timestamp: Some(n), ..acc }, rest)),
{
    let s = seq!['"', 't', 'i', 'm', 'e', 's', 't', 'a', 'm', 'p', '"', ':'] + dec_int(n) + rest;
    let after_name = seq![':'] + dec_int(n) + rest;
    assert(s[0] == '"');
    lemma_escape_plain(name_timestamp());
    lemma_body_roundtrip(name_timestamp(), after_name);
    assert(s.skip(1) =~= escape_seq(name_timestamp()) + seq!['"'] + after_name);
    assert(parse_quoted(s) == Some((name_timestamp(), after_name)));
    assert(name_timestamp() != name_type()) by {
        assert(name_timestamp().len() == 9);
        assert(name_type().len() == 4);
    }
    assert(!is_ws(':'));
    assert(skip_ws(after_name) == after_name);
    assert(after_name[0] == ':');
    let r2 = after_name.skip(1);
    assert(r2 =~= dec_int(n) + rest);
    lemma_int_roundtrip(n, rest);
    lemma_dec_nat_shape(if n >= 0 { n } else { -n });
    assert(r2.len() > 0);
    assert(!is_ws(r2[0])) by {
        if n >= 0 {
            assert(r2[0] == dec_nat(n)[0]);
            assert(is_digit(r2[0]));
        } else {
            assert(r2[0] == '-');
        }
    }
    assert(skip_ws(r2) == r2);
}

/// Reading back a serialized nonempty pair list yields the pairs,
/// appended to what was already read.
#[verifier::rlimit(100)]
proof fn lemma_pairs_roundtrip(
    ps: Seq<(Seq<char>, Seq<char>)>,
    acc: Seq<(Seq<char>, Seq<char>)>,
    rest: Seq<char>,
)
    requires
        ps.len() >= 1,
        crate::message::meta_keys_unique(ps),
        forall|i: int, j: int|
            0 <= i < ps.len() && 0 <= j < acc.len() ==> (#[trigger] ps[i].0) != (
            #[trigger] acc[j].0),
    ensures
        parse_meta_pairs(meta_body(ps) + seq!['}'] + rest, acc) == Some((acc + ps, rest)),
    decreases ps.len(),
{
    let s = meta_body(ps) + seq!['}'] + rest;
    let k = ps[0].0;
    let v = ps[0].1;
    assert(forall|j: int| 0 <= j < acc.len() ==> k != (#[trigger] acc[j].0));
    crate::message::lemma_meta_insert_absent(acc, k, v);
    if ps.len() == 1 {
        assert(meta_body(ps) == meta_pair(ps[0]));
        let after_key = seq![':', '"'] + escape_seq(v) + seq!['"', '}'] + rest;
        assert(s =~= seq!['"'] + (escape_seq(k) + seq!['"'] + after_key));
        assert(s[0] == '"');
        assert(s.skip(1) =~= escape_seq(k) + seq!['"'] + after_key);
        lemma_body_roundtrip(k, after_key);
        assert(!is_ws(':'));
        assert(skip_ws(after_key) == after_key);
        assert(after_key[0] == ':');
        let r2 = after_key.skip(1);
        assert(r2 =~= seq!['"'] + (escape_seq(v) + seq!['"'] + (seq!['}'] + rest)));
        assert(!is_ws('"'));
        assert(r2[0] == '"');
        assert(skip_ws(r2) == r2);
        lemma_body_roundtrip(v, seq!['}'] + rest);
        assert(r2.skip(1) =~= escape_seq(v) + seq!['"'] + (seq!['}'] + rest));
        let r3 = seq!['}'] + rest;
        assert(!is_ws('}'));
        assert(skip_ws(r3) == r3);
        assert(r3[0] == '}');
        assert(r3.skip(1) =~= rest);
        assert(acc.push((k, v)) =~= acc + ps);
    } else {
        assert(meta_body(ps) == meta_pair(ps[0]) + seq![','] + meta_body(ps.drop_first()));
        let cont = seq![','] + meta_body(ps.drop_first()) + seq!['}'] + rest;
        let after_key = seq![':', '"'] + escape_seq(v) + seq!['"'] + cont;
        assert(s =~= seq!['"'] + (escape_seq(k) + seq!['"'] + after_key));
        assert(s[0] == '"');
        assert(s.skip(1) =~= escape_seq(k) + seq!['"'] + after_key);
        lemma_body_roundtrip(k, after_key);
        assert(!is_ws(':'));
        assert(skip_ws(after_key) == after_key);
        assert(after_key[0] == ':');
        let r2 = after_key.skip(1);
        assert(r2 =~= seq!['"'] + (escape_seq(v) + seq!['"'] + cont));
        assert(!is_ws('"'));
        assert(r2[0] == '"');
        assert(skip_ws(r2) == r2);
        lemma_body_roundtrip(v, cont);
        assert(r2.skip(1) =~= escape_seq(v) + seq!['"'] + cont);
        assert(!is_ws(','));
        assert(skip_ws(cont) == cont);
        assert(cont[0] == ',');
        let nxt = cont.skip(1);
        assert(nxt =~= meta_body(ps.drop_first()) + seq!['}'] + rest);
        assert(meta_pair(ps.drop_first()[0])[0] == '"');
        assert(nxt[0] == '"') by {
            if ps.drop_first().len() == 1 {
                assert(meta_body(ps.drop_first()) == meta_pair(ps.drop_first()[0]));
            } else {
                assert(meta_body(ps.drop_first()) == meta_pair(ps.drop_first()[0]) + seq![',']
                    + meta_body(ps.drop_first().drop_first()));
            }
        }
        assert(!is_ws('"'));
        assert(skip_ws(nxt) == nxt);
        assert(crate::message::meta_keys_unique(ps.drop_first())) by {
            assert(forall|i: int, j: int|
                0 <= i < j < ps.drop_first().len() ==> (#[trigger] ps.drop_first()[i]) == ps[i + 1]
                    && (#[trigger] ps.drop_first()[j]) == ps[j + 1]);
        }
        assert(forall|i: int, j: int|
            0 <= i < ps.drop_first().len() && 0 <= j < acc.push((k, v)).len() ==> (
            #[trigger] ps.drop_first()[i].0) != (#[trigger] acc.push((k, v))[j].0)) by {
            assert(forall|i: int|
                0 <= i < ps.drop_first().len() ==> (#[trigger] ps.drop_first()[i]) == ps[i + 1]);
        }
        lemma_pairs_roundtrip(ps.drop_first(), acc.push((k, v)), rest);
        assert(acc.push((k, v)) + ps.drop_first() =~= acc + ps);
    }
}

/// Reading back a whole serialized metadata object yields the
/// mapping.
#[verifier::rlimit(100)]
proof fn lemma_meta_value_roundtrip(ps: Seq<(Seq<char>, Seq<char>)>, rest: Seq<char>)
    requires
        crate::message::meta_keys_unique(ps),
    ensures
        parse_meta_from(seq!['{'] + (meta_body(ps) + seq!['}'] + rest)) == Some((ps, rest)),
{
    let r2 = seq!['{'] + (meta_body(ps) + seq!['}'] + rest);
    assert(r2[0] == '{');
    let inner = r2.skip(1);
    assert(inner =~= meta_body(ps) + seq!['}'] + rest);
    if ps.len() == 0 {
        assert(meta_body(ps) =~= Seq::<char>::empty());
        assert(inner =~= seq!['}'] + rest);
        assert(!is_ws('}'));
        assert(inner[0] == '}');
        assert(skip_ws(inner) == inner);
        assert(inner.skip(1) =~= rest);
        assert(Seq::<(Seq<char>, Seq<char>)>::empty() =~= ps);
    } else {
        assert(meta_pair(ps[0])[0] == '"');
        assert(inner[0] == '"') by {
            if ps.len() == 1 {
                assert(meta_body(ps) == meta_pair(ps[0]));
            } else {
                assert(meta_body(ps) == meta_pair(ps[0]) + seq![','] + meta_body(ps.drop_first()));
            }
        }
        assert(!is_ws('"'));
        assert(skip_ws(inner) == inner);
        lemma_pairs_roundtrip(ps, Seq::empty(), rest);
        assert(Seq::<(Seq<char>, Seq<char>)>::empty() + ps =~= ps);
    }
}

/// One member holding the metadata object.
#[verifier::rlimit(100)]
proof fn lemma_member_metadata(
    ps: Seq<(Seq<char>, Seq<char>)>,
    rest: Seq<char>,
    acc: PartialMsg,
)
    requires
        acc.metadata is None,
        crate::message::meta_keys_unique(ps),
    ensures
        parse_member(
            seq!['"', 'm', 'e', 't', 'a', 'd', 'a', 't', 'a', '"', ':', '{'] + meta_body(ps)
                + seq!['}'] + rest,
            acc,
        ) == Some((PartialMsg { metadata: Some(ps), ..acc }, rest)),
{
    let s = seq!['"', 'm', 'e', 't', 'a', 'd', 'a', 't', 'a', '"', ':', '{'] + meta_body(ps)
        + seq!['}'] + rest;
    let after_name = seq![':', '{'] + meta_body(ps) + seq!['}'] + rest;
    assert(s[0] == '"');
    lemma_escape_plain(name_metadata());
    lemma_body_roundtrip(name_metadata(), after_name);
    assert(s.skip(1) =~= escape_seq(name_metadata()) + seq!['"'] + after_name);
    assert(parse_quoted(s) == Some((name_metadata(), after_name)));
    assert(name_metadata() != name_timestamp()) by {
        assert(name_metadata().len() == 8);
        assert(name_timestamp().len() == 9);
    }
    assert(!is_ws(':'));
    assert(skip_ws(after_name) == after_name);
    assert(after_name[0] == ':');
    let r2 = after_name.skip(1);
    assert(r2 =~= seq!['{'] + (meta_body(ps) + seq!['}'] + rest));
    assert(!is_ws('{'));
    assert(r2[0] == '{');
    assert(skip_ws(r2) == r2);
    lemma_meta_value_roundtrip(ps, rest);
}

/// What the serialized text holds from each member on.
pub open spec fn ser_in_meta(v: MsgView) -> Seq<char> {
    seq!['"', 'm', 'e', 't', 'a', 'd', 'a', 't', 'a', '"', ':', '{'] + meta_body(v.metadata)
        + seq!['}'] + seq!['}']
}

pub open spec fn ser_in_ts(v: MsgView) -> Seq<char> {
    seq!['"', 't', 'i', 'm', 'e', 's', 't', 'a', 'm', 'p', '"', ':'] + dec_int(v.timestamp) + (
    seq![','] + ser_in_meta(v))
}

pub open spec fn ser_in_ct(v: MsgView) -> Seq<char> {
    seq!['"', 'c', 'o', 'n', 't', 'e', 'n', 't', '"', ':', '"'] + escape_seq(v.content)
        + seq!['"'] + (seq![','] + ser_in_ts(v))
}

pub open spec fn ser_in_to(v: MsgView) -> Seq<char> {
    seq!['"', 't', 'o', '"', ':', '"'] + escape_seq(v.to) + seq!['"'] + (seq![','] + ser_in_ct(v))
}

pub open spec fn ser_in_from(v: MsgView) -> Seq<char> {
    seq!['"', 'f', 'r', 'o', 'm', '"', ':', '"'] + escape_seq(v.from) + seq!['"'] + (seq![',']
        + ser_in_to(v))
}

pub open spec fn ser_in_type(v: MsgView) -> Seq<char> {
    seq!['"', 't', 'y', 'p', 'e', '"', ':', '"'] + kind_tag(v.kind) + seq!['"'] + (seq![',']
        + ser_in_from(v))
}

pub open spec fn ser_in_id(v: MsgView) -> Seq<char> {
    seq!['"', 'i', 'd', '"', ':', '"'] + escape_seq(v.id) + seq!['"'] + (seq![','] + ser_in_type(
        v,
    ))
}

/// Reading members from `to` on fills the last four fields and ends
/// at the object's closing brace.
#[verifier::rlimit(100)]
proof fn lemma_members_from_to(v: MsgView, acc: PartialMsg)
    requires
        acc.to is None,
        acc.content is None,
        acc.timestamp is None,
        acc.metadata is None,
        -0x8000000000000000 <= v.timestamp <= 0x7fffffffffffffff,
        crate::message::meta_keys_unique(v.metadata),
    ensures
        parse_members(ser_in_to(v), acc) == Some(
            (
                PartialMsg {
                    to: Some(v.to),
                    content: Some(v.content),
                    timestamp: Some(v.timestamp),
                    metadata: Some(v.metadata),
                    ..acc
                },
                Seq::<char>::empty(),
            ),
        ),
{
    let r_end = seq!['}'];
    lemma_member_to(v.to, seq![','] + ser_in_ct(v), acc);
    let acc1 = PartialMsg { to: Some(v.to), ..acc };
    lemma_member_content(v.content, seq![','] + ser_in_ts(v), acc1);
    let acc2 = PartialMsg { content: Some(v.content), ..acc1 };
    assert((seq![','] + ser_in_meta(v)).len() > 0 && !is_digit((seq![','] + ser_in_meta(v))[0]))
        by {
        assert((seq![','] + ser_in_meta(v))[0] == ',');
        assert((',' as u32) == 44);
    }
    lemma_member_timestamp(v.timestamp, seq![','] + ser_in_meta(v), acc2);
    let acc3 = PartialMsg { timestamp: Some(v.timestamp), ..acc2 };
    assert(ser_in_meta(v) =~= seq!['"', 'm', 'e', 't', 'a', 'd', 'a', 't', 'a', '"', ':', '{']
        + meta_body(v.metadata) + seq!['}'] + r_end);
    lemma_member_metadata(v.metadata, r_end, acc3);
    let acc4 = PartialMsg { metadata: Some(v.metadata), ..acc3 };
    assert(!is_ws(','));
    assert(!is_ws('"'));
    assert(!is_ws('}'));
    assert((seq![','] + ser_in_ct(v)).skip(1) =~= ser_in_ct(v));
    assert((seq![','] + ser_in_ts(v)).skip(1) =~= ser_in_ts(v));
    assert((seq![','] + ser_in_meta(v)).skip(1) =~= ser_in_meta(v));
    assert(skip_ws(seq![','] + ser_in_ct(v)) == seq![','] + ser_in_ct(v));
    assert(skip_ws(seq![','] + ser_in_ts(v)) == seq![','] + ser_in_ts(v));
    assert(skip_ws(seq![','] + ser_in_meta(v)) == seq![','] + ser_in_meta(v));
    assert(skip_ws(ser_in_ct(v)) == ser_in_ct(v));
    assert(skip_ws(ser_in_ts(v)) == ser_in_ts(v));
    assert(skip_ws(ser_in_meta(v)) == ser_in_meta(v));
    assert(skip_ws(r_end) == r_end);
    assert(r_end.skip(1) =~= Seq::<char>::empty());
    assert(parse_members(ser_in_meta(v), acc3) == Some((acc4, Seq::<char>::empty())));
    assert(parse_members(ser_in_ts(v), acc2) == Some((acc4, Seq::<char>::empty())));
    assert(parse_members(ser_in_ct(v), acc1) == Some((acc4, Seq::<char>::empty())));
    assert(parse_members(ser_in_to(v), acc) == Some((acc4, Seq::<char>::empty())));
}

/// The canonical text is the object brace followed by the members.
#[verifier::rlimit(100)]
proof fn lemma_serialize_decompose(v: MsgView)
    ensures
        spec_serialize(v) =~= seq!['{'] + ser_in_id(v),
{
    assert(spec_serialize(v) =~= seq!['{'] + ser_in_id(v));
}

/// Every member read, in one record.
pub open spec fn all_members(v: MsgView) -> PartialMsg {
    PartialMsg {
        id: Some(v.id),
        kind: Some(v.kind),
        from: Some(v.from),
        to: Some(v.to),
        content: Some(v.content),
        timestamp: Some(v.timestamp),
        metadata: Some(v.metadata),
    }
}

/// Reading the members of the canonical text from the first one on
/// fills every field and ends at the object's closing brace.
#[verifier::rlimit(100)]
proof fn lemma_members_from_id(v: MsgView)
    requires
        -0x8000000000000000 <= v.timestamp <= 0x7fffffffffffffff,
        crate::message::meta_keys_unique(v.metadata),
    ensures
        parse_members(ser_in_id(v), no_members()) == Some((all_members(v), Seq::<char>::empty())),
{
    let acc0 = no_members();
    lemma_member_id(v.id, seq![','] + ser_in_type(v), acc0);
    let acc1 = PartialMsg { id: Some(v.id), ..acc0 };
    lemma_member_type(v.kind, seq![','] + ser_in_from(v), acc1);
    let acc2 = PartialMsg { kind: Some(v.kind), ..acc1 };
    lemma_member_from(v.from, seq![','] + ser_in_to(v), acc2);
    let acc3 = PartialMsg { from: Some(v.from), ..acc2 };
    lemma_members_from_to(v, acc3);
    let acc7 = PartialMsg {
        to: Some(v.to),
        content: Some(v.content),
        timestamp: Some(v.timestamp),
        metadata: Some(v.metadata),
        ..acc3
    };
    assert(acc7 =~= all_members(v));
    assert(!is_ws(','));
    assert(!is_ws('"'));
    assert((seq![','] + ser_in_type(v)).skip(1) =~= ser_in_type(v));
    assert((seq![','] + ser_in_from(v)).skip(1) =~= ser_in_from(v));
    assert((seq![','] + ser_in_to(v)).skip(1) =~= ser_in_to(v));
    assert(skip_ws(seq![','] + ser_in_type(v)) == seq![','] + ser_in_type(v));
    assert(skip_ws(seq![','] + ser_in_from(v)) == seq![','] + ser_in_from(v));
    assert(skip_ws(seq![','] + ser_in_to(v)) == seq![','] + ser_in_to(v));
    assert(skip_ws(ser_in_type(v)) == ser_in_type(v));
    assert(skip_ws(ser_in_from(v)) == ser_in_from(v));
    assert(skip_ws(ser_in_to(v)) == ser_in_to(v));
    assert(parse_members(ser_in_from(v), acc2) == Some((acc7, Seq::<char>::empty())));
    assert(parse_members(ser_in_type(v), acc1) == Some((acc7, Seq::<char>::empty())));
    assert(parse_members(ser_in_id(v), acc0) == Some((acc7, Seq::<char>::empty())));
}

/// The round-trip law: parsing the serialization of any message view
/// whose timestamp fits in `i64` and whose metadata keys are distinct
/// — as every constructed message's are — yields that view back,
/// every field intact.  Together with the contracts of `to_json` and
/// `from_json` this gives `from_json(to_json(m)) == Ok(m)`.
#[verifier::rlimit(100)]
pub proof fn lemma_round_trip(v: MsgView)
    requires
        -0x8000000000000000 <= v.timestamp <= 0x7fffffffffffffff,
        crate::message::meta_keys_unique(v.metadata),
    ensures
        parse_message(spec_serialize(v)) == Some(v),
{
    let s = spec_serialize(v);
    lemma_serialize_decompose(v);
    lemma_members_from_id(v);
    assert(!is_ws('{'));
    assert(!is_ws('"'));
    assert(s[0] == '{');
    assert(skip_ws(s) == s);
    assert(s.skip(1) =~= ser_in_id(v));
    assert(ser_in_id(v)[0] == '"');
    assert(skip_ws(ser_in_id(v)) == ser_in_id(v));
    assert(skip_ws(Seq::<char>::empty()).len() == 0);
    assert(members_complete(all_members(v)) == Some(v)) by {
        assert(members_complete(all_members(v))->Some_0 =~= v);
    }
}

/// No character of a sequence is the frame delimiter.
pub open spec fn delimiter_free(s: Seq<char>) -> bool {
    forall|i: int| 0 <= i < s.len() ==> s[i] != '\n'
}

proof fn lemma_delim_free_concat(a: Seq<char>, b: Seq<char>)
    requires
        delimiter_free(a),
        delimiter_free(b),
    ensures
        delimiter_free(a + b),
{
    assert forall|i: int| 0 <= i < (a + b).len() implies (a + b)[i] != '\n' by {
        if i < a.len() {
            assert((a + b)[i] == a[i]);
        } else {
            assert((a + b)[i] == b[i - a.len()]);
        }
    }
}

proof fn lemma_escape_delim_free(s: Seq<char>)
    ensures
        delimiter_free(escape_seq(s)),
    decreases s.len(),
{
    if s.len() == 0 {
    } else {
        let c = s[0];
        lemma_escape_delim_free(s.drop_first());
        assert(('\n' as u32) == 10);
        if c == '"' || c == '\\' {
            assert(delimiter_free(escape_char(c)));
        } else if (c as u32) < 32 {
            lemma_hex_digit_u32((c as u32) as int / 16);
            lemma_hex_digit_u32((c as u32) as int % 16);
            assert(delimiter_free(escape_char(c)));
        } else {
            assert(delimiter_free(escape_char(c)));
        }
        lemma_delim_free_concat(escape_char(c), escape_seq(s.drop_first()));
    }
}

proof fn lemma_dec_delim_free(n: int)
    requires
        n >= 0,
    ensures
        delimiter_free(dec_nat(n)),
    decreases n,
{
    lemma_dec_nat_shape(n);
    assert forall|i: int| 0 <= i < dec_nat(n).len() implies dec_nat(n)[i] != '\n' by {
        assert(is_digit(dec_nat(n)[i]));
        assert(('\n' as u32) == 10);
    }
}

proof fn lemma_meta_body_delim_free(ps: Seq<(Seq<char>, Seq<char>)>)
    ensures
        delimiter_free(meta_body(ps)),
    decreases ps.len(),
{
    if ps.len() == 0 {
    } else {
        lemma_escape_delim_free(ps[0].0);
        lemma_escape_delim_free(ps[0].1);
        lemma_delim_free_concat(seq!['"'], escape_seq(ps[0].0));
        lemma_delim_free_concat(seq!['"'] + escape_seq(ps[0].0), seq!['"', ':', '"']);
        lemma_delim_free_concat(
            seq!['"'] + escape_seq(ps[0].0) + seq!['"', ':', '"'],
            escape_seq(ps[0].1),
        );
        lemma_delim_free_concat(
            seq!['"'] + escape_seq(ps[0].0) + seq!['"', ':', '"'] + escape_seq(ps[0].1),
            seq!['"'],
        );
        if ps.len() == 1 {
        } else {
            lemma_meta_body_delim_free(ps.drop_first());
            lemma_delim_free_concat(meta_pair(ps[0]), seq![',']);
            lemma_delim_free_concat(meta_pair(ps[0]) + seq![','], meta_body(ps.drop_first()));
        }
    }
}

/// The delimiter-safety law: the serialized form of a message never
/// contains the frame delimiter `'\n'`, whatever the message holds.
pub proof fn lemma_delimiter_safety(v: MsgView)
    ensures
        delimiter_free(spec_serialize(v)),
{
    lemma_escape_delim_free(v.id);
    lemma_escape_delim_free(v.from);
    lemma_escape_delim_free(v.to);
    lemma_escape_delim_free(v.content);
    lemma_meta_body_delim_free(v.metadata);
    if v.timestamp >= 0 {
        lemma_dec_delim_free(v.timestamp);
    } else {
        lemma_dec_delim_free(-v.timestamp);
        lemma_delim_free_concat(seq!['-'], dec_nat(-v.timestamp));
    }
    assert(delimiter_free(lit_id()));
    assert(delimiter_free(lit_type()));
    assert(delimiter_free(lit_from()));
    assert(delimiter_free(lit_to()));
    assert(delimiter_free(lit_content()));
    assert(delimiter_free(lit_timestamp()));
    assert(delimiter_free(lit_metadata()));
    assert(delimiter_free(kind_tag(v.kind)));
    assert(delimiter_free(seq!['"']));
    assert(delimiter_free(seq!['}', '}']));
    lemma_delim_free_concat(lit_id(), escape_seq(v.id));
    lemma_delim_free_concat(lit_id() + escape_seq(v.id), seq!['"']);
    lemma_delim_free_concat(lit_id() + escape_seq(v.id) + seq!['"'], lit_type());
    lemma_delim_free_concat(
        lit_id() + escape_seq(v.id) + seq!['"'] + lit_type(),
        kind_tag(v.kind),
    );
    lemma_delim_free_concat(
        lit_id() + escape_seq(v.id) + seq!['"'] + lit_type() + kind_tag(v.kind),
        seq!['"'],
    );
    let p5 = lit_id() + escape_seq(v.id) + seq!['"'] + lit_type() + kind_tag(v.kind) + seq!['"'];
    lemma_delim_free_concat(p5, lit_from());
    lemma_delim_free_concat(p5 + lit_from(), escape_seq(v.from));
    lemma_delim_free_concat(p5 + lit_from() + escape_seq(v.from), seq!['"']);
    let p8 = p5 + lit_from() + escape_seq(v.from) + seq!['"'];
    lemma_delim_free_concat(p8, lit_to());
    lemma_delim_free_concat(p8 + lit_to(), escape_seq(v.to));
    lemma_delim_free_concat(p8 + lit_to() + escape_seq(v.to), seq!['"']);
    let p11 = p8 + lit_to() + escape_seq(v.to) + seq!['"'];
    lemma_delim_free_concat(p11, lit_content());
    lemma_delim_free_concat(p11 + lit_content(), escape_seq(v.content));
    lemma_delim_free_concat(p11 + lit_content() + escape_seq(v.content), seq!['"']);
    let p14 = p11 + lit_content() + escape_seq(v.content) + seq!['"'];
    lemma_delim_free_concat(p14, lit_timestamp());
    lemma_delim_free_concat(p14 + lit_timestamp(), dec_int(v.timestamp));
    let p16 = p14 + lit_timestamp() + dec_int(v.timestamp);
    lemma_delim_free_concat(p16, lit_metadata());
    lemma_delim_free_concat(p16 + lit_metadata(), meta_body(v.metadata));
    lemma_delim_free_concat(p16 + lit_metadata() + meta_body(v.metadata), seq!['}', '}']);
    assert(spec_serialize(v) == p16 + lit_metadata() + meta_body(v.metadata) + seq!['}', '}']);
}

} // verus!
