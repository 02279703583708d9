//! File-transfer protocol: a two-line text header (name, size), then
//! exactly `size` raw bytes, chunked, with a streaming SHA-256 folded
//! over the body on each side.  The socket and filesystem I/O live in
//! the surrounding binary; this module holds the header codec, the
//! chunk arithmetic and the checksum bookkeeping.

use vstd::prelude::*;
use vstd::string::{StrSliceExecFns, StringExecFns};
use crate::codec::{append_dec_u64, dec_nat, delimiter_free, hex_char, hex_digit, push_char};
use crate::errors::ProtocolError;

verus! {

// ------------------------------------------------------------------
// Header
// ------------------------------------------------------------------
/// The two header fields sent before the body.
#[derive(Debug)]
pub struct TransferHeader {
    pub file_name: String,
    pub file_size: u64,
}

/// The header as sent: name line, then the size in decimal, each
/// terminated by a newline.
pub open spec fn spec_header(name: Seq<char>, size: int) -> Seq<char> {
    name + seq!['\n'] + dec_nat(size) + seq!['\n']
}

/// Build the header text for a file.  The name must be free of the
/// line terminator, or the header could not be read back.
pub fn encode_header(file_name: &str, file_size: u64) -> (r: String)
    requires
        delimiter_free(file_name@),
    ensures
        r@ == spec_header(file_name@, file_size as int),
{
    let mut out = String::from_str(file_name);
    push_char(&mut out, '\n');
    append_dec_u64(&mut out, file_size);
    push_char(&mut out, '\n');
    proof {
        assert(out@ =~= spec_header(file_name@, file_size as int));
    }
    out
}

/// Position of the first newline byte, or `-1` when there is none.
pub open spec fn find_nl(s: Seq<u8>) -> int
    decreases s.len(),
{
    if s.len() == 0 {
        -1
    } else if s[0] == 10 {
        0
    } else {
        let r = find_nl(s.drop_first());
        if r < 0 {
            -1
        } else {
            1 + r
        }
    }
}

proof fn lemma_find_nl_at(s: Seq<u8>, i: int)
    requires
        0 <= i < s.len(),
        s[i] == 10,
        forall|j: int| 0 <= j < i ==> s[j] != 10,
    ensures
        find_nl(s) == i,
    decreases i,
{
    if i > 0 {
        assert(s.drop_first()[i - 1] == s[i]);
        assert forall|j: int| 0 <= j < i - 1 implies s.drop_first()[j] != 10 by {
            assert(s.drop_first()[j] == s[j + 1]);
        }
        lemma_find_nl_at(s.drop_first(), i - 1);
    }
}

proof fn lemma_find_nl_none(s: Seq<u8>)
    requires
        forall|j: int| 0 <= j < s.len() ==> s[j] != 10,
    ensures
        find_nl(s) == -1,
    decreases s.len(),
{
    if s.len() > 0 {
        assert forall|j: int| 0 <= j < s.drop_first().len() implies s.drop_first()[j] != 10 by {
            assert(s.drop_first()[j] == s[j + 1]);
        }
        lemma_find_nl_none(s.drop_first());
    }
}

/// Split a byte buffer at its first two newlines: the name bytes, the
/// size bytes, and how many bytes the header occupies.
pub open spec fn spec_split_header(b: Seq<u8>) -> Option<(Seq<u8>, Seq<u8>, int)> {
    let p1 = find_nl(b);
    if p1 < 0 {
        None
    } else {
        let rest = b.skip(p1 + 1);
        let p2 = find_nl(rest);
        if p2 < 0 {
            None
        } else {
            Some((b.take(p1), rest.take(p2), p1 + 1 + p2 + 1))
        }
    }
}

pub open spec fn is_digit_byte(b: u8) -> bool {
    48 <= b <= 57
}

/// Value of a run of decimal digit bytes, most significant first.
pub open spec fn byte_digits_val(d: Seq<u8>) -> int
    decreases d.len(),
{
    if d.len() == 0 {
        0
    } else {
        byte_digits_val(d.drop_last()) * 10 + (d.last() - 48)
    }
}

/// The digit part of a size line: an optional leading `+` sign is
/// accepted, as an ordinary unsigned decimal parse would.
pub open spec fn size_digits(d: Seq<u8>) -> Seq<u8> {
    if d.len() > 0 && d[0] == 43 {
        d.drop_first()
    } else {
        d
    }
}

/// Whether a size line denotes a `u64`.
pub open spec fn valid_size(d: Seq<u8>) -> bool {
    let dg = size_digits(d);
    dg.len() >= 1 && (forall|i: int| 0 <= i < dg.len() ==> is_digit_byte(#[trigger] dg[i]))
        && byte_digits_val(dg) <= 0xffffffffffffffff
}

proof fn lemma_byte_digits_val_mono(d: Seq<u8>, m: int)
    requires
        0 <= m <= d.len(),
        forall|q: int| 0 <= q < d.len() ==> is_digit_byte(#[trigger] d[q]),
    ensures
        byte_digits_val(d) >= byte_digits_val(d.take(m)),
        byte_digits_val(d) >= 0,
    decreases d.len(),
{
    if d.len() == 0 {
    } else {
        assert(forall|q: int|
            0 <= q < d.drop_last().len() ==> is_digit_byte(#[trigger] d.drop_last()[q]));
        lemma_byte_digits_val_mono(d.drop_last(), if m <= d.len() - 1 {
            m
        } else {
            d.len() - 1
        });
        if m == d.len() {
            assert(d.take(m) =~= d);
        } else {
            assert(d.drop_last().take(m) =~= d.take(m));
        }
    }
}

/// Parse the transfer header out of the received bytes.  The result
/// distinguishes the three ways a header can be bad: not yet two
/// lines, a size that is not a `u64`, a name that is not UTF-8.
#[verifier::loop_isolation(false)]
#[verifier::rlimit(100)]
pub fn parse_header(buf: &Vec<u8>) -> (r: Result<(TransferHeader, usize), ProtocolError>)
    ensures
        match r {
            Ok(p) => {
                &&& spec_split_header(buf@) matches Some(sp)
                &&& sp.2 == p.1
                &&& valid_size(sp.1)
                &&& p.0.file_size as int == byte_digits_val(size_digits(sp.1))
                &&& vstd::utf8::encode_utf8(p.0.file_name@) == sp.0
            },
            Err(ProtocolError::HeaderIncomplete) => spec_split_header(buf@) is None,
            Err(ProtocolError::BadSize) => {
                &&& spec_split_header(buf@) matches Some(sp)
                &&& !valid_size(sp.1)
            },
            Err(ProtocolError::BadName) => {
                &&& spec_split_header(buf@) matches Some(sp)
                &&& valid_size(sp.1)
                &&& !vstd::utf8::valid_utf8(sp.0)
            },
        },
{
    let n = buf.len();
    // first newline
    let mut p1: usize = 0;
    while p1 < n && buf[p1] != 10
        invariant
            0 <= p1 <= n,
            n == buf@.len(),
            forall|j: int| 0 <= j < p1 ==> buf@[j] != 10,
        decreases n - p1,
    {
        p1 = p1 + 1;
    }
    if p1 == n {
        proof {
            lemma_find_nl_none(buf@);
        }
        return Err(ProtocolError::HeaderIncomplete);
    }
    proof {
        lemma_find_nl_at(buf@, p1 as int);
    }
    // second newline
    let mut p2: usize = p1 + 1;
    while p2 < n && buf[p2] != 10
        invariant
            p1 < p2 <= n,
            n == buf@.len(),
            forall|j: int| p1 < j < p2 ==> buf@[j] != 10,
        decreases n - p2,
    {
        p2 = p2 + 1;
    }
    let ghost rest = buf@.skip(p1 as int + 1);
    proof {
        assert(forall|j: int| 0 <= j < rest.len() ==> rest[j] == buf@[p1 + 1 + j]);
    }
    if p2 == n {
        proof {
            lemma_find_nl_none(rest);
        }
        return Err(ProtocolError::HeaderIncomplete);
    }
    proof {
        lemma_find_nl_at(rest, p2 - p1 - 1);
    }
    let ghost sizebytes = rest.take(p2 - p1 - 1);
    // size digits, with an optional sign
    let start: usize = if p1 + 1 < p2 && buf[p1 + 1] == 43 {
        p1 + 2
    } else {
        p1 + 1
    };
    let ghost dg = size_digits(sizebytes);
    proof {
        assert(forall|j: int| 0 <= j < sizebytes.len() ==> sizebytes[j] == buf@[p1 + 1 + j]);
        assert(dg.len() == p2 - start);
        assert(forall|j: int| 0 <= j < dg.len() ==> dg[j] == buf@[start + j]);
    }
    if start == p2 {
        return Err(ProtocolError::BadSize);
    }
    let mut acc: u128 = 0;
    let mut k: usize = start;
    while k < p2
        invariant
            start <= k <= p2,
            acc as int == byte_digits_val(dg.take((k - start) as int)),
            acc <= 0xffffffffffffffff,
            forall|q: int| 0 <= q < (k - start) ==> is_digit_byte(dg[q]),
        decreases p2 - k,
    {
        let b = buf[k];
        if b < 48 || b > 57 {
            proof {
                assert(dg[(k - start) as int] == buf@[k as int]);
            }
            return Err(ProtocolError::BadSize);
        }
        proof {
            assert(dg[(k - start) as int] == buf@[k as int]);
            assert(dg.take((k - start) as int + 1).drop_last() =~= dg.take((k - start) as int));
            assert(dg.take((k - start) as int + 1).last() == b);
        }
        let a2: u128 = acc * 10 + ((b - 48) as u128);
        if a2 > 0xffffffffffffffff {
            proof {
                assert(a2 as int == byte_digits_val(dg.take((k - start) as int + 1)));
                assert(forall|q: int| 0 <= q < (k - start) + 1 ==> is_digit_byte(dg[q]));
                if forall|q: int| 0 <= q < dg.len() ==> is_digit_byte(#[trigger] dg[q]) {
                    lemma_byte_digits_val_mono(dg, (k - start) as int + 1);
                }
            }
            return Err(ProtocolError::BadSize);
        }
        acc = a2;
        k = k + 1;
    }
    proof {
        assert(dg.take((p2 - start) as int) =~= dg);
        assert(valid_size(sizebytes));
    }
    // name bytes
    let mut name_bytes: Vec<u8> = Vec::new();
    let mut q: usize = 0;
    while q < p1
        invariant
            0 <= q <= p1 < n,
            n == buf@.len(),
            name_bytes@ =~= buf@.take(q as int),
        decreases p1 - q,
    {
        name_bytes.push(buf[q]);
        proof {
            assert(buf@.take(q as int).push(buf@[q as int]) =~= buf@.take(q as int + 1));
        }
        q = q + 1;
    }
    proof {
        assert(name_bytes@ =~= buf@.take(p1 as int));
    }
    let name = match bytes_to_string(name_bytes) {
        Some(s) => s,
        None => {
            return Err(ProtocolError::BadName);
        },
    };
    let header = TransferHeader { file_name: name, file_size: acc as u64 };
    Ok((header, p2 + 1))
}

/// Relies on `String::from_utf8`: succeeds exactly on valid UTF-8 and
/// yields the string those bytes encode.
#[verifier::external_body]
fn bytes_to_string(v: Vec<u8>) -> (r: Option<String>)
    ensures
        match r {
            Some(s) => vstd::utf8::encode_utf8(s@) == v@ && vstd::utf8::valid_utf8(v@),
            None => !vstd::utf8::valid_utf8(v@),
        },
{
    match String::from_utf8(v) {
        Ok(s) => Some(s),
        Err(_) => None,
    }
}

// ------------------------------------------------------------------
// Chunking and checksum
// ------------------------------------------------------------------
/// How many bytes to ask the socket for next: a full buffer, or just
/// what is still missing.
pub fn next_read_len(received: u64, total: u64, buf_len: usize) -> (r: usize)
    requires
        received <= total,
    ensures
        r as int == vstd::math::min(buf_len as int, total - received),
{
    let missing = total - received;
    if (buf_len as u64) <= missing {
        buf_len
    } else {
        missing as usize
    }
}

#[verifier::external_type_specification]
#[verifier::external_body]
pub struct ExSha256(sha2::Sha256);

/// Relies on `sha2::Sha256::new` (`Digest::new`): a fresh hasher
/// state; what it denotes is stated on `StreamHasher`'s methods.
#[verifier::external_body]
fn sha256_new() -> (h: sha2::Sha256) {
    <sha2::Sha256 as sha2::Digest>::new()
}

/// The SHA-256 digest (32 bytes) of a byte sequence, as the sha2
/// crate computes it.
pub uninterp spec fn sha256_of(data: Seq<u8>) -> Seq<u8>;

/// A running SHA-256 over everything fed so far.
pub struct StreamHasher {
    inner: sha2::Sha256,
    bytes: Ghost<Seq<u8>>,
}

impl StreamHasher {
    /// Everything fed so far.
    pub closed spec fn fed(&self) -> Seq<u8> {
        self.bytes@
    }

    /// A hasher that has seen no input.
    pub fn new() -> (h: StreamHasher)
        ensures
            h.fed() == Seq::<u8>::empty(),
    {
        StreamHasher { inner: sha256_new(), bytes: Ghost(Seq::empty()) }
    }

    /// Relies on `sha2::Digest::update`: folds the chunk into the
    /// running digest state.
    #[verifier::external_body]
    pub fn update(&mut self, chunk: &[u8])
        ensures
            final (self).fed() == old(self).fed() + chunk@,
    {
        sha2::Digest::update(&mut self.inner, chunk);
    }

    /// Relies on `sha2::Digest::finalize`: the 32-byte SHA-256 digest
    /// of exactly the bytes fed, a function of those bytes alone.
    #[verifier::external_body]
    pub fn finalize(self) -> (d: Vec<u8>)
        ensures
            d@ == sha256_of(self.fed()),
            d@.len() == 32,
    {
        let out = <sha2::Sha256 as sha2::Digest>::finalize(self.inner);
        out.to_vec()
    }

    /// The hex form of the final digest, as reported to the operator.
    pub fn finalize_hex(self) -> (r: String)
        ensures
            r@ == hex_of_bytes(sha256_of(self.fed())),
    {
        let d = self.finalize();
        digest_hex(&d)
    }
}

/// Two lowercase hex digits per byte, in order.
pub open spec fn hex_of_bytes(b: Seq<u8>) -> Seq<char>
    decreases b.len(),
{
    if b.len() == 0 {
        Seq::empty()
    } else {
        hex_of_bytes(b.drop_last()) + seq![
            hex_digit(b.last() as int / 16),
            hex_digit(b.last() as int % 16),
        ]
    }
}

/// Render a digest in lowercase hex.
pub fn digest_hex(d: &Vec<u8>) -> (r: String)
    ensures
        r@ == hex_of_bytes(d@),
{
    let mut out = String::new();
    let mut i: usize = 0;
    while i < d.len()
        invariant
            0 <= i <= d.len(),
            out@ == hex_of_bytes(d@.take(i as int)),
        decreases d.len() - i,
    {
        let b = d[i];
        push_char(&mut out, hex_char(b / 16));
        push_char(&mut out, hex_char(b % 16));
        proof {
            assert(d@.take(i as int + 1).drop_last() =~= d@.take(i as int));
            assert(d@.take(i as int + 1).last() == b);
            assert(out@ =~= hex_of_bytes(d@.take(i as int + 1)));
        }
        i = i + 1;
    }
    proof {
        assert(d@.take(d@.len() as int) =~= d@);
    }
    out
}

/// Receiver-side bookkeeping for one transfer: how much of the
/// declared size has arrived, and the running checksum over it.
pub struct ReceiveProgress {
    received: u64,
    expected: u64,
    hasher: StreamHasher,
}

impl ReceiveProgress {
    pub closed spec fn received_count(&self) -> int {
        self.received as int
    }

    pub closed spec fn expected_count(&self) -> int {
        self.expected as int
    }

    /// The body bytes folded in so far.
    pub closed spec fn body(&self) -> Seq<u8> {
        self.hasher.fed()
    }

    /// The count always matches the bytes folded in.
    pub closed spec fn wf(&self) -> bool {
        self.received as int == self.body().len() && self.received <= self.expected
    }

    /// Start a transfer that expects `expected` body bytes.
    pub fn start(expected: u64) -> (p: ReceiveProgress)
        ensures
            p.wf(),
            p.expected_count() == expected as int,
            p.received_count() == 0,
            p.body() == Seq::<u8>::empty(),
    {
        ReceiveProgress { received: 0, expected, hasher: StreamHasher::new() }
    }

    /// How many bytes may still arrive.
    pub fn remaining(&self) -> (r: u64)
        requires
            self.wf(),
        ensures
            r as int == self.expected_count() - self.received_count(),
    {
        self.expected - self.received
    }

    /// Whether the declared size has fully arrived.
    pub fn is_done(&self) -> (b: bool)
        requires
            self.wf(),
        ensures
            b == (self.received_count() == self.expected_count()),
    {
        self.received >= self.expected
    }

    /// Fold one received chunk into the transfer.
    pub fn ingest(&mut self, chunk: &[u8])
        requires
            old(self).wf(),
            chunk@.len() <= old(self).expected_count() - old(self).received_count(),
        ensures
            final (self).wf(),
            final (self).expected_count() == old(self).expected_count(),
            final (self).received_count() == old(self).received_count() + chunk@.len(),
            final (self).body() == old(self).body() + chunk@,
    {
        proof {
            assert(chunk@.len() <= u64::MAX);
        }
        self.received = self.received + (chunk.len() as u64);
        self.hasher.update(chunk);
    }

    /// Finish: the byte count that arrived and the hex checksum of
    /// exactly those bytes.
    pub fn finish(self) -> (r: (u64, String))
        ensures
            r.0 as int == self.received_count(),
            r.1@ == hex_of_bytes(sha256_of(self.body())),
    {
        let count = self.received;
        let hex = self.hasher.finalize_hex();
        (count, hex)
    }
}

} // verus!
